//! Breadth-first search over a concept adjacency list.

use vstd::prelude::*;
use vstd::seq_lib::seq_to_set_is_finite;
use vstd::set_lib::lemma_len_subset;

use crate::text::{str_equal, texts};

verus! {

/// A concept and the concepts it points to.
pub struct AdjEntry {
    pub concept: String,
    pub neighbors: Vec<String>,
}

/// An adjacency list as mathematical values.
pub open spec fn adj_view(adj: Seq<AdjEntry>) -> Seq<(Seq<char>, Seq<Seq<char>>)> {
    adj.map_values(|e: AdjEntry| (e.concept@, texts(e.neighbors@)))
}

/// The neighbours listed for `k` (the first entry for `k`), or none.
pub open spec fn neighbor_list(adj: Seq<(Seq<char>, Seq<Seq<char>>)>, k: Seq<char>) -> Seq<Seq<char>>
    decreases adj.len(),
{
    if adj.len() == 0 {
        Seq::empty()
    } else if adj[0].0 == k {
        adj[0].1
    } else {
        neighbor_list(adj.drop_first(), k)
    }
}

/// `p` is a walk along the adjacency list: each concept is a neighbour of the
/// one before it.
pub open spec fn is_walk(adj: Seq<(Seq<char>, Seq<Seq<char>>)>, p: Seq<Seq<char>>) -> bool {
    p.len() >= 1 && forall|i: int| 0 <= i < p.len() - 1 ==> neighbor_list(adj, #[trigger] p[i]).contains(p[i + 1])
}

/// `w` can be reached from `start` by a walk (of no steps, when `w` is `start`).
pub open spec fn reachable(adj: Seq<(Seq<char>, Seq<Seq<char>>)>, start: Seq<char>, w: Seq<char>) -> bool {
    exists|p: Seq<Seq<char>>| #[trigger] is_walk(adj, p) && p[0] == start && p.last() == w
}

/// Every concept named in the adjacency list, keys and neighbours.
pub open spec fn all_names(adj: Seq<(Seq<char>, Seq<Seq<char>>)>) -> Seq<Seq<char>>
    decreases adj.len(),
{
    if adj.len() == 0 {
        Seq::empty()
    } else {
        seq![adj[0].0] + adj[0].1 + all_names(adj.drop_first())
    }
}

/// A neighbour is named in the adjacency list.
proof fn lemma_neighbor_named(adj: Seq<(Seq<char>, Seq<Seq<char>>)>, k: Seq<char>, w: Seq<char>)
    requires
        neighbor_list(adj, k).contains(w),
    ensures
        all_names(adj).contains(w),
    decreases adj.len(),
{
    if adj.len() > 0 {
        if adj[0].0 == k {
            let j = choose|j: int| 0 <= j < adj[0].1.len() && adj[0].1[j] == w;
            assert((seq![adj[0].0] + adj[0].1 + all_names(adj.drop_first()))[1 + j] == w);
        } else {
            lemma_neighbor_named(adj.drop_first(), k, w);
            let j = choose|j: int| 0 <= j < all_names(adj.drop_first()).len() && all_names(adj.drop_first())[j] == w;
            assert((seq![adj[0].0] + adj[0].1 + all_names(adj.drop_first()))[1 + adj[0].1.len() + j] == w);
        }
    }
}

/// A walk that starts in a set closed under neighbours stays in it.
proof fn lemma_closed_walk(
    adj: Seq<(Seq<char>, Seq<Seq<char>>)>,
    visited: Set<Seq<char>>,
    p: Seq<Seq<char>>,
    n: int,
)
    requires
        is_walk(adj, p),
        visited.contains(p[0]),
        forall|v: Seq<char>, w: Seq<char>|
            visited.contains(v) && #[trigger] neighbor_list(adj, v).contains(w) ==> visited.contains(w),
        0 <= n < p.len(),
    ensures
        visited.contains(p[n]),
    decreases n,
{
    if n > 0 {
        lemma_closed_walk(adj, visited, p, n - 1);
        assert(neighbor_list(adj, p[n - 1]).contains(p[n]));
    }
}

/// Whether `x` is among the strings of `v`.
pub fn contains_text(v: &Vec<String>, x: &str) -> (b: bool)
    ensures
        b == texts(v@).contains(x@),
{
    let mut i: usize = 0;
    while i < v.len()
        invariant
            i <= v.len(),
            forall|j: int| 0 <= j < i ==> texts(v@)[j] != x@,
        decreases v.len() - i,
    {
        if str_equal(v[i].as_str(), x) {
            assert(texts(v@)[i as int] == x@);
            return true;
        }
        i += 1;
    }
    false
}

/// The position of the first entry for `k`.
pub fn find_entry(adj: &Vec<AdjEntry>, k: &str) -> (r: Option<usize>)
    ensures
        r matches Some(i) ==> i < adj.len() && neighbor_list(adj_view(adj@), k@) == texts(adj@[i as int].neighbors@)
            && adj@[i as int].concept@ == k@ && forall|j: int| 0 <= j < i ==> adj@[j].concept@ != k@,
        r is None ==> neighbor_list(adj_view(adj@), k@) == Seq::<Seq<char>>::empty() && forall|j: int|
            0 <= j < adj@.len() ==> adj@[j].concept@ != k@,
{
    let ghost av = adj_view(adj@);
    assert(av.skip(0) =~= av);
    let mut i: usize = 0;
    while i < adj.len()
        invariant
            i <= adj.len(),
            av == adj_view(adj@),
            neighbor_list(av, k@) == neighbor_list(av.skip(i as int), k@),
            forall|j: int| 0 <= j < i ==> adj@[j].concept@ != k@,
        decreases adj.len() - i,
    {
        assert(av.skip(i as int).drop_first() =~= av.skip(i + 1));
        if str_equal(adj[i].concept.as_str(), k) {
            return Some(i);
        }
        i += 1;
    }
    None
}

/// `w` can be reached from `start` by a walk of at most `k` steps.
pub open spec fn within(adj: Seq<(Seq<char>, Seq<Seq<char>>)>, start: Seq<char>, w: Seq<char>, k: int) -> bool {
    exists|p: Seq<Seq<char>>| #[trigger] is_walk(adj, p) && p[0] == start && p.last() == w && p.len() <= k + 1
}

/// A bound that reaches `w` reaches it with more steps allowed too.
proof fn lemma_within_mono(adj: Seq<(Seq<char>, Seq<Seq<char>>)>, start: Seq<char>, w: Seq<char>, k: int, k2: int)
    requires
        within(adj, start, w, k),
        k <= k2,
    ensures
        within(adj, start, w, k2),
{
    let p = choose|p: Seq<Seq<char>>| #[trigger] is_walk(adj, p) && p[0] == start && p.last() == w && p.len() <= k + 1;
    assert(is_walk(adj, p) && p[0] == start && p.last() == w && p.len() <= k2 + 1);
}

/// A concept other than `start` reached within `k` steps is a neighbour of
/// one reached within `k - 1` steps.
proof fn lemma_within_pred(adj: Seq<(Seq<char>, Seq<Seq<char>>)>, start: Seq<char>, w: Seq<char>, k: int)
    requires
        within(adj, start, w, k),
        w != start,
    ensures
        exists|u: Seq<char>| within(adj, start, u, k - 1) && #[trigger] neighbor_list(adj, u).contains(w),
{
    let p = choose|p: Seq<Seq<char>>| #[trigger] is_walk(adj, p) && p[0] == start && p.last() == w && p.len() <= k + 1;
    assert(p.len() >= 2);
    let q = p.drop_last();
    assert(is_walk(adj, q)) by {
        assert forall|i: int| 0 <= i < q.len() - 1 implies neighbor_list(adj, #[trigger] q[i]).contains(q[i + 1]) by {
            assert(q[i] == p[i] && q[i + 1] == p[i + 1]);
        }
    }
    assert(q[0] == start);
    let u = q.last();
    assert(neighbor_list(adj, p[p.len() - 2]).contains(p[p.len() - 1]));
    assert(within(adj, start, u, k - 1));
}

/// A walk extended by a neighbour.
proof fn lemma_within_step(adj: Seq<(Seq<char>, Seq<Seq<char>>)>, start: Seq<char>, u: Seq<char>, w: Seq<char>, k: int)
    requires
        within(adj, start, u, k),
        neighbor_list(adj, u).contains(w),
    ensures
        within(adj, start, w, k + 1),
{
    let p = choose|p: Seq<Seq<char>>| #[trigger] is_walk(adj, p) && p[0] == start && p.last() == u && p.len() <= k + 1;
    let p2 = p.push(w);
    assert(is_walk(adj, p2)) by {
        assert forall|i: int| 0 <= i < p2.len() - 1 implies neighbor_list(adj, #[trigger] p2[i]).contains(p2[i + 1]) by {
            if i < p.len() - 1 {
                assert(p2[i] == p[i] && p2[i + 1] == p[i + 1]);
            }
        }
    }
    assert(p2[0] == start && p2.last() == w && p2.len() <= k + 2);
}

/// Breadth-first search from `start`: every concept reachable from it, each
/// once, `start` itself left out, nearer concepts first (no concept is
/// listed after one that a shorter walk reaches).
pub fn breadth_first(adj: &Vec<AdjEntry>, start: &str) -> (ordered: Vec<String>)
    ensures
        texts(ordered@).no_duplicates(),
        forall|w: Seq<char>|
            texts(ordered@).contains(w) <==> (reachable(adj_view(adj@), start@, w) && w != start@),
        forall|i: int, j: int, k: int|
            #![trigger within(adj_view(adj@), start@, texts(ordered@)[j], k), texts(ordered@)[i]]
            0 <= i < j < ordered@.len() && within(adj_view(adj@), start@, texts(ordered@)[j], k) ==> within(
                adj_view(adj@),
                start@,
                texts(ordered@)[i],
                k,
            ),
{
    broadcast use seq_to_set_is_finite, vstd::seq_lib::lemma_seq_contains_after_push;

    let ghost av = adj_view(adj@);
    let ghost universe = all_names(av).to_set().insert(start@);
    let mut visited: Vec<String> = Vec::new();
    let mut ordered: Vec<String> = Vec::new();
    let mut queue: Vec<String> = Vec::new();
    queue.push(start.to_owned());
    let ghost mut lv: Seq<int> = seq![0int];
    let ghost mut vl: Seq<int> = Seq::empty();
    let mut head: usize = 0;
    proof {
        assert(is_walk(av, seq![start@]));
        assert(within(av, start@, start@, 0));
        assert(texts(visited@).to_set() =~= Set::<Seq<char>>::empty());
        assert forall|w: Seq<char>, k: int| within(av, start@, w, k) && k < lv[0] implies texts(visited@).contains(w) by {
            let p = choose|p: Seq<Seq<char>>| #[trigger] is_walk(av, p) && p[0] == start@ && p.last() == w && p.len() <= k + 1;
        }
    }
    while head < queue.len()
        invariant
            av == adj_view(adj@),
            universe == all_names(av).to_set().insert(start@),
            universe.finite(),
            head <= queue.len(),
            queue.len() >= 1,
            texts(queue@)[0] == start@,
            texts(visited@).no_duplicates(),
            texts(visited@).to_set().subset_of(universe),
            texts(visited@).len() == texts(visited@).to_set().len(),
            forall|j: int| 0 <= j < queue.len() ==> universe.contains(#[trigger] texts(queue@)[j]),
            forall|j: int| 0 <= j < queue.len() ==> reachable(av, start@, #[trigger] texts(queue@)[j]),
            forall|j: int| 0 <= j < visited.len() ==> reachable(av, start@, #[trigger] texts(visited@)[j]),
            head > 0 ==> texts(visited@).contains(start@),
            visited.len() > 0 ==> texts(visited@)[0] == start@,
            visited.len() == 0 ==> head == 0,
            texts(ordered@) == (if visited.len() == 0 {
                Seq::<Seq<char>>::empty()
            } else {
                texts(visited@).skip(1)
            }),
            // levels of queued and visited concepts
            lv.len() == queue.len(),
            vl.len() == visited.len(),
            lv[0] == 0,
            forall|j: int| 0 <= j < queue.len() ==> within(av, start@, #[trigger] texts(queue@)[j], lv[j]),
            forall|a: int, b: int| 0 <= a <= b < lv.len() ==> #[trigger] lv[a] <= #[trigger] lv[b],
            head < queue.len() ==> lv[lv.len() - 1] <= lv[head as int] + 1,
            forall|i: int| 0 <= i < visited.len() ==> within(av, start@, #[trigger] texts(visited@)[i], vl[i]),
            forall|i: int, k: int|
                0 <= i < visited.len() && #[trigger] within(av, start@, texts(visited@)[i], k) ==> vl[i] <= k,
            forall|a: int, b: int| 0 <= a <= b < vl.len() ==> #[trigger] vl[a] <= #[trigger] vl[b],
            forall|i: int| 0 <= i < vl.len() && head < queue.len() ==> #[trigger] vl[i] <= lv[head as int],
            forall|w: Seq<char>, k: int|
                #[trigger] within(av, start@, w, k) && head < queue.len() && k < lv[head as int]
                    ==> texts(visited@).contains(w),
            forall|i: int, w: Seq<char>|
                0 <= i < visited.len() && #[trigger] neighbor_list(av, texts(visited@)[i]).contains(w) ==> (
                texts(visited@).contains(w) || exists|j: int|
                    head <= j < queue.len() && #[trigger] texts(queue@)[j] == w && lv[j] <= vl[i] + 1),
        decreases universe.len() - texts(visited@).to_set().len(), queue.len() - head,
    {
        let current = queue[head].clone();
        let ghost cur = current@;
        assert(texts(queue@)[head as int] == cur);
        let ghost old_head = head as int;
        let ghost d = lv[old_head];
        head += 1;
        if contains_text(&visited, current.as_str()) {
            proof {
                lemma_advance(av, start@, texts(queue@), lv, texts(visited@), vl, old_head, cur);
            }
            continue;
        }
        let ghost old_visited = texts(visited@);
        let ghost old_queue = texts(queue@);
        let ghost old_ordered = texts(ordered@);
        let ghost old_vl = vl;
        visited.push(current.clone());
        assert(texts(visited@) =~= old_visited.push(cur));
        proof {
            vl = vl.push(d);
            old_visited.lemma_push_to_set_commute(cur);
            assert(!old_visited.to_set().contains(cur));
            assert(universe.contains(cur));
            assert(texts(visited@).to_set().len() == old_visited.to_set().len() + 1);
            assert(texts(visited@).to_set().subset_of(universe));
            lemma_len_subset(texts(visited@).to_set(), universe);
        }
        if !crate::text::str_equal(current.as_str(), start) {
            ordered.push(current.clone());
            assert(texts(ordered@) =~= old_ordered.push(cur));
        }
        proof {
            if old_visited.len() == 0 {
                assert(old_head == 0);
                assert(cur == start@);
                assert(texts(ordered@) =~= texts(visited@).skip(1));
            } else {
                assert(old_visited[0] == start@);
                assert(cur != start@);
                assert(texts(ordered@) =~= texts(visited@).skip(1));
            }
        }
        let ghost nbrs = neighbor_list(av, cur);
        let ghost cur_walk = choose|p: Seq<Seq<char>>| #[trigger] is_walk(av, p) && p[0] == start@ && p.last() == cur;
        let ghost lv0 = lv;
        match find_entry(adj, current.as_str()) {
            Some(e) => {
                let neighbors = &adj[e].neighbors;
                let mut n: usize = 0;
                while n < neighbors.len()
                    invariant
                        av == adj_view(adj@),
                        universe == all_names(av).to_set().insert(start@),
                        nbrs == neighbor_list(av, cur),
                        nbrs == texts(neighbors@),
                        n <= neighbors.len(),
                        head <= queue.len(),
                        head == old_head + 1,
                        texts(queue@).len() >= old_queue.len(),
                        texts(queue@).take(old_queue.len() as int) == old_queue,
                        is_walk(av, cur_walk) && cur_walk[0] == start@ && cur_walk.last() == cur,
                        within(av, start@, cur, d),
                        lv.len() == queue.len(),
                        lv0.len() == old_queue.len(),
                        lv.take(lv0.len() as int) == lv0,
                        forall|j: int| lv0.len() <= j < lv.len() ==> #[trigger] lv[j] == d + 1,
                        forall|j: int| 0 <= j < queue.len() ==> universe.contains(#[trigger] texts(queue@)[j]),
                        forall|j: int| 0 <= j < queue.len() ==> reachable(av, start@, #[trigger] texts(queue@)[j]),
                        forall|j: int| 0 <= j < queue.len() ==> within(av, start@, #[trigger] texts(queue@)[j], lv[j]),
                        forall|q: int| 0 <= q < n ==> (texts(visited@).contains(#[trigger] nbrs[q]) || exists|j: int|
                            head <= j < queue.len() && #[trigger] texts(queue@)[j] == nbrs[q] && lv[j] <= d + 1),
                    decreases neighbors.len() - n,
                {
                    let w = &neighbors[n];
                    let ghost wv = w@;
                    assert(nbrs[n as int] == wv);
                    if !contains_text(&visited, w.as_str()) {
                        let ghost before = texts(queue@);
                        let ghost lv_before = lv;
                        queue.push(w.clone());
                        assert(texts(queue@) =~= before.push(wv));
                        proof {
                            lv = lv.push(d + 1);
                            assert(lv.take(lv0.len() as int) =~= lv_before.take(lv0.len() as int));
                            assert(nbrs.contains(wv));
                            lemma_neighbor_named(av, cur, wv);
                            lemma_within_step(av, start@, cur, wv, d);
                            let p2 = cur_walk.push(wv);
                            assert(is_walk(av, p2)) by {
                                assert forall|i: int| 0 <= i < p2.len() - 1 implies neighbor_list(av, #[trigger] p2[i]).contains(p2[i + 1]) by {
                                    if i < cur_walk.len() - 1 {
                                        assert(p2[i] == cur_walk[i] && p2[i + 1] == cur_walk[i + 1]);
                                    }
                                }
                            }
                            assert(p2[0] == start@ && p2.last() == wv);
                            assert forall|q: int| 0 <= q < n implies (texts(visited@).contains(#[trigger] nbrs[q]) || exists|j: int|
                                head <= j < queue.len() && #[trigger] texts(queue@)[j] == nbrs[q] && lv[j] <= d + 1) by {
                                if !texts(visited@).contains(nbrs[q]) {
                                    let j = choose|j: int| head <= j < before.len() && #[trigger] before[j] == nbrs[q] && lv_before[j] <= d + 1;
                                    assert(texts(queue@)[j] == nbrs[q] && lv[j] == lv_before[j]);
                                }
                            }
                            assert(texts(queue@)[queue.len() - 1] == wv);
                            assert(lv[lv.len() - 1] == d + 1);
                            assert forall|j: int| 0 <= j < queue.len() implies within(av, start@, #[trigger] texts(queue@)[j], lv[j]) by {
                                if j < before.len() {
                                    assert(texts(queue@)[j] == before[j] && lv[j] == lv_before[j]);
                                }
                            }
                            assert forall|j: int| lv0.len() <= j < lv.len() implies #[trigger] lv[j] == d + 1 by {
                                if j < lv_before.len() {
                                    assert(lv[j] == lv_before[j]);
                                }
                            }
                        }
                    }
                    n += 1;
                }
            },
            None => {
                proof {
                    assert(nbrs =~= Seq::<Seq<char>>::empty());
                    assert(texts(queue@).take(old_queue.len() as int) =~= old_queue);
                    assert(lv.take(lv0.len() as int) =~= lv0);
                }
            },
        }
        proof {
            lemma_after_visit(
                av,
                start@,
                old_queue,
                lv0,
                texts(queue@),
                lv,
                old_visited,
                old_vl,
                old_head,
                cur,
                nbrs,
            );
            let qv = texts(queue@);
            assert forall|j: int| 0 <= j < visited.len() implies reachable(av, start@, #[trigger] texts(visited@)[j]) by {
                if j < old_visited.len() {
                    assert(texts(visited@)[j] == old_visited[j]);
                } else {
                    assert(texts(visited@)[j] == cur);
                }
            }
            assert(qv[0] == old_queue[0]);
            if old_head == 0 {
                assert(cur == start@);
                assert(texts(visited@)[texts(visited@).len() - 1] == cur);
            } else {
                let k = choose|k: int| 0 <= k < old_visited.len() && old_visited[k] == start@;
                assert(texts(visited@)[k] == start@);
            }
            assert(texts(visited@)[0] == start@);
        }
    }
    proof {
        let vs = texts(visited@);
        let vis = vs.to_set();
        assert forall|w: Seq<char>| (reachable(av, start@, w) && w != start@) implies texts(ordered@).contains(w) by {
            let p = choose|p: Seq<Seq<char>>| #[trigger] is_walk(av, p) && p[0] == start@ && p.last() == w;
            assert forall|v: Seq<char>, x: Seq<char>|
                vis.contains(v) && #[trigger] neighbor_list(av, v).contains(x) implies vis.contains(x) by {
                let i = choose|i: int| 0 <= i < vs.len() && vs[i] == v;
                assert(neighbor_list(av, vs[i]).contains(x));
            }
            assert(vis.contains(start@));
            lemma_closed_walk(av, vis, p, p.len() - 1);
            assert(vs.contains(w));
            let i = choose|i: int| 0 <= i < vs.len() && vs[i] == w;
            assert(i != 0);
            assert(texts(ordered@)[i - 1] == w);
        }
        assert forall|w: Seq<char>| texts(ordered@).contains(w) implies (reachable(av, start@, w) && w != start@) by {
            let k = choose|k: int| 0 <= k < texts(ordered@).len() && texts(ordered@)[k] == w;
            assert(texts(ordered@)[k] == vs[k + 1]);
            assert(reachable(av, start@, vs[k + 1]));
            assert(vs[0] != vs[k + 1]);
        }
        assert(texts(ordered@).no_duplicates()) by {
            assert forall|a: int, b: int| 0 <= a < b < texts(ordered@).len() implies texts(ordered@)[a] != texts(ordered@)[b] by {
                assert(texts(ordered@)[a] == vs[a + 1] && texts(ordered@)[b] == vs[b + 1]);
            }
        }
        assert forall|i: int, j: int, k: int|
            0 <= i < j < ordered@.len() && #[trigger] within(av, start@, texts(ordered@)[j], k) implies within(
                av,
                start@,
                #[trigger] texts(ordered@)[i],
                k,
            ) by {
            assert(texts(ordered@)[j] == vs[j + 1] && texts(ordered@)[i] == vs[i + 1]);
            assert(vl[j + 1] <= k);
            assert(vl[i + 1] <= vl[j + 1]);
            lemma_within_mono(av, start@, vs[i + 1], vl[i + 1], k);
        }
    }
    ordered
}

/// Moving past a queued concept that was already visited keeps the level
/// invariants.
proof fn lemma_advance(
    av: Seq<(Seq<char>, Seq<Seq<char>>)>,
    start: Seq<char>,
    q: Seq<Seq<char>>,
    lv: Seq<int>,
    v: Seq<Seq<char>>,
    vl: Seq<int>,
    h: int,
    cur: Seq<char>,
)
    requires
        0 <= h < q.len(),
        lv.len() == q.len(),
        vl.len() == v.len(),
        q[h] == cur,
        v.contains(cur),
        v.contains(start) || h == 0 && cur == start,
        forall|a: int, b: int| 0 <= a <= b < lv.len() ==> #[trigger] lv[a] <= #[trigger] lv[b],
        lv[lv.len() - 1] <= lv[h] + 1,
        forall|i: int, k: int| 0 <= i < v.len() && #[trigger] within(av, start, v[i], k) ==> vl[i] <= k,
        forall|i: int| 0 <= i < vl.len() ==> #[trigger] vl[i] <= lv[h],
        forall|w: Seq<char>, k: int| #[trigger] within(av, start, w, k) && k < lv[h] ==> v.contains(w),
        forall|i: int, w: Seq<char>|
            0 <= i < v.len() && #[trigger] neighbor_list(av, v[i]).contains(w) ==> (v.contains(w) || exists|j: int|
                h <= j < q.len() && #[trigger] q[j] == w && lv[j] <= vl[i] + 1),
    ensures
        h + 1 < q.len() ==> lv[lv.len() - 1] <= lv[h + 1] + 1,
        forall|i: int| 0 <= i < vl.len() && h + 1 < q.len() ==> #[trigger] vl[i] <= lv[h + 1],
        forall|w: Seq<char>, k: int|
            #[trigger] within(av, start, w, k) && h + 1 < q.len() && k < lv[h + 1] ==> v.contains(w),
        forall|i: int, w: Seq<char>|
            0 <= i < v.len() && #[trigger] neighbor_list(av, v[i]).contains(w) ==> (v.contains(w) || exists|j: int|
                h + 1 <= j < q.len() && #[trigger] q[j] == w && lv[j] <= vl[i] + 1),
{
    if h + 1 < q.len() {
        assert(lv[h] <= lv[h + 1]);
    }
    assert forall|i: int, w: Seq<char>|
        0 <= i < v.len() && #[trigger] neighbor_list(av, v[i]).contains(w) implies (v.contains(w) || exists|j: int|
            h + 1 <= j < q.len() && #[trigger] q[j] == w && lv[j] <= vl[i] + 1) by {
        if !v.contains(w) {
            let j = choose|j: int| h <= j < q.len() && #[trigger] q[j] == w && lv[j] <= vl[i] + 1;
            assert(j != h);
        }
    }
    assert forall|w: Seq<char>, k: int|
        #[trigger] within(av, start, w, k) && h + 1 < q.len() && k < lv[h + 1] implies v.contains(w) by {
        if k >= lv[h] {
            assert(lv[h + 1] <= lv[lv.len() - 1]);
            if w != start {
                lemma_within_pred(av, start, w, k);
                let u = choose|u: Seq<char>| within(av, start, u, k - 1) && #[trigger] neighbor_list(av, u).contains(w);
                lemma_within_mono(av, start, u, k - 1, lv[h] - 1);
                assert(v.contains(u));
                let i = choose|i: int| 0 <= i < v.len() && v[i] == u;
                assert(within(av, start, v[i], lv[h] - 1));
                assert(vl[i] <= lv[h] - 1);
                if !v.contains(w) {
                    let j = choose|j: int| h <= j < q.len() && #[trigger] q[j] == w && lv[j] <= vl[i] + 1;
                    if j > h {
                        assert(lv[h + 1] <= lv[j]);
                    }
                }
            }
        }
    }
}

/// After a concept is visited and its unvisited neighbours queued one level
/// further, the level invariants hold again.
proof fn lemma_after_visit(
    av: Seq<(Seq<char>, Seq<Seq<char>>)>,
    start: Seq<char>,
    q0: Seq<Seq<char>>,
    lv0: Seq<int>,
    q: Seq<Seq<char>>,
    lv: Seq<int>,
    v0: Seq<Seq<char>>,
    vl0: Seq<int>,
    h: int,
    cur: Seq<char>,
    nbrs: Seq<Seq<char>>,
)
    requires
        0 <= h < q0.len(),
        lv0.len() == q0.len(),
        lv.len() == q.len(),
        q.len() >= q0.len(),
        q.take(q0.len() as int) == q0,
        lv.take(lv0.len() as int) == lv0,
        forall|j: int| lv0.len() <= j < lv.len() ==> #[trigger] lv[j] == lv0[h] + 1,
        vl0.len() == v0.len(),
        q0[h] == cur,
        !v0.contains(cur),
        v0.contains(start) || h == 0 && cur == start,
        nbrs == neighbor_list(av, cur),
        within(av, start, cur, lv0[h]),
        forall|a: int, b: int| 0 <= a <= b < lv0.len() ==> #[trigger] lv0[a] <= #[trigger] lv0[b],
        lv0[lv0.len() - 1] <= lv0[h] + 1,
        forall|i: int| 0 <= i < v0.len() ==> within(av, start, #[trigger] v0[i], vl0[i]),
        forall|i: int, k: int| 0 <= i < v0.len() && #[trigger] within(av, start, v0[i], k) ==> vl0[i] <= k,
        forall|a: int, b: int| 0 <= a <= b < vl0.len() ==> #[trigger] vl0[a] <= #[trigger] vl0[b],
        forall|i: int| 0 <= i < vl0.len() ==> #[trigger] vl0[i] <= lv0[h],
        forall|w: Seq<char>, k: int| #[trigger] within(av, start, w, k) && k < lv0[h] ==> v0.contains(w),
        forall|i: int, w: Seq<char>|
            0 <= i < v0.len() && #[trigger] neighbor_list(av, v0[i]).contains(w) ==> (v0.contains(w) || exists|j: int|
                h <= j < q0.len() && #[trigger] q0[j] == w && lv0[j] <= vl0[i] + 1),
        forall|x: int| 0 <= x < nbrs.len() ==> (v0.push(cur).contains(#[trigger] nbrs[x]) || exists|j: int|
            h + 1 <= j < q.len() && #[trigger] q[j] == nbrs[x] && lv[j] <= lv0[h] + 1),
    ensures
        ({
            let v = v0.push(cur);
            let vl = vl0.push(lv0[h]);
            &&& forall|a: int, b: int| 0 <= a <= b < lv.len() ==> #[trigger] lv[a] <= #[trigger] lv[b]
            &&& h + 1 < q.len() ==> lv[lv.len() - 1] <= lv[h + 1] + 1
            &&& forall|i: int| 0 <= i < v.len() ==> within(av, start, #[trigger] v[i], vl[i])
            &&& forall|i: int, k: int| 0 <= i < v.len() && #[trigger] within(av, start, v[i], k) ==> vl[i] <= k
            &&& forall|a: int, b: int| 0 <= a <= b < vl.len() ==> #[trigger] vl[a] <= #[trigger] vl[b]
            &&& forall|i: int| 0 <= i < vl.len() && h + 1 < q.len() ==> #[trigger] vl[i] <= lv[h + 1]
            &&& forall|w: Seq<char>, k: int|
                #[trigger] within(av, start, w, k) && h + 1 < q.len() && k < lv[h + 1] ==> v.contains(w)
            &&& forall|i: int, w: Seq<char>|
                0 <= i < v.len() && #[trigger] neighbor_list(av, v[i]).contains(w) ==> (v.contains(w) || exists|
                    j: int,
                | h + 1 <= j < q.len() && #[trigger] q[j] == w && lv[j] <= vl[i] + 1)
        }),
{
    broadcast use vstd::seq_lib::lemma_seq_contains_after_push;

    let d = lv0[h];
    let v = v0.push(cur);
    let vl = vl0.push(d);
    assert forall|j: int| 0 <= j < lv0.len() implies #[trigger] lv[j] == lv0[j] by {
        assert(lv.take(lv0.len() as int)[j] == lv[j]);
    }
    assert forall|j: int| 0 <= j < q0.len() implies #[trigger] q[j] == q0[j] by {
        assert(q.take(q0.len() as int)[j] == q[j]);
    }
    assert forall|a: int, b: int| 0 <= a <= b < lv.len() implies #[trigger] lv[a] <= #[trigger] lv[b] by {
        if b >= lv0.len() {
            if a < lv0.len() {
                assert(lv0[a] <= lv0[lv0.len() - 1]);
            }
        } else {
            assert(lv0[a] <= lv0[b]);
        }
    }
    if h + 1 < q.len() {
        assert(lv[h] <= lv[h + 1]);
        if lv.len() > lv0.len() {
            assert(lv[lv.len() - 1] == d + 1);
        } else {
            assert(lv[lv.len() - 1] == lv0[lv0.len() - 1]);
        }
    }
    assert forall|i: int| 0 <= i < v.len() implies within(av, start, #[trigger] v[i], vl[i]) by {
        if i < v0.len() {
            assert(v[i] == v0[i] && vl[i] == vl0[i]);
        }
    }
    assert forall|i: int, k: int| 0 <= i < v.len() && #[trigger] within(av, start, v[i], k) implies vl[i] <= k by {
        if i < v0.len() {
            assert(v[i] == v0[i] && vl[i] == vl0[i]);
        } else {
            assert(v[i] == cur);
            if k < d {
                assert(v0.contains(cur));
            }
        }
    }
    assert forall|a: int, b: int| 0 <= a <= b < vl.len() implies #[trigger] vl[a] <= #[trigger] vl[b] by {
        if b == vl0.len() {
            if a < vl0.len() {
                assert(vl0[a] <= d);
            }
        } else {
            assert(vl[a] == vl0[a] && vl[b] == vl0[b]);
        }
    }
    assert forall|i: int| 0 <= i < vl.len() && h + 1 < q.len() implies #[trigger] vl[i] <= lv[h + 1] by {
        assert(lv[h] <= lv[h + 1]);
        if i < vl0.len() {
            assert(vl[i] == vl0[i]);
        }
    }
    // Neighbour closure with levels.
    assert forall|i: int, w: Seq<char>|
        0 <= i < v.len() && #[trigger] neighbor_list(av, v[i]).contains(w) implies (v.contains(w) || exists|
            j: int,
        | h + 1 <= j < q.len() && #[trigger] q[j] == w && lv[j] <= vl[i] + 1) by {
        if i == v0.len() {
            assert(v[i] == cur);
            let x = choose|x: int| 0 <= x < nbrs.len() && nbrs[x] == w;
            assert(v0.push(cur).contains(nbrs[x]) || exists|j: int|
                h + 1 <= j < q.len() && #[trigger] q[j] == nbrs[x] && lv[j] <= lv0[h] + 1);
        } else {
            assert(v[i] == v0[i] && vl[i] == vl0[i]);
            if !v.contains(w) {
                assert(!v0.contains(w));
                let j = choose|j: int| h <= j < q0.len() && #[trigger] q0[j] == w && lv0[j] <= vl0[i] + 1;
                if j == h {
                    assert(w == cur);
                    assert(v[v0.len() as int] == cur);
                }
                assert(q[j] == q0[j] && lv[j] == lv0[j]);
            }
        }
    }
    // Everything closer than the next level is visited.
    assert forall|w: Seq<char>, k: int|
        #[trigger] within(av, start, w, k) && h + 1 < q.len() && k < lv[h + 1] implies v.contains(w) by {
        if k < d {
            assert(v0.contains(w));
            let i = choose|i: int| 0 <= i < v0.len() && v0[i] == w;
            assert(v[i] == w);
        } else {
            assert(lv[h] <= lv[h + 1]);
            assert(lv[h + 1] <= lv[lv.len() - 1]);
            assert(lv[lv.len() - 1] <= d + 1) by {
                if lv.len() > lv0.len() {
                    assert(lv[lv.len() - 1] == d + 1);
                } else {
                    assert(lv[lv.len() - 1] == lv0[lv0.len() - 1]);
                }
            }
            assert(k == d);
            if w == start {
                if v0.contains(start) {
                    let i = choose|i: int| 0 <= i < v0.len() && v0[i] == start;
                    assert(v[i] == start);
                } else {
                    assert(v[v0.len() as int] == cur);
                }
            } else {
                lemma_within_pred(av, start, w, k);
                let u = choose|u: Seq<char>| within(av, start, u, k - 1) && #[trigger] neighbor_list(av, u).contains(w);
                assert(v0.contains(u));
                let i = choose|i: int| 0 <= i < v0.len() && v0[i] == u;
                assert(vl0[i] <= k - 1);
                assert(v[i] == u && vl[i] == vl0[i]);
                assert(neighbor_list(av, v[i]).contains(w));
                if !v.contains(w) {
                    let j = choose|j: int| h + 1 <= j < q.len() && #[trigger] q[j] == w && lv[j] <= vl[i] + 1;
                    assert(lv[h + 1] <= lv[j]);
                }
            }
        }
    }
}

} // verus!
