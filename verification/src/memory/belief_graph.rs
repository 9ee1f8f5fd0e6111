//! Belief graph: concepts (nodes), typed relations between them, and the
//! adjacency of concepts that the relations induce.
//!
//! Confidences and weights are `f32` values; the graph holds their bit
//! patterns (`f32::to_bits`), which represent them exactly.

use vstd::prelude::*;

use crate::ids::{is_uuid_text, new_uuid, now_rfc3339};
use crate::memory::graph_search::{
    adj_view, breadth_first, find_entry, is_walk, neighbor_list, reachable, within, AdjEntry,
};
use crate::text::{has_substring, lowercase_of, str_contains, str_equal, texts, to_lowercase};

verus! {

// ---------------------------------------------------------------------------
// Beliefs
// ---------------------------------------------------------------------------

/// How strongly a belief is held.
#[derive(Debug, Clone, Copy, PartialEq, Eq, Structural)]
pub enum Confidence {
    High,
    Medium,
    Low,
}

/// Bit pattern of `0.9f32`.
pub open spec fn high_bits() -> u32 {
    0x3F66_6666
}

/// Bit pattern of `0.6f32`.
pub open spec fn medium_bits() -> u32 {
    0x3F19_999A
}

/// Bit pattern of `0.3f32`.
pub open spec fn low_bits() -> u32 {
    0x3E99_999A
}

impl Confidence {
    /// The score of a confidence level as `f32` bits: 0.9, 0.6 or 0.3.
    pub open spec fn score_bits_spec(self) -> u32 {
        match self {
            Confidence::High => high_bits(),
            Confidence::Medium => medium_bits(),
            Confidence::Low => low_bits(),
        }
    }

    /// The score of a confidence level as `f32` bits: 0.9, 0.6 or 0.3.
    pub fn score_bits(self) -> (b: u32)
        ensures
            b == self.score_bits_spec(),
    {
        match self {
            Confidence::High => 0x3F66_6666,
            Confidence::Medium => 0x3F19_999A,
            Confidence::Low => 0x3E99_999A,
        }
    }
}

/// `f32::from_bits(bits) >= f32::from_bits(threshold)` for a positive finite
/// threshold: false for NaN and for negative values (and -0.0); for other
/// values IEEE 754 orders the bit patterns as the numbers.
pub open spec fn f32_at_least(bits: u32, threshold: u32) -> bool {
    let nan = (bits & 0x7F80_0000) == 0x7F80_0000 && (bits & 0x007F_FFFF) != 0;
    let negative = bits >= 0x8000_0000;
    !nan && !negative && bits >= threshold
}

/// The confidence level of a node's confidence: High from 0.9 up, Medium from
/// 0.6 up, Low otherwise.
pub open spec fn level_of(bits: u32) -> Confidence {
    if f32_at_least(bits, high_bits()) {
        Confidence::High
    } else if f32_at_least(bits, medium_bits()) {
        Confidence::Medium
    } else {
        Confidence::Low
    }
}

/// `f32_at_least`, computed.
fn at_least(bits: u32, threshold: u32) -> (b: bool)
    ensures
        b == f32_at_least(bits, threshold),
{
    let nan = (bits & 0x7F80_0000) == 0x7F80_0000 && (bits & 0x007F_FFFF) != 0;
    let negative = bits >= 0x8000_0000;
    !nan && !negative && bits >= threshold
}

/// The confidence level of a node's confidence (see `level_of`).
pub fn confidence_level(bits: u32) -> (c: Confidence)
    ensures
        c == level_of(bits),
{
    if at_least(bits, 0x3F66_6666) {
        Confidence::High
    } else if at_least(bits, 0x3F19_999A) {
        Confidence::Medium
    } else {
        Confidence::Low
    }
}

/// A belief: subject, predicate, object, and how strongly it is held.
pub struct Belief {
    pub subject: String,
    pub predicate: String,
    pub object: String,
    pub confidence: Confidence,
}

impl Belief {
    /// A belief with the given parts.
    pub fn new(subject: String, predicate: String, object: String, confidence: Confidence) -> (b:
        Belief)
        ensures
            b.subject == subject,
            b.predicate == predicate,
            b.object == object,
            b.confidence == confidence,
    {
        Belief { subject, predicate, object, confidence }
    }
}

/// An edge between two concepts with a relation name.
pub struct BeliefEdge {
    pub from: String,
    pub to: String,
    pub relation: String,
}

impl BeliefEdge {
    /// An edge with the given parts.
    pub fn new(from: String, to: String, relation: String) -> (e: BeliefEdge)
        ensures
            e.from == from,
            e.to == to,
            e.relation == relation,
    {
        BeliefEdge { from, to, relation }
    }
}

/// A node: a concept with its id, confidence (`f32` bits) and creation time
/// (RFC 3339).
pub struct BeliefNode {
    pub id: String,
    pub concept: String,
    pub confidence_bits: u32,
    pub created_at: String,
}

/// A relation from a source concept to a target concept, with a type and a
/// weight (`f32` bits).
pub struct BeliefRelation {
    pub id: String,
    pub source: String,
    pub target: String,
    pub relation_type: String,
    pub weight_bits: u32,
}

/// A node as mathematical values.
pub struct NodeView {
    pub id: Seq<char>,
    pub concept: Seq<char>,
    pub confidence_bits: u32,
    pub created_at: Seq<char>,
}

/// A relation as mathematical values.
pub struct RelView {
    pub id: Seq<char>,
    pub source: Seq<char>,
    pub target: Seq<char>,
    pub relation_type: Seq<char>,
    pub weight_bits: u32,
}

impl View for BeliefNode {
    type V = NodeView;

    open spec fn view(&self) -> NodeView {
        NodeView {
            id: self.id@,
            concept: self.concept@,
            confidence_bits: self.confidence_bits,
            created_at: self.created_at@,
        }
    }
}

impl View for BeliefRelation {
    type V = RelView;

    open spec fn view(&self) -> RelView {
        RelView {
            id: self.id@,
            source: self.source@,
            target: self.target@,
            relation_type: self.relation_type@,
            weight_bits: self.weight_bits,
        }
    }
}

impl BeliefNode {
    /// A copy of the node.
    pub fn duplicate(&self) -> (r: BeliefNode)
        ensures
            r@ == self@,
    {
        BeliefNode {
            id: self.id.clone(),
            concept: self.concept.clone(),
            confidence_bits: self.confidence_bits,
            created_at: self.created_at.clone(),
        }
    }
}

impl BeliefRelation {
    /// A copy of the relation.
    pub fn duplicate(&self) -> (r: BeliefRelation)
        ensures
            r@ == self@,
    {
        BeliefRelation {
            id: self.id.clone(),
            source: self.source.clone(),
            target: self.target.clone(),
            relation_type: self.relation_type.clone(),
            weight_bits: self.weight_bits,
        }
    }
}

/// The views of a list of nodes.
pub open spec fn node_views(v: Seq<BeliefNode>) -> Seq<NodeView> {
    v.map_values(|n: BeliefNode| n@)
}

/// The views of a list of relations.
pub open spec fn rel_views(v: Seq<BeliefRelation>) -> Seq<RelView> {
    v.map_values(|r: BeliefRelation| r@)
}

// ---------------------------------------------------------------------------
// The graph as mathematical values
// ---------------------------------------------------------------------------

/// A graph: nodes, relations, and for each known concept the set of concepts
/// it points to.
pub struct GraphView {
    pub nodes: Seq<NodeView>,
    pub relations: Seq<RelView>,
    pub adj: Map<Seq<char>, Set<Seq<char>>>,
}

/// Some relation goes from `s` to `t`.
pub open spec fn has_relation(rels: Seq<RelView>, s: Seq<char>, t: Seq<char>) -> bool {
    exists|i: int| 0 <= i < rels.len() && (#[trigger] rels[i]).source == s && rels[i].target == t
}

/// The position of the node with a given id.
pub open spec fn find_id(nodes: Seq<NodeView>, id: Seq<char>) -> Option<int>
    decreases nodes.len(),
{
    if nodes.len() == 0 {
        None
    } else {
        match find_id(nodes.drop_last(), id) {
            Some(i) => Some(i),
            None => if nodes.last().id == id {
                Some(nodes.len() - 1)
            } else {
                None
            },
        }
    }
}

/// The position of the first node with a given concept.
pub open spec fn find_concept(nodes: Seq<NodeView>, concept: Seq<char>) -> Option<int>
    decreases nodes.len(),
{
    if nodes.len() == 0 {
        None
    } else {
        match find_concept(nodes.drop_last(), concept) {
            Some(i) => Some(i),
            None => if nodes.last().concept == concept {
                Some(nodes.len() - 1)
            } else {
                None
            },
        }
    }
}

/// A well-formed graph: every node's concept and every relation's ends are
/// known concepts, a concept points exactly to the targets of the relations
/// from it, and node ids are unique.
pub open spec fn graph_ok(g: GraphView) -> bool {
    &&& forall|i: int| 0 <= i < g.nodes.len() ==> g.adj.dom().contains(#[trigger] g.nodes[i].concept)
    &&& forall|i: int|
        0 <= i < g.relations.len() ==> g.adj.dom().contains((#[trigger] g.relations[i]).source)
            && g.adj.dom().contains(g.relations[i].target)
    &&& forall|k: Seq<char>, w: Seq<char>|
        #[trigger] g.adj.dom().contains(k) ==> (#[trigger] g.adj[k].contains(w) <==> has_relation(
            g.relations,
            k,
            w,
        ))
    &&& forall|i: int, j: int|
        0 <= i < j < g.nodes.len() ==> (#[trigger] g.nodes[i]).id != (#[trigger] g.nodes[j]).id
}

/// The empty graph.
pub open spec fn empty_graph() -> GraphView {
    GraphView { nodes: Seq::empty(), relations: Seq::empty(), adj: Map::empty() }
}

/// `k` becomes a known concept (with no targets when it is new).
pub open spec fn with_key(adj: Map<Seq<char>, Set<Seq<char>>>, k: Seq<char>) -> Map<
    Seq<char>,
    Set<Seq<char>>,
> {
    if adj.dom().contains(k) {
        adj
    } else {
        adj.insert(k, Set::empty())
    }
}

/// The graph after a node is stored: it replaces the node with the same id,
/// or is appended; its concept becomes known.
pub open spec fn node_step(g: GraphView, n: NodeView) -> GraphView {
    GraphView {
        nodes: match find_id(g.nodes, n.id) {
            Some(i) => g.nodes.update(i, n),
            None => g.nodes.push(n),
        },
        relations: g.relations,
        adj: with_key(g.adj, n.concept),
    }
}

/// The graph after a relation is added: it is appended, its source points to
/// its target, and both ends are known.
pub open spec fn relation_step(g: GraphView, r: RelView) -> GraphView {
    let old_targets = if g.adj.dom().contains(r.source) {
        g.adj[r.source]
    } else {
        Set::empty()
    };
    GraphView {
        nodes: g.nodes,
        relations: g.relations.push(r),
        adj: with_key(g.adj.insert(r.source, old_targets.insert(r.target)), r.target),
    }
}

/// The graph after the first node with `concept` gets a new confidence.
pub open spec fn confidence_step(g: GraphView, concept: Seq<char>, bits: u32) -> GraphView {
    match find_concept(g.nodes, concept) {
        Some(i) => GraphView {
            nodes: g.nodes.update(i, NodeView { confidence_bits: bits, ..g.nodes[i] }),
            ..g
        },
        None => g,
    }
}

/// `v` points to `w`.
pub open spec fn linked(adj: Map<Seq<char>, Set<Seq<char>>>, v: Seq<char>, w: Seq<char>) -> bool {
    adj.dom().contains(v) && adj[v].contains(w)
}

/// `w` can be reached from `start` by following links (in no steps when `w`
/// is `start`).
pub open spec fn reaches(adj: Map<Seq<char>, Set<Seq<char>>>, start: Seq<char>, w: Seq<char>) -> bool {
    exists|p: Seq<Seq<char>>|
        p.len() >= 1 && p[0] == start && p.last() == w && (forall|i: int|
            0 <= i < p.len() - 1 ==> #[trigger] linked(adj, p[i], p[i + 1]))
}

// ---------------------------------------------------------------------------
// Adjacency storage
// ---------------------------------------------------------------------------

/// Some entry is for `k`.
pub open spec fn has_key(adj: Seq<(Seq<char>, Seq<Seq<char>>)>, k: Seq<char>) -> bool {
    exists|i: int| 0 <= i < adj.len() && (#[trigger] adj[i]).0 == k
}

/// The map that an adjacency list stands for.
pub open spec fn adj_map(adj: Seq<(Seq<char>, Seq<Seq<char>>)>) -> Map<Seq<char>, Set<Seq<char>>> {
    Map::new(|k: Seq<char>| has_key(adj, k), |k: Seq<char>| neighbor_list(adj, k).to_set())
}

/// Entries have distinct keys and lists without repeats.
pub open spec fn adj_stored_ok(adj: Seq<(Seq<char>, Seq<Seq<char>>)>) -> bool {
    &&& forall|i: int, j: int| 0 <= i < j < adj.len() ==> (#[trigger] adj[i]).0 != (#[trigger] adj[j]).0
    &&& forall|i: int| 0 <= i < adj.len() ==> (#[trigger] adj[i]).1.no_duplicates()
}

/// With distinct keys, the list for the key of entry `i` is entry `i`'s list.
proof fn lemma_neighbor_list_at(adj: Seq<(Seq<char>, Seq<Seq<char>>)>, i: int)
    requires
        adj_stored_ok(adj),
        0 <= i < adj.len(),
    ensures
        neighbor_list(adj, adj[i].0) == adj[i].1,
    decreases adj.len(),
{
    if i > 0 {
        assert(adj[0].0 != adj[i].0);
        let t = adj.drop_first();
        assert(adj_stored_ok(t)) by {
            assert forall|a: int, b: int| 0 <= a < b < t.len() implies (#[trigger] t[a]).0 != (#[trigger] t[b]).0 by {
                assert(t[a] == adj[a + 1] && t[b] == adj[b + 1]);
            }
            assert forall|a: int| 0 <= a < t.len() implies (#[trigger] t[a]).1.no_duplicates() by {
                assert(t[a] == adj[a + 1]);
            }
        }
        assert(t[i - 1] == adj[i]);
        lemma_neighbor_list_at(t, i - 1);
    }
}

/// A key with no entry has no neighbours.
proof fn lemma_neighbor_list_absent(adj: Seq<(Seq<char>, Seq<Seq<char>>)>, k: Seq<char>)
    requires
        !has_key(adj, k),
    ensures
        neighbor_list(adj, k) == Seq::<Seq<char>>::empty(),
    decreases adj.len(),
{
    if adj.len() > 0 {
        assert(adj[0].0 != k);
        assert(!has_key(adj.drop_first(), k)) by {
            if has_key(adj.drop_first(), k) {
                let j = choose|j: int| 0 <= j < adj.drop_first().len() && (#[trigger] adj.drop_first()[j]).0 == k;
                assert(adj[j + 1].0 == k);
            }
        }
        lemma_neighbor_list_absent(adj.drop_first(), k);
    }
}

/// Appending an entry for a new key adds that key to the map.
proof fn lemma_adj_push(adj: Seq<(Seq<char>, Seq<Seq<char>>)>, k: Seq<char>)
    requires
        adj_stored_ok(adj),
        !has_key(adj, k),
    ensures
        adj_stored_ok(adj.push((k, Seq::empty()))),
        adj_map(adj.push((k, Seq::empty()))) == adj_map(adj).insert(k, Set::empty()),
{
    let a2 = adj.push((k, Seq::<Seq<char>>::empty()));
    assert(adj_stored_ok(a2)) by {
        assert forall|i: int, j: int| 0 <= i < j < a2.len() implies (#[trigger] a2[i]).0 != (#[trigger] a2[j]).0 by {
            if j == adj.len() {
                assert(a2[i] == adj[i]);
            } else {
                assert(a2[i] == adj[i] && a2[j] == adj[j]);
            }
        }
        assert forall|i: int| 0 <= i < a2.len() implies (#[trigger] a2[i]).1.no_duplicates() by {
            if i < adj.len() {
                assert(a2[i] == adj[i]);
            }
        }
    }
    assert forall|x: Seq<char>| has_key(a2, x) <==> (has_key(adj, x) || x == k) by {
        if has_key(a2, x) && x != k {
            let j = choose|j: int| 0 <= j < a2.len() && (#[trigger] a2[j]).0 == x;
            assert(a2[j] == adj[j]);
        }
        if has_key(adj, x) {
            let j = choose|j: int| 0 <= j < adj.len() && (#[trigger] adj[j]).0 == x;
            assert(a2[j] == adj[j]);
        }
        if x == k {
            assert(a2[adj.len() as int].0 == k);
        }
    }
    assert forall|x: Seq<char>| has_key(a2, x) implies neighbor_list(a2, x).to_set() == (if x == k {
        Set::<Seq<char>>::empty()
    } else {
        neighbor_list(adj, x).to_set()
    }) by {
        let j = choose|j: int| 0 <= j < a2.len() && (#[trigger] a2[j]).0 == x;
        lemma_neighbor_list_at(a2, j);
        if x == k {
            assert(j == adj.len());
            assert(Seq::<Seq<char>>::empty().to_set() =~= Set::<Seq<char>>::empty());
        } else {
            assert(a2[j] == adj[j]);
            lemma_neighbor_list_at(adj, j);
        }
    }
    assert(adj_map(a2) =~= adj_map(adj).insert(k, Set::empty()));
}

/// Replacing the list of entry `i` changes only that key's targets.
proof fn lemma_adj_update(adj: Seq<(Seq<char>, Seq<Seq<char>>)>, i: int, l: Seq<Seq<char>>)
    requires
        adj_stored_ok(adj),
        0 <= i < adj.len(),
        l.no_duplicates(),
    ensures
        adj_stored_ok(adj.update(i, (adj[i].0, l))),
        adj_map(adj.update(i, (adj[i].0, l))) == adj_map(adj).insert(adj[i].0, l.to_set()),
{
    let k = adj[i].0;
    let a2 = adj.update(i, (k, l));
    assert(adj_stored_ok(a2)) by {
        assert forall|a: int, b: int| 0 <= a < b < a2.len() implies (#[trigger] a2[a]).0 != (#[trigger] a2[b]).0 by {
            assert(a2[a].0 == adj[a].0 && a2[b].0 == adj[b].0);
        }
        assert forall|a: int| 0 <= a < a2.len() implies (#[trigger] a2[a]).1.no_duplicates() by {
            if a != i {
                assert(a2[a] == adj[a]);
            }
        }
    }
    assert forall|x: Seq<char>| has_key(a2, x) <==> has_key(adj, x) by {
        if has_key(a2, x) {
            let j = choose|j: int| 0 <= j < a2.len() && (#[trigger] a2[j]).0 == x;
            assert(adj[j].0 == x);
        }
        if has_key(adj, x) {
            let j = choose|j: int| 0 <= j < adj.len() && (#[trigger] adj[j]).0 == x;
            assert(a2[j].0 == x);
        }
    }
    assert forall|x: Seq<char>| has_key(a2, x) implies neighbor_list(a2, x).to_set() == (if x == k {
        l.to_set()
    } else {
        neighbor_list(adj, x).to_set()
    }) by {
        let j = choose|j: int| 0 <= j < a2.len() && (#[trigger] a2[j]).0 == x;
        lemma_neighbor_list_at(a2, j);
        lemma_neighbor_list_at(adj, j);
        if x != k {
            assert(j != i);
            assert(a2[j] == adj[j]);
        } else {
            assert(j == i);
        }
    }
    assert(adj_map(a2) =~= adj_map(adj).insert(k, l.to_set()));
}

/// Walks along a stored adjacency list are the walks along its map.
proof fn lemma_reachable_map(adj: Seq<(Seq<char>, Seq<Seq<char>>)>, start: Seq<char>, w: Seq<char>)
    requires
        adj_stored_ok(adj),
    ensures
        reachable(adj, start, w) == reaches(adj_map(adj), start, w),
{
    assert forall|v: Seq<char>, x: Seq<char>| #[trigger] linked(adj_map(adj), v, x) <==> neighbor_list(adj, v).contains(x) by {
        if has_key(adj, v) {
            let j = choose|j: int| 0 <= j < adj.len() && (#[trigger] adj[j]).0 == v;
            lemma_neighbor_list_at(adj, j);
        } else {
            lemma_neighbor_list_absent(adj, v);
        }
    }
    if reachable(adj, start, w) {
        let p = choose|p: Seq<Seq<char>>| #[trigger] is_walk(adj, p) && p[0] == start && p.last() == w;
        assert forall|i: int| 0 <= i < p.len() - 1 implies #[trigger] linked(adj_map(adj), p[i], p[i + 1]) by {
            assert(neighbor_list(adj, p[i]).contains(p[i + 1]));
        }
    }
    if reaches(adj_map(adj), start, w) {
        let p = choose|p: Seq<Seq<char>>|
            p.len() >= 1 && p[0] == start && p.last() == w && (forall|i: int|
                0 <= i < p.len() - 1 ==> #[trigger] linked(adj_map(adj), p[i], p[i + 1]));
        assert forall|i: int| 0 <= i < p.len() - 1 implies neighbor_list(adj, #[trigger] p[i]).contains(p[i + 1]) by {
            assert(linked(adj_map(adj), p[i], p[i + 1]));
        }
        assert(is_walk(adj, p));
    }
}

/// `w` can be reached from `start` by following at most `k` links.
pub open spec fn reaches_within(adj: Map<Seq<char>, Set<Seq<char>>>, start: Seq<char>, w: Seq<char>, k: int) -> bool {
    exists|p: Seq<Seq<char>>|
        p.len() >= 1 && p.len() <= k + 1 && p[0] == start && p.last() == w && (forall|i: int|
            0 <= i < p.len() - 1 ==> #[trigger] linked(adj, p[i], p[i + 1]))
}

/// Bounded walks along a stored adjacency list are those along its map.
proof fn lemma_within_map(adj: Seq<(Seq<char>, Seq<Seq<char>>)>, start: Seq<char>, w: Seq<char>, k: int)
    requires
        adj_stored_ok(adj),
    ensures
        within(adj, start, w, k) == reaches_within(adj_map(adj), start, w, k),
{
    assert forall|v: Seq<char>, x: Seq<char>| #[trigger] linked(adj_map(adj), v, x) <==> neighbor_list(adj, v).contains(x) by {
        if has_key(adj, v) {
            let j = choose|j: int| 0 <= j < adj.len() && (#[trigger] adj[j]).0 == v;
            lemma_neighbor_list_at(adj, j);
        } else {
            lemma_neighbor_list_absent(adj, v);
        }
    }
    if within(adj, start, w, k) {
        let p = choose|p: Seq<Seq<char>>| #[trigger] is_walk(adj, p) && p[0] == start && p.last() == w && p.len() <= k + 1;
        assert forall|i: int| 0 <= i < p.len() - 1 implies #[trigger] linked(adj_map(adj), p[i], p[i + 1]) by {
            assert(neighbor_list(adj, p[i]).contains(p[i + 1]));
        }
    }
    if reaches_within(adj_map(adj), start, w, k) {
        let p = choose|p: Seq<Seq<char>>|
            p.len() >= 1 && p.len() <= k + 1 && p[0] == start && p.last() == w && (forall|i: int|
                0 <= i < p.len() - 1 ==> #[trigger] linked(adj_map(adj), p[i], p[i + 1]));
        assert forall|i: int| 0 <= i < p.len() - 1 implies neighbor_list(adj, #[trigger] p[i]).contains(p[i + 1]) by {
            assert(linked(adj_map(adj), p[i], p[i + 1]));
        }
        assert(is_walk(adj, p));
    }
}

/// The position of the entry for `k`.
fn entry_position(adj: &Vec<AdjEntry>, k: &str) -> (r: Option<usize>)
    ensures
        r matches Some(i) ==> i < adj@.len() && adj_view(adj@)[i as int].0 == k@,
        r is None ==> !has_key(adj_view(adj@), k@),
{
    match find_entry(adj, k) {
        Some(i) => Some(i),
        None => {
            proof {
                let av = adj_view(adj@);
                if has_key(av, k@) {
                    let j = choose|j: int| 0 <= j < av.len() && (#[trigger] av[j]).0 == k@;
                    assert(adj@[j].concept@ == k@);
                }
            }
            None
        },
    }
}

/// Makes `k` a known concept.
fn ensure_key(adj: &mut Vec<AdjEntry>, k: &str)
    requires
        adj_stored_ok(adj_view(old(adj)@)),
    ensures
        adj_stored_ok(adj_view(final(adj)@)),
        adj_map(adj_view(final(adj)@)) == with_key(adj_map(adj_view(old(adj)@)), k@),
{
    match entry_position(adj, k) {
        Some(i) => {
            assert(adj_map(adj_view(adj@)).dom().contains(k@)) by {
                assert(adj_view(adj@)[i as int].0 == k@);
            }
        },
        None => {
            let ghost before = adj_view(adj@);
            proof {
                lemma_adj_push(before, k@);
            }
            let e = AdjEntry { concept: k.to_owned(), neighbors: Vec::new() };
            assert(texts(e.neighbors@) =~= Seq::<Seq<char>>::empty());
            adj.push(e);
            assert(adj_view(adj@) =~= before.push((k@, Seq::<Seq<char>>::empty())));
            assert(!adj_map(before).dom().contains(k@));
        },
    }
}

/// Makes `s` point to `t`, both becoming known concepts.
fn link(adj: &mut Vec<AdjEntry>, s: &str, t: &str)
    requires
        adj_stored_ok(adj_view(old(adj)@)),
    ensures
        adj_stored_ok(adj_view(final(adj)@)),
        adj_map(adj_view(final(adj)@)) == ({
            let m = adj_map(adj_view(old(adj)@));
            let old_targets = if m.dom().contains(s@) {
                m[s@]
            } else {
                Set::empty()
            };
            with_key(m.insert(s@, old_targets.insert(t@)), t@)
        }),
{
    let ghost m0 = adj_map(adj_view(adj@));
    ensure_key(adj, s);
    let ghost m1 = adj_map(adj_view(adj@));
    let i = match entry_position(adj, s) {
        Some(i) => i,
        None => {
            assert(m1.dom().contains(s@));
            assert(false);
            0
        },
    };
    let ghost before = adj_view(adj@);
    proof {
        lemma_neighbor_list_at(before, i as int);
    }
    let ghost old_targets = if m0.dom().contains(s@) {
        m0[s@]
    } else {
        Set::<Seq<char>>::empty()
    };
    assert(m1[s@] == old_targets);
    let mut entry = adj.remove(i);
    assert(texts(entry.neighbors@) == before[i as int].1);
    let present = crate::memory::graph_search::contains_text(&entry.neighbors, t);
    if !present {
        let ghost l0 = texts(entry.neighbors@);
        entry.neighbors.push(t.to_owned());
        assert(texts(entry.neighbors@) =~= l0.push(t@));
        proof {
            l0.lemma_push_to_set_commute(t@);
            assert(l0.push(t@).no_duplicates());
        }
    } else {
        assert(texts(entry.neighbors@).to_set() =~= texts(entry.neighbors@).to_set().insert(t@));
    }
    let ghost l = texts(entry.neighbors@);
    adj.insert(i, entry);
    assert(adj_view(adj@) =~= before.update(i as int, (s@, l)));
    proof {
        lemma_adj_update(before, i as int, l);
        assert(l.to_set() =~= old_targets.insert(t@));
    }
    ensure_key(adj, t);
}

// ---------------------------------------------------------------------------
// Laws of the graph transitions
// ---------------------------------------------------------------------------

/// `find_id` finds a node with that id, and none before it.
proof fn lemma_find_id(nodes: Seq<NodeView>, id: Seq<char>)
    ensures
        find_id(nodes, id) matches Some(i) ==> 0 <= i < nodes.len() && nodes[i].id == id,
        find_id(nodes, id) is None ==> forall|j: int| 0 <= j < nodes.len() ==> nodes[j].id != id,
    decreases nodes.len(),
{
    if nodes.len() > 0 {
        lemma_find_id(nodes.drop_last(), id);
        assert forall|j: int| 0 <= j < nodes.len() - 1 implies nodes[j] == nodes.drop_last()[j] by {}
    }
}

/// `find_concept` finds the first node with that concept.
proof fn lemma_find_concept(nodes: Seq<NodeView>, concept: Seq<char>)
    ensures
        find_concept(nodes, concept) matches Some(i) ==> 0 <= i < nodes.len() && nodes[i].concept
            == concept && forall|j: int| 0 <= j < i ==> nodes[j].concept != concept,
        find_concept(nodes, concept) is None ==> forall|j: int|
            0 <= j < nodes.len() ==> nodes[j].concept != concept,
    decreases nodes.len(),
{
    if nodes.len() > 0 {
        lemma_find_concept(nodes.drop_last(), concept);
        assert forall|j: int| 0 <= j < nodes.len() - 1 implies nodes[j] == nodes.drop_last()[j] by {}
    }
}

/// Relations after appending one.
proof fn lemma_has_relation_push(rels: Seq<RelView>, r: RelView, k: Seq<char>, w: Seq<char>)
    ensures
        has_relation(rels.push(r), k, w) <==> (has_relation(rels, k, w) || (r.source == k
            && r.target == w)),
{
    let r2 = rels.push(r);
    if has_relation(rels, k, w) {
        let i = choose|i: int| 0 <= i < rels.len() && (#[trigger] rels[i]).source == k && rels[i].target == w;
        assert(r2[i] == rels[i]);
    }
    if r.source == k && r.target == w {
        assert(r2[rels.len() as int] == r);
    }
    if has_relation(r2, k, w) {
        let i = choose|i: int| 0 <= i < r2.len() && (#[trigger] r2[i]).source == k && r2[i].target == w;
        if i < rels.len() {
            assert(r2[i] == rels[i]);
        }
    }
}

/// Storing a node keeps a graph well formed.
pub proof fn law_node_step_ok(g: GraphView, n: NodeView)
    requires
        graph_ok(g),
    ensures
        graph_ok(node_step(g, n)),
{
    let g2 = node_step(g, n);
    lemma_find_id(g.nodes, n.id);
    assert forall|k: Seq<char>, w: Seq<char>| #[trigger] g2.adj.dom().contains(k) implies (
    #[trigger] g2.adj[k].contains(w) <==> has_relation(g2.relations, k, w)) by {
        if !g.adj.dom().contains(k) {
            assert(k == n.concept);
            if has_relation(g.relations, k, w) {
                let i = choose|i: int|
                    0 <= i < g.relations.len() && (#[trigger] g.relations[i]).source == k
                        && g.relations[i].target == w;
            }
        }
    }
    assert forall|i: int| 0 <= i < g2.nodes.len() implies g2.adj.dom().contains(#[trigger] g2.nodes[i].concept) by {
        match find_id(g.nodes, n.id) {
            Some(j) => {
                if i != j {
                    assert(g2.nodes[i] == g.nodes[i]);
                }
            },
            None => {
                if i < g.nodes.len() {
                    assert(g2.nodes[i] == g.nodes[i]);
                }
            },
        }
    }
    assert forall|i: int, j: int| 0 <= i < j < g2.nodes.len() implies (#[trigger] g2.nodes[i]).id != (#[trigger] g2.nodes[j]).id by {
        match find_id(g.nodes, n.id) {
            Some(x) => {
                if i != x {
                    assert(g2.nodes[i] == g.nodes[i]);
                }
                if j != x {
                    assert(g2.nodes[j] == g.nodes[j]);
                }
            },
            None => {
                assert(g2.nodes[i] == g.nodes[i]);
                if j < g.nodes.len() {
                    assert(g2.nodes[j] == g.nodes[j]);
                }
            },
        }
    }
}

/// Adding a relation keeps a graph well formed.
pub proof fn law_relation_step_ok(g: GraphView, r: RelView)
    requires
        graph_ok(g),
    ensures
        graph_ok(relation_step(g, r)),
{
    let g2 = relation_step(g, r);
    assert forall|k: Seq<char>, w: Seq<char>| #[trigger] g2.adj.dom().contains(k) implies (
    #[trigger] g2.adj[k].contains(w) <==> has_relation(g2.relations, k, w)) by {
        lemma_has_relation_push(g.relations, r, k, w);
        if k == r.source {
            if !g.adj.dom().contains(k) && has_relation(g.relations, k, w) {
                let i = choose|i: int|
                    0 <= i < g.relations.len() && (#[trigger] g.relations[i]).source == k
                        && g.relations[i].target == w;
            }
        } else if !g.adj.dom().contains(k) {
            assert(k == r.target);
            if has_relation(g.relations, k, w) {
                let i = choose|i: int|
                    0 <= i < g.relations.len() && (#[trigger] g.relations[i]).source == k
                        && g.relations[i].target == w;
            }
        }
    }
    assert forall|i: int| 0 <= i < g2.relations.len() implies g2.adj.dom().contains((#[trigger] g2.relations[i]).source)
        && g2.adj.dom().contains(g2.relations[i].target) by {
        if i < g.relations.len() {
            assert(g2.relations[i] == g.relations[i]);
        }
    }
}

/// Changing a confidence keeps a graph well formed.
pub proof fn law_confidence_step_ok(g: GraphView, concept: Seq<char>, bits: u32)
    requires
        graph_ok(g),
    ensures
        graph_ok(confidence_step(g, concept, bits)),
{
    lemma_find_concept(g.nodes, concept);
    let g2 = confidence_step(g, concept, bits);
    assert forall|i: int| 0 <= i < g2.nodes.len() implies g2.adj.dom().contains(#[trigger] g2.nodes[i].concept) by {
        assert(g2.nodes[i].concept == g.nodes[i].concept);
    }
    assert forall|i: int, j: int| 0 <= i < j < g2.nodes.len() implies (#[trigger] g2.nodes[i]).id != (#[trigger] g2.nodes[j]).id by {
        assert(g2.nodes[i].id == g.nodes[i].id && g2.nodes[j].id == g.nodes[j].id);
    }
}

/// In a well-formed graph, a concept points to exactly the targets of the
/// relations from it.
pub proof fn law_links_are_relations(g: GraphView, k: Seq<char>, w: Seq<char>)
    requires
        graph_ok(g),
    ensures
        linked(g.adj, k, w) <==> has_relation(g.relations, k, w),
{
    if has_relation(g.relations, k, w) {
        let i = choose|i: int|
            0 <= i < g.relations.len() && (#[trigger] g.relations[i]).source == k && g.relations[i].target == w;
    }
}

/// After a relation is added, its source points to its target.
pub proof fn law_relation_links_source_to_target(g: GraphView, r: RelView)
    requires
        graph_ok(g),
    ensures
        linked(relation_step(g, r).adj, r.source, r.target),
{
    law_relation_step_ok(g, r);
    lemma_has_relation_push(g.relations, r, r.source, r.target);
    law_links_are_relations(relation_step(g, r), r.source, r.target);
}

/// After a node is stored, a node with its concept is found.
pub proof fn law_stored_node_is_found(g: GraphView, n: NodeView)
    ensures
        find_concept(node_step(g, n).nodes, n.concept) is Some,
{
    let g2 = node_step(g, n);
    lemma_find_id(g.nodes, n.id);
    let i = match find_id(g.nodes, n.id) {
        Some(i) => i,
        None => g.nodes.len() as int,
    };
    assert(g2.nodes[i] == n);
    lemma_find_concept(g2.nodes, n.concept);
}

/// Nodes stored one after another, starting from `g`.
pub open spec fn store_nodes(g: GraphView, ns: Seq<NodeView>) -> GraphView
    decreases ns.len(),
{
    if ns.len() == 0 {
        g
    } else {
        node_step(store_nodes(g, ns.drop_last()), ns.last())
    }
}

/// Relations added one after another, starting from `g`.
pub open spec fn add_relations(g: GraphView, rs: Seq<RelView>) -> GraphView
    decreases rs.len(),
{
    if rs.len() == 0 {
        g
    } else {
        relation_step(add_relations(g, rs.drop_last()), rs.last())
    }
}

/// The graph rebuilt from a list of nodes and a list of relations.
pub open spec fn rebuilt(ns: Seq<NodeView>, rs: Seq<RelView>) -> GraphView {
    add_relations(store_nodes(empty_graph(), ns), rs)
}

/// Storing nodes keeps a graph well formed and leaves its relations alone.
proof fn lemma_store_nodes(g: GraphView, ns: Seq<NodeView>)
    requires
        graph_ok(g),
    ensures
        graph_ok(store_nodes(g, ns)),
        store_nodes(g, ns).relations == g.relations,
    decreases ns.len(),
{
    if ns.len() > 0 {
        lemma_store_nodes(g, ns.drop_last());
        law_node_step_ok(store_nodes(g, ns.drop_last()), ns.last());
    }
}

/// Adding relations keeps a graph well formed, appends them, and leaves the
/// nodes alone.
proof fn lemma_add_relations(g: GraphView, rs: Seq<RelView>)
    requires
        graph_ok(g),
    ensures
        graph_ok(add_relations(g, rs)),
        add_relations(g, rs).relations == g.relations + rs,
        add_relations(g, rs).nodes == g.nodes,
    decreases rs.len(),
{
    if rs.len() > 0 {
        lemma_add_relations(g, rs.drop_last());
        law_relation_step_ok(add_relations(g, rs.drop_last()), rs.last());
        assert(g.relations + rs =~= (g.relations + rs.drop_last()).push(rs.last()));
    }
}

/// Storing nodes with distinct ids into an empty graph keeps them all, in order.
proof fn lemma_store_distinct_nodes(ns: Seq<NodeView>)
    requires
        forall|i: int, j: int| 0 <= i < j < ns.len() ==> (#[trigger] ns[i]).id != (#[trigger] ns[j]).id,
    ensures
        store_nodes(empty_graph(), ns).nodes == ns,
    decreases ns.len(),
{
    if ns.len() > 0 {
        let prev = ns.drop_last();
        lemma_store_distinct_nodes(prev);
        lemma_find_id(prev, ns.last().id);
        if find_id(prev, ns.last().id) is Some {
            let i = find_id(prev, ns.last().id)->0;
            assert(prev[i] == ns[i]);
            assert(ns[i].id != ns[ns.len() - 1].id);
        }
        assert(prev.push(ns.last()) =~= ns);
    }
}

/// Rebuilding a well-formed graph from its node list and relation list (as
/// saving to JSON and loading does) gives the same nodes, the same relations
/// and the same links.
pub proof fn law_rebuild_round_trip(g: GraphView, k: Seq<char>, w: Seq<char>)
    requires
        graph_ok(g),
    ensures
        rebuilt(g.nodes, g.relations).nodes == g.nodes,
        rebuilt(g.nodes, g.relations).relations == g.relations,
        graph_ok(rebuilt(g.nodes, g.relations)),
        linked(rebuilt(g.nodes, g.relations).adj, k, w) == linked(g.adj, k, w),
{
    let e = empty_graph();
    assert(graph_ok(e));
    lemma_store_nodes(e, g.nodes);
    lemma_store_distinct_nodes(g.nodes);
    let g1 = store_nodes(e, g.nodes);
    lemma_add_relations(g1, g.relations);
    assert(g1.relations + g.relations =~= g.relations);
    law_links_are_relations(g, k, w);
    law_links_are_relations(rebuilt(g.nodes, g.relations), k, w);
}

// ---------------------------------------------------------------------------
// The graph
// ---------------------------------------------------------------------------

/// The storage of a belief graph: nodes, relations, and each concept's
/// outgoing links.
struct GraphStore {
    nodes: Vec<BeliefNode>,
    relations: Vec<BeliefRelation>,
    adjacency: Vec<AdjEntry>,
}

impl View for GraphStore {
    type V = GraphView;

    closed spec fn view(&self) -> GraphView {
        GraphView {
            nodes: node_views(self.nodes@),
            relations: rel_views(self.relations@),
            adj: adj_map(adj_view(self.adjacency@)),
        }
    }
}

/// The beliefs that a search returns: for each relation whose source, target
/// or type holds the query (in lowercase), a belief from source through type
/// to target, held at the level of the source's first node (Medium when the
/// source has no node).
pub open spec fn search_spec(g: GraphView, q: Seq<char>) -> Seq<(Seq<char>, Seq<char>, Seq<char>, Confidence)>
    decreases g.relations.len(),
{
    if g.relations.len() == 0 {
        Seq::empty()
    } else {
        let prev = search_spec(GraphView { relations: g.relations.drop_last(), ..g }, q);
        let r = g.relations.last();
        let ql = lowercase_of(q);
        if has_substring(lowercase_of(r.source), ql) || has_substring(lowercase_of(r.target), ql)
            || has_substring(lowercase_of(r.relation_type), ql) {
            let level = match find_concept(g.nodes, r.source) {
                Some(i) => level_of(g.nodes[i].confidence_bits),
                None => Confidence::Medium,
            };
            prev.push((r.source, r.relation_type, r.target, level))
        } else {
            prev
        }
    }
}

/// The nodes whose concept holds the query, compared in lowercase, in order.
pub open spec fn query_spec(nodes: Seq<NodeView>, q: Seq<char>) -> Seq<NodeView>
    decreases nodes.len(),
{
    if nodes.len() == 0 {
        Seq::empty()
    } else {
        let prev = query_spec(nodes.drop_last(), q);
        if has_substring(lowercase_of(nodes.last().concept), lowercase_of(q)) {
            prev.push(nodes.last())
        } else {
            prev
        }
    }
}

/// The parts of a belief as mathematical values.
pub open spec fn belief_parts(b: Belief) -> (Seq<char>, Seq<char>, Seq<char>, Confidence) {
    (b.subject@, b.predicate@, b.object@, b.confidence)
}

/// The graph after a belief is added. Its subject's node is created (with the
/// belief's score as confidence) or, when present, its first node gets that
/// confidence; its object's node is created when missing; then a relation
/// from subject to object, typed by the predicate and weighted by the score,
/// is added. The ids and creation times are those that were drawn.
pub open spec fn belief_step(
    g: GraphView,
    b: (Seq<char>, Seq<char>, Seq<char>, Confidence),
    subject_node: (Seq<char>, Seq<char>),
    object_node: (Seq<char>, Seq<char>),
    relation_id: Seq<char>,
) -> GraphView {
    let (subject, predicate, object, confidence) = b;
    let s = confidence.score_bits_spec();
    let g1 = if find_concept(g.nodes, subject) is None {
        node_step(
            g,
            NodeView {
                id: subject_node.0,
                concept: subject,
                confidence_bits: s,
                created_at: subject_node.1,
            },
        )
    } else {
        confidence_step(g, subject, s)
    };
    let g2 = if find_concept(g1.nodes, object) is None {
        node_step(
            g1,
            NodeView { id: object_node.0, concept: object, confidence_bits: s, created_at: object_node.1 },
        )
    } else {
        g1
    };
    relation_step(
        g2,
        RelView { id: relation_id, source: subject, target: object, relation_type: predicate, weight_bits: s },
    )
}


/// Changing a node but not its concept leaves where each concept is first
/// found as it was.
proof fn lemma_find_concept_update(nodes: Seq<NodeView>, i: int, n: NodeView, c: Seq<char>)
    requires
        0 <= i < nodes.len(),
        n.concept == nodes[i].concept,
    ensures
        find_concept(nodes.update(i, n), c) == find_concept(nodes, c),
    decreases nodes.len(),
{
    let u = nodes.update(i, n);
    if i < nodes.len() - 1 {
        assert(u.drop_last() =~= nodes.drop_last().update(i, n));
        lemma_find_concept_update(nodes.drop_last(), i, n, c);
    } else {
        assert(u.drop_last() =~= nodes.drop_last());
    }
}

/// Changing a node but not its id leaves where each id is found as it was.
proof fn lemma_find_id_update(nodes: Seq<NodeView>, i: int, n: NodeView, id: Seq<char>)
    requires
        0 <= i < nodes.len(),
        n.id == nodes[i].id,
    ensures
        find_id(nodes.update(i, n), id) == find_id(nodes, id),
    decreases nodes.len(),
{
    let u = nodes.update(i, n);
    if i < nodes.len() - 1 {
        assert(u.drop_last() =~= nodes.drop_last().update(i, n));
        lemma_find_id_update(nodes.drop_last(), i, n, id);
    } else {
        assert(u.drop_last() =~= nodes.drop_last());
    }
}

/// A text holds itself.
proof fn lemma_has_substring_self(x: Seq<char>)
    ensures
        has_substring(x, x),
{
    assert(x.subrange(0, x.len() as int) =~= x);
}

/// A level's score reads back as that level.
proof fn lemma_level_of_score(c: Confidence)
    ensures
        level_of(c.score_bits_spec()) == c,
{
    assert(f32_at_least(0x3F66_6666u32, 0x3F66_6666u32)) by (bit_vector);
    assert(!f32_at_least(0x3F19_999Au32, 0x3F66_6666u32)) by (bit_vector);
    assert(f32_at_least(0x3F19_999Au32, 0x3F19_999Au32)) by (bit_vector);
    assert(!f32_at_least(0x3E99_999Au32, 0x3F66_6666u32)) by (bit_vector);
    assert(!f32_at_least(0x3E99_999Au32, 0x3F19_999Au32)) by (bit_vector);
}

/// A belief just added is found by searching for its subject, for its
/// predicate or for its object, with the subject, predicate, object and
/// confidence it was added with (when the ids drawn for new nodes are new).
pub proof fn law_added_belief_is_found(
    g: GraphView,
    b: (Seq<char>, Seq<char>, Seq<char>, Confidence),
    subject_node: (Seq<char>, Seq<char>),
    object_node: (Seq<char>, Seq<char>),
    relation_id: Seq<char>,
)
    requires
        find_id(g.nodes, subject_node.0) is None,
        find_id(g.nodes, object_node.0) is None,
        subject_node.0 != object_node.0,
    ensures
        ({
            let found = search_spec(belief_step(g, b, subject_node, object_node, relation_id), b.0);
            found.len() > 0 && found.last() == b
        }),
        ({
            let found = search_spec(belief_step(g, b, subject_node, object_node, relation_id), b.1);
            found.len() > 0 && found.last() == b
        }),
        ({
            let found = search_spec(belief_step(g, b, subject_node, object_node, relation_id), b.2);
            found.len() > 0 && found.last() == b
        }),
{
    let (subject, predicate, object, confidence) = b;
    let sc = confidence.score_bits_spec();
    let sn = NodeView {
        id: subject_node.0,
        concept: subject,
        confidence_bits: sc,
        created_at: subject_node.1,
    };
    let on = NodeView { id: object_node.0, concept: object, confidence_bits: sc, created_at: object_node.1 };
    let g1 = if find_concept(g.nodes, subject) is None {
        node_step(g, sn)
    } else {
        confidence_step(g, subject, sc)
    };
    let k: int;
    if find_concept(g.nodes, subject) is None {
        assert(g1.nodes == g.nodes.push(sn));
        assert(g1.nodes.drop_last() =~= g.nodes);
        k = g.nodes.len() as int;
        assert(find_concept(g1.nodes, subject) == Some(k));
        assert(find_id(g1.nodes, object_node.0) is None);
    } else {
        let i = find_concept(g.nodes, subject)->0;
        lemma_find_concept(g.nodes, subject);
        let n2 = NodeView { confidence_bits: sc, ..g.nodes[i] };
        assert(g1.nodes == g.nodes.update(i, n2));
        lemma_find_concept_update(g.nodes, i, n2, subject);
        lemma_find_id_update(g.nodes, i, n2, object_node.0);
        k = i;
    }
    assert(find_concept(g1.nodes, subject) == Some(k) && g1.nodes[k].confidence_bits == sc);
    let g2 = if find_concept(g1.nodes, object) is None {
        node_step(g1, on)
    } else {
        g1
    };
    if find_concept(g1.nodes, object) is None {
        assert(g2.nodes == g1.nodes.push(on));
        assert(g2.nodes.drop_last() =~= g1.nodes);
    }
    assert(find_concept(g2.nodes, subject) == Some(k) && g2.nodes[k].confidence_bits == sc);
    let r = RelView { id: relation_id, source: subject, target: object, relation_type: predicate, weight_bits: sc };
    let g3 = relation_step(g2, r);
    assert(g3 == belief_step(g, b, subject_node, object_node, relation_id));
    assert(g3.relations.last() == r);
    lemma_has_substring_self(lowercase_of(subject));
    lemma_has_substring_self(lowercase_of(predicate));
    lemma_has_substring_self(lowercase_of(object));
    lemma_level_of_score(confidence);
}

/// The relation matches a search query: its source, target or type holds
/// the query, both compared in lowercase.
pub open spec fn relation_matches(r: RelView, q: Seq<char>) -> bool {
    let ql = lowercase_of(q);
    has_substring(lowercase_of(r.source), ql) || has_substring(lowercase_of(r.target), ql)
        || has_substring(lowercase_of(r.relation_type), ql)
}

/// The belief carries the relation's source, type and target.
pub open spec fn carries(b: (Seq<char>, Seq<char>, Seq<char>, Confidence), r: RelView) -> bool {
    b.0 == r.source && b.1 == r.relation_type && b.2 == r.target
}

/// The belief carries a relation of the graph that matches the query.
pub open spec fn carries_a_match(g: GraphView, q: Seq<char>, b: (Seq<char>, Seq<char>, Seq<char>, Confidence)) -> bool {
    exists|j: int| 0 <= j < g.relations.len() && relation_matches(#[trigger] g.relations[j], q) && carries(b, g.relations[j])
}

/// A search finds exactly the matching relations: each relation whose
/// source, target or type holds the query (in any letter case) is carried
/// by a belief of the result, and each belief of the result carries such a
/// relation; a relation whose type is the query is found.
pub proof fn law_search_finds_matching_relations(g: GraphView, q: Seq<char>)
    ensures
        forall|j: int|
            0 <= j < g.relations.len() && relation_matches(#[trigger] g.relations[j], q) ==> exists|k: int|
                0 <= k < search_spec(g, q).len() && carries(#[trigger] search_spec(g, q)[k], g.relations[j]),
        forall|k: int|
            0 <= k < search_spec(g, q).len() ==> carries_a_match(g, q, #[trigger] search_spec(g, q)[k]),
        forall|j: int|
            0 <= j < g.relations.len() && #[trigger] g.relations[j].relation_type == q ==> relation_matches(
                g.relations[j],
                q,
            ),
    decreases g.relations.len(),
{
    lemma_has_substring_self(lowercase_of(q));
    if g.relations.len() == 0 {
        assert(search_spec(g, q).len() == 0);
    } else {
        let g0 = GraphView { relations: g.relations.drop_last(), ..g };
        law_search_finds_matching_relations(g0, q);
        let p = search_spec(g0, q);
        let res = search_spec(g, q);
        let last = g.relations.last();
        let n = g.relations.len() - 1;
        assert(last == g.relations[n]);
        assert(relation_matches(last, q) ==> res.len() == p.len() + 1 && carries(res[p.len() as int], last));
        assert(!relation_matches(last, q) ==> res == p);
        assert(forall|k: int| 0 <= k < p.len() ==> res[k] == p[k]);
        assert forall|j: int|
            0 <= j < g.relations.len() && relation_matches(#[trigger] g.relations[j], q) implies exists|k: int|
                0 <= k < res.len() && carries(#[trigger] res[k], g.relations[j]) by {
            if j == n {
                assert(carries(res[p.len() as int], g.relations[j]));
            } else {
                assert(g0.relations[j] == g.relations[j]);
                let k = choose|k: int| 0 <= k < p.len() && carries(#[trigger] p[k], g0.relations[j]);
                assert(carries(res[k], g.relations[j]));
            }
        }
        assert forall|k: int|
            0 <= k < search_spec(g, q).len() implies carries_a_match(g, q, #[trigger] search_spec(g, q)[k]) by {
            if k == p.len() {
                assert(relation_matches(g.relations[n], q) && carries(res[k], g.relations[n]));
            } else {
                assert(0 <= k < search_spec(g0, q).len());
                assert(carries_a_match(g0, q, search_spec(g0, q)[k]));
                let j = choose|j: int|
                    0 <= j < g0.relations.len() && relation_matches(#[trigger] g0.relations[j], q) && carries(
                        search_spec(g0, q)[k],
                        g0.relations[j],
                    );
                assert(g0.relations[j] == g.relations[j]);
                assert(relation_matches(g.relations[j], q) && carries(res[k], g.relations[j]));
            }
        }
    }
}

/// A search does not depend on the letter case of the query: two queries
/// that lowercase alike find the same beliefs.
pub proof fn law_search_ignores_letter_case(g: GraphView, q1: Seq<char>, q2: Seq<char>)
    requires
        lowercase_of(q1) == lowercase_of(q2),
    ensures
        search_spec(g, q1) == search_spec(g, q2),
    decreases g.relations.len(),
{
    if g.relations.len() > 0 {
        law_search_ignores_letter_case(GraphView { relations: g.relations.drop_last(), ..g }, q1, q2);
    }
}

/// A node query finds exactly the matching nodes: each node whose concept
/// holds the query (both compared in lowercase) is in the result, in
/// particular each node whose concept is the query, and each node of the
/// result is such a node of the graph.
pub proof fn law_query_finds_matching_nodes(nodes: Seq<NodeView>, q: Seq<char>)
    ensures
        forall|i: int|
            0 <= i < nodes.len() && has_substring(lowercase_of(#[trigger] nodes[i].concept), lowercase_of(q))
                ==> query_spec(nodes, q).contains(nodes[i]),
        forall|i: int| 0 <= i < nodes.len() && #[trigger] nodes[i].concept == q ==> query_spec(nodes, q).contains(
            nodes[i],
        ),
        forall|n: NodeView| #[trigger] query_spec(nodes, q).contains(n) ==> nodes.contains(n) && has_substring(
            lowercase_of(n.concept),
            lowercase_of(q),
        ),
    decreases nodes.len(),
{
    lemma_has_substring_self(lowercase_of(q));
    if nodes.len() > 0 {
        let pn = nodes.drop_last();
        law_query_finds_matching_nodes(pn, q);
        let p = query_spec(pn, q);
        let res = query_spec(nodes, q);
        let hit = has_substring(lowercase_of(nodes.last().concept), lowercase_of(q));
        assert(forall|k: int| 0 <= k < p.len() ==> res[k] == p[k]);
        assert forall|i: int|
            0 <= i < nodes.len() && has_substring(lowercase_of(#[trigger] nodes[i].concept), lowercase_of(q))
                implies res.contains(nodes[i]) by {
            if i == nodes.len() - 1 {
                assert(res[p.len() as int] == nodes[i]);
            } else {
                assert(pn[i] == nodes[i]);
                let k = choose|k: int| 0 <= k < p.len() && p[k] == nodes[i];
                assert(res[k] == nodes[i]);
            }
        }
        assert forall|n: NodeView| #[trigger] res.contains(n) implies nodes.contains(n) && has_substring(
            lowercase_of(n.concept),
            lowercase_of(q),
        ) by {
            let k = choose|k: int| 0 <= k < res.len() && res[k] == n;
            if hit && k == p.len() {
                assert(nodes[nodes.len() - 1] == n);
            } else {
                assert(p[k] == n);
                assert(p.contains(n));
                let j = choose|j: int| 0 <= j < pn.len() && pn[j] == n;
                assert(nodes[j] == n);
            }
        }
    }
}

/// A node query does not depend on the letter case of the query: two
/// queries that lowercase alike find the same nodes.
pub proof fn law_query_ignores_letter_case(nodes: Seq<NodeView>, q1: Seq<char>, q2: Seq<char>)
    requires
        lowercase_of(q1) == lowercase_of(q2),
    ensures
        query_spec(nodes, q1) == query_spec(nodes, q2),
    decreases nodes.len(),
{
    if nodes.len() > 0 {
        law_query_ignores_letter_case(nodes.drop_last(), q1, q2);
    }
}

impl GraphStore {
    /// The graph is well formed (see `graph_ok`), and its storage is too.
    spec fn wf(&self) -> bool {
        graph_ok(self@) && adj_stored_ok(adj_view(self.adjacency@))
    }

    /// An empty graph.
    fn new() -> (g: GraphStore)
        ensures
            g.wf(),
            g@ == empty_graph(),
    {
        let g = GraphStore { nodes: Vec::new(), relations: Vec::new(), adjacency: Vec::new() };
        assert(node_views(g.nodes@) =~= Seq::<NodeView>::empty());
        assert(rel_views(g.relations@) =~= Seq::<RelView>::empty());
        assert(adj_map(adj_view(g.adjacency@)) =~= Map::<Seq<char>, Set<Seq<char>>>::empty());
        g
    }

    /// The position of the node with the given id.
    fn id_position(&self, id: &str) -> (r: Option<usize>)
        ensures
            r matches Some(i) ==> find_id(self@.nodes, id@) == Some(i as int),
            r is None ==> find_id(self@.nodes, id@) is None,
    {
        let ghost nv = self@.nodes;
        let mut i: usize = 0;
        while i < self.nodes.len()
            invariant
                i <= self.nodes.len(),
                nv == node_views(self.nodes@),
                find_id(nv.take(i as int), id@) is None,
            decreases self.nodes.len() - i,
        {
            assert(nv.take(i + 1).drop_last() =~= nv.take(i as int));
            if str_equal(self.nodes[i].id.as_str(), id) {
                proof {
                    assert(find_id(nv.take(i + 1), id@) == Some(i as int));
                    lemma_find_id_prefix(nv, id@, (i + 1) as nat);
                }
                return Some(i);
            }
            i += 1;
        }
        assert(nv.take(self.nodes.len() as int) =~= nv);
        None
    }

    /// The position of the first node with the given concept.
    fn concept_position(&self, concept: &str) -> (r: Option<usize>)
        ensures
            r matches Some(i) ==> find_concept(self@.nodes, concept@) == Some(i as int) && i
                < self.nodes@.len(),
            r is None ==> find_concept(self@.nodes, concept@) is None,
    {
        let ghost nv = self@.nodes;
        let mut i: usize = 0;
        while i < self.nodes.len()
            invariant
                i <= self.nodes.len(),
                nv == node_views(self.nodes@),
                find_concept(nv.take(i as int), concept@) is None,
            decreases self.nodes.len() - i,
        {
            assert(nv.take(i + 1).drop_last() =~= nv.take(i as int));
            if str_equal(self.nodes[i].concept.as_str(), concept) {
                proof {
                    assert(find_concept(nv.take(i + 1), concept@) == Some(i as int));
                    lemma_find_concept_prefix(nv, concept@, (i + 1) as nat);
                }
                return Some(i);
            }
            i += 1;
        }
        assert(nv.take(self.nodes.len() as int) =~= nv);
        None
    }

    /// Stores a node: it replaces the node with the same id, or is appended.
    fn store_node(&mut self, n: BeliefNode)
        requires
            old(self).wf(),
        ensures
            final(self).wf(),
            final(self)@ == node_step(old(self)@, n@),
    {
        let ghost g0 = self@;
        proof {
            law_node_step_ok(g0, n@);
        }
        let pos = self.id_position(n.id.as_str());
        ensure_key(&mut self.adjacency, n.concept.as_str());
        let ghost nv = n@;
        match pos {
            Some(i) => {
                proof {
                    lemma_find_id(g0.nodes, nv.id);
                }
                self.nodes.remove(i);
                self.nodes.insert(i, n);
                assert(node_views(self.nodes@) =~= g0.nodes.update(i as int, nv));
            },
            None => {
                self.nodes.push(n);
                assert(node_views(self.nodes@) =~= g0.nodes.push(nv));
            },
        }
        assert(rel_views(self.relations@) == g0.relations);
    }

    /// Adds a node for a concept with a confidence (`f32` bits), under a fresh
    /// random id and the current time.
    fn add_node(&mut self, concept: String, confidence_bits: u32)
        requires
            old(self).wf(),
        ensures
            final(self).wf(),
            exists|id: Seq<char>, created_at: Seq<char>|
                is_uuid_text(id) && final(self)@ == node_step(
                    old(self)@,
                    NodeView { id, concept: concept@, confidence_bits, created_at },
                ),
    {
        let id = new_uuid();
        let created_at = now_rfc3339();
        let ghost idv = id@;
        let ghost ts = created_at@;
        self.store_node(BeliefNode { id, concept, confidence_bits, created_at });
        assert(is_uuid_text(idv));
    }

    /// Adds a relation from `source` to `target` with a type and a weight
    /// (`f32` bits), under a fresh random id.
    fn add_relation(&mut self, source: String, target: String, relation_type: String, weight_bits: u32)
        requires
            old(self).wf(),
        ensures
            final(self).wf(),
            exists|id: Seq<char>|
                is_uuid_text(id) && final(self)@ == relation_step(
                    old(self)@,
                    RelView {
                        id,
                        source: source@,
                        target: target@,
                        relation_type: relation_type@,
                        weight_bits,
                    },
                ),
    {
        let ghost g0 = self@;
        let id = new_uuid();
        let r = BeliefRelation { id, source, target, relation_type, weight_bits };
        let ghost rv = r@;
        proof {
            law_relation_step_ok(g0, rv);
        }
        link(&mut self.adjacency, r.source.as_str(), r.target.as_str());
        self.relations.push(r);
        assert(rel_views(self.relations@) =~= g0.relations.push(rv));
        assert(node_views(self.nodes@) == g0.nodes);
        assert(self@ == relation_step(g0, rv));
    }

    /// The concepts that `concept` points to, each once.
    fn get_related(&self, concept: &str) -> (r: Vec<String>)
        requires
            self.wf(),
        ensures
            texts(r@).no_duplicates(),
            forall|w: Seq<char>| texts(r@).contains(w) <==> linked(self@.adj, concept@, w),
    {
        match entry_position(&self.adjacency, concept) {
            Some(i) => {
                let ghost av = adj_view(self.adjacency@);
                proof {
                    lemma_neighbor_list_at(av, i as int);
                }
                let r = self.adjacency[i].neighbors.clone();
                proof {
                    assert(texts(r@) =~= av[i as int].1);
                    assert(has_key(av, concept@));
                }
                r
            },
            None => {
                let r: Vec<String> = Vec::new();
                assert(texts(r@) =~= Seq::<Seq<char>>::empty());
                r
            },
        }
    }

    /// The first node with the given concept.
    fn get_node(&self, concept: &str) -> (r: Option<BeliefNode>)
        ensures
            match find_concept(self@.nodes, concept@) {
                Some(i) => r matches Some(n) && n@ == self@.nodes[i],
                None => r is None,
            },
    {
        match self.concept_position(concept) {
            Some(i) => {
                assert(self@.nodes[i as int] == self.nodes@[i as int]@);
                Some(self.nodes[i].duplicate())
            },
            None => None,
        }
    }

    /// All relations, in the order they were added.
    fn get_relations(&self) -> (r: Vec<BeliefRelation>)
        ensures
            rel_views(r@) == self@.relations,
    {
        let mut r: Vec<BeliefRelation> = Vec::new();
        let mut i: usize = 0;
        while i < self.relations.len()
            invariant
                i <= self.relations.len(),
                rel_views(r@) == rel_views(self.relations@).take(i as int),
            decreases self.relations.len() - i,
        {
            let ghost prev = r@;
            r.push(self.relations[i].duplicate());
            assert(rel_views(r@) =~= rel_views(prev).push(self.relations@[i as int]@));
            assert(rel_views(r@) =~= rel_views(self.relations@).take(i + 1));
            i += 1;
        }
        assert(rel_views(self.relations@).take(self.relations.len() as int) =~= rel_views(self.relations@));
        r
    }

    /// All nodes.
    fn list_nodes(&self) -> (r: Vec<BeliefNode>)
        ensures
            node_views(r@) == self@.nodes,
    {
        let mut r: Vec<BeliefNode> = Vec::new();
        let mut i: usize = 0;
        while i < self.nodes.len()
            invariant
                i <= self.nodes.len(),
                node_views(r@) == node_views(self.nodes@).take(i as int),
            decreases self.nodes.len() - i,
        {
            let ghost prev = r@;
            r.push(self.nodes[i].duplicate());
            assert(node_views(r@) =~= node_views(prev).push(self.nodes@[i as int]@));
            assert(node_views(r@) =~= node_views(self.nodes@).take(i + 1));
            i += 1;
        }
        assert(node_views(self.nodes@).take(self.nodes.len() as int) =~= node_views(self.nodes@));
        r
    }

    /// Sets the confidence of the first node with the given concept.
    fn update_confidence(&mut self, concept: &str, new_confidence_bits: u32)
        requires
            old(self).wf(),
        ensures
            final(self).wf(),
            final(self)@ == confidence_step(old(self)@, concept@, new_confidence_bits),
    {
        let ghost g0 = self@;
        proof {
            law_confidence_step_ok(g0, concept@, new_confidence_bits);
        }
        if let Some(i) = self.concept_position(concept) {
            let mut n = self.nodes.remove(i);
            n.confidence_bits = new_confidence_bits;
            self.nodes.insert(i, n);
            assert(node_views(self.nodes@) =~= g0.nodes.update(
                i as int,
                NodeView { confidence_bits: new_confidence_bits, ..g0.nodes[i as int] },
            ));
        }
    }

    /// Adds a belief (see `belief_step`), drawing fresh ids and times.
    fn add_belief(&mut self, belief: Belief)
        requires
            old(self).wf(),
        ensures
            final(self).wf(),
            exists|sn: (Seq<char>, Seq<char>), on: (Seq<char>, Seq<char>), rid: Seq<char>|
                is_uuid_text(sn.0) && is_uuid_text(on.0) && is_uuid_text(rid) && final(self)@
                    == belief_step(old(self)@, belief_parts(belief), sn, on, rid),
    {
        let ghost g0 = self@;
        let ghost b = belief_parts(belief);
        let score = belief.confidence.score_bits();
        let ghost mut sn: (Seq<char>, Seq<char>) = uncreated_node();
        let ghost mut on: (Seq<char>, Seq<char>) = uncreated_node();
        assert(is_uuid_text(uncreated_node().0));
        if self.concept_position(belief.subject.as_str()).is_none() {
            let id = new_uuid();
            let created_at = now_rfc3339();
            proof {
                sn = (id@, created_at@);
            }
            self.store_node(BeliefNode {
                id,
                concept: belief.subject.clone(),
                confidence_bits: score,
                created_at,
            });
        } else {
            self.update_confidence(belief.subject.as_str(), score);
        }
        let ghost g1 = self@;
        if self.concept_position(belief.object.as_str()).is_none() {
            let id = new_uuid();
            let created_at = now_rfc3339();
            proof {
                on = (id@, created_at@);
            }
            self.store_node(BeliefNode {
                id,
                concept: belief.object.clone(),
                confidence_bits: score,
                created_at,
            });
        }
        let ghost g2 = self@;
        let rid = new_uuid();
        let ghost ridv = rid@;
        let r = BeliefRelation {
            id: rid,
            source: belief.subject,
            target: belief.object,
            relation_type: belief.predicate,
            weight_bits: score,
        };
        let ghost rv = r@;
        proof {
            law_relation_step_ok(g2, rv);
        }
        link(&mut self.adjacency, r.source.as_str(), r.target.as_str());
        self.relations.push(r);
        assert(rel_views(self.relations@) =~= g2.relations.push(rv));
        assert(self@ == relation_step(g2, rv));
        assert(self@ == belief_step(g0, b, sn, on, ridv));
        assert(is_uuid_text(sn.0) && is_uuid_text(on.0) && is_uuid_text(ridv));
    }

    /// Adds an edge with medium confidence (`add_relation` with weight 0.6).
    fn add_edge(&mut self, from: String, to: String, relation: String)
        requires
            old(self).wf(),
        ensures
            final(self).wf(),
            exists|id: Seq<char>|
                is_uuid_text(id) && final(self)@ == relation_step(
                    old(self)@,
                    RelView {
                        id,
                        source: from@,
                        target: to@,
                        relation_type: relation@,
                        weight_bits: medium_bits(),
                    },
                ),
    {
        self.add_relation(from, to, relation, Confidence::Medium.score_bits());
    }

    /// The relations as edges (source, target, type), in order.
    fn get_edges(&self) -> (r: Vec<BeliefEdge>)
        ensures
            r@.len() == self@.relations.len(),
            forall|i: int|
                0 <= i < r@.len() ==> (#[trigger] r@[i]).from@ == self@.relations[i].source && r@[i].to@
                    == self@.relations[i].target && r@[i].relation@ == self@.relations[i].relation_type,
    {
        let mut r: Vec<BeliefEdge> = Vec::new();
        let mut i: usize = 0;
        while i < self.relations.len()
            invariant
                i <= self.relations.len(),
                r@.len() == i,
                forall|j: int|
                    0 <= j < i ==> (#[trigger] r@[j]).from@ == self.relations@[j].source@ && r@[j].to@
                        == self.relations@[j].target@ && r@[j].relation@ == self.relations@[j].relation_type@,
            decreases self.relations.len() - i,
        {
            let rel = &self.relations[i];
            r.push(BeliefEdge::new(rel.source.clone(), rel.target.clone(), rel.relation_type.clone()));
            i += 1;
        }
        r
    }

    /// Breadth-first search from `start`: every concept reachable from it
    /// along the links, each once, `start` itself left out, nearer concepts
    /// first (no concept is listed after one reached in fewer links).
    fn bfs(&self, start: &str) -> (r: Vec<String>)
        requires
            self.wf(),
        ensures
            texts(r@).no_duplicates(),
            forall|w: Seq<char>| texts(r@).contains(w) <==> (reaches(self@.adj, start@, w) && w != start@),
            forall|i: int, j: int, k: int|
                #![trigger reaches_within(self@.adj, start@, texts(r@)[j], k), texts(r@)[i]]
                0 <= i < j < r@.len() && reaches_within(self@.adj, start@, texts(r@)[j], k)
                    ==> reaches_within(self@.adj, start@, texts(r@)[i], k),
    {
        let r = breadth_first(&self.adjacency, start);
        proof {
            let av = adj_view(self.adjacency@);
            assert forall|w: Seq<char>| texts(r@).contains(w) <==> (reaches(self@.adj, start@, w) && w != start@) by {
                lemma_reachable_map(av, start@, w);
            }
            assert forall|i: int, j: int, k: int|
                0 <= i < j < r@.len() && #[trigger] reaches_within(self@.adj, start@, texts(r@)[j], k)
                    implies reaches_within(self@.adj, start@, #[trigger] texts(r@)[i], k) by {
                lemma_within_map(av, start@, texts(r@)[j], k);
                lemma_within_map(av, start@, texts(r@)[i], k);
                assert(within(av, start@, texts(r@)[j], k));
            }
        }
        r
    }

    /// Beliefs whose relation mentions the query (see `search_spec`).
    fn search(&self, query: &str) -> (r: Vec<Belief>)
        ensures
            r@.map_values(|b: Belief| belief_parts(b)) == search_spec(self@, query@),
    {
        let ql = to_lowercase(query);
        let ghost g = self@;
        let mut r: Vec<Belief> = Vec::new();
        let mut i: usize = 0;
        while i < self.relations.len()
            invariant
                i <= self.relations.len(),
                g == self@,
                ql@ == lowercase_of(query@),
                r@.map_values(|b: Belief| belief_parts(b)) == search_spec(
                    GraphView { relations: g.relations.take(i as int), ..g },
                    query@,
                ),
            decreases self.relations.len() - i,
        {
            let ghost gi = GraphView { relations: g.relations.take(i + 1), ..g };
            assert(gi.relations.drop_last() =~= g.relations.take(i as int));
            assert(gi.relations.last() == self.relations@[i as int]@);
            let rel = &self.relations[i];
            let hit = str_contains(to_lowercase(rel.source.as_str()).as_str(), ql.as_str())
                || str_contains(to_lowercase(rel.target.as_str()).as_str(), ql.as_str())
                || str_contains(to_lowercase(rel.relation_type.as_str()).as_str(), ql.as_str());
            if hit {
                let level = match self.concept_position(rel.source.as_str()) {
                    Some(p) => {
                        assert(g.nodes[p as int] == self.nodes@[p as int]@);
                        confidence_level(self.nodes[p].confidence_bits)
                    },
                    None => Confidence::Medium,
                };
                let ghost prev = r@;
                r.push(Belief::new(rel.source.clone(), rel.relation_type.clone(), rel.target.clone(), level));
                assert(r@.map_values(|b: Belief| belief_parts(b)) =~= prev.map_values(|b: Belief| belief_parts(b)).push(
                    (rel.source@, rel.relation_type@, rel.target@, level),
                ));
            }
            i += 1;
        }
        assert(g.relations.take(self.relations.len() as int) =~= g.relations);
        assert(GraphView { relations: g.relations, ..g } == g);
        r
    }

    /// The nodes whose concept holds the query (see `query_spec`).
    fn query(&self, query: &str) -> (r: Vec<BeliefNode>)
        ensures
            node_views(r@) == query_spec(self@.nodes, query@),
    {
        let ql = to_lowercase(query);
        let ghost nv = self@.nodes;
        let mut r: Vec<BeliefNode> = Vec::new();
        let mut i: usize = 0;
        while i < self.nodes.len()
            invariant
                i <= self.nodes.len(),
                nv == self@.nodes,
                ql@ == lowercase_of(query@),
                node_views(r@) == query_spec(nv.take(i as int), query@),
            decreases self.nodes.len() - i,
        {
            assert(nv.take(i + 1).drop_last() =~= nv.take(i as int));
            assert(nv.take(i + 1).last() == self.nodes@[i as int]@);
            if str_contains(to_lowercase(self.nodes[i].concept.as_str()).as_str(), ql.as_str()) {
                let ghost prev = r@;
                r.push(self.nodes[i].duplicate());
                assert(node_views(r@) =~= node_views(prev).push(self.nodes@[i as int]@));
            }
            i += 1;
        }
        assert(nv.take(self.nodes.len() as int) =~= nv);
        r
    }

    /// The graph rebuilt from node and relation lists (as loaded from JSON):
    /// nodes stored in order, then relations added in order (see `rebuilt`).
    fn from_parts(nodes: Vec<BeliefNode>, relations: Vec<BeliefRelation>) -> (g: GraphStore)
        ensures
            g.wf(),
            g@ == rebuilt(node_views(nodes@), rel_views(relations@)),
    {
        let ghost ns = node_views(nodes@);
        let ghost rs = rel_views(relations@);
        let mut g = GraphStore::new();
        let mut nodes = nodes;
        let mut k: usize = 0;
        let ghost all_nodes = nodes@;
        while k < nodes.len()
            invariant
                nodes@ == all_nodes,
                ns == node_views(all_nodes),
                k <= nodes.len(),
                g.wf(),
                g@ == store_nodes(empty_graph(), ns.take(k as int)),
            decreases nodes.len() - k,
        {
            assert(ns.take(k + 1).drop_last() =~= ns.take(k as int));
            assert(ns.take(k + 1).last() == nodes@[k as int]@);
            g.store_node(nodes[k].duplicate());
            k += 1;
        }
        assert(ns.take(nodes.len() as int) =~= ns);
        let ghost g1 = g@;
        let mut j: usize = 0;
        while j < relations.len()
            invariant
                rs == rel_views(relations@),
                j <= relations.len(),
                g.wf(),
                g1 == store_nodes(empty_graph(), ns),
                g@ == add_relations(g1, rs.take(j as int)),
            decreases relations.len() - j,
        {
            assert(rs.take(j + 1).drop_last() =~= rs.take(j as int));
            assert(rs.take(j + 1).last() == relations@[j as int]@);
            let ghost gj = g@;
            let r = relations[j].duplicate();
            let ghost rv = r@;
            proof {
                law_relation_step_ok(gj, rv);
            }
            link(&mut g.adjacency, r.source.as_str(), r.target.as_str());
            g.relations.push(r);
            assert(rel_views(g.relations@) =~= gj.relations.push(rv));
            assert(g@ == relation_step(gj, rv));
            j += 1;
        }
        assert(rs.take(relations.len() as int) =~= rs);
        g
    }
}

/// The belief graph: concepts with confidences, typed relations between
/// them, and each concept's outgoing links. Always well formed (see
/// `graph_ok`).
pub struct BeliefGraph {
    store: GraphStore,
}

impl View for BeliefGraph {
    type V = GraphView;

    closed spec fn view(&self) -> GraphView {
        self.store@
    }
}

impl BeliefGraph {
    #[verifier::type_invariant]
    closed spec fn inv(&self) -> bool {
        self.store.wf()
    }

    /// An empty graph.
    pub fn new() -> (g: BeliefGraph)
        ensures
            g@ == empty_graph(),
    {
        BeliefGraph { store: GraphStore::new() }
    }

    /// The storage, taken out for a change; an empty one is left in its place.
    fn take_store(&mut self) -> (s: GraphStore)
        ensures
            s.wf(),
            s@ == old(self)@,
            final(self)@ == empty_graph(),
    {
        proof {
            use_type_invariant(&*self);
        }
        let mut s = GraphStore::new();
        std::mem::swap(&mut s, &mut self.store);
        s
    }

    /// Adds a node for a concept with a confidence (`f32` bits), under a fresh
    /// random id and the current time.
    pub fn add_node(&mut self, concept: String, confidence_bits: u32)
        ensures
            exists|id: Seq<char>, created_at: Seq<char>|
                is_uuid_text(id) && final(self)@ == node_step(
                    old(self)@,
                    NodeView { id, concept: concept@, confidence_bits, created_at },
                ),
    {
        let mut s = self.take_store();
        s.add_node(concept, confidence_bits);
        self.store = s;
    }

    /// Adds a relation from `source` to `target` with a type and a weight
    /// (`f32` bits), under a fresh random id.
    pub fn add_relation(&mut self, source: String, target: String, relation_type: String, weight_bits: u32)
        ensures
            exists|id: Seq<char>|
                is_uuid_text(id) && final(self)@ == relation_step(
                    old(self)@,
                    RelView {
                        id,
                        source: source@,
                        target: target@,
                        relation_type: relation_type@,
                        weight_bits,
                    },
                ),
    {
        let mut s = self.take_store();
        s.add_relation(source, target, relation_type, weight_bits);
        self.store = s;
    }

    /// The concepts that `concept` points to, each once.
    pub fn get_related(&self, concept: &str) -> (r: Vec<String>)
        ensures
            texts(r@).no_duplicates(),
            forall|w: Seq<char>| texts(r@).contains(w) <==> linked(self@.adj, concept@, w),
    {
        proof {
            use_type_invariant(self);
        }
        self.store.get_related(concept)
    }

    /// The first node with the given concept.
    pub fn get_node(&self, concept: &str) -> (r: Option<BeliefNode>)
        ensures
            match find_concept(self@.nodes, concept@) {
                Some(i) => r matches Some(n) && n@ == self@.nodes[i],
                None => r is None,
            },
    {
        self.store.get_node(concept)
    }

    /// The relations, in order.
    pub fn get_relations(&self) -> (r: Vec<BeliefRelation>)
        ensures
            rel_views(r@) == self@.relations,
    {
        self.store.get_relations()
    }

    /// The nodes, in order.
    pub fn list_nodes(&self) -> (r: Vec<BeliefNode>)
        ensures
            node_views(r@) == self@.nodes,
    {
        self.store.list_nodes()
    }

    /// The nodes, in order.
    pub fn get_nodes(&self) -> (r: Vec<BeliefNode>)
        ensures
            node_views(r@) == self@.nodes,
    {
        self.store.list_nodes()
    }

    /// Sets the confidence of the first node with the given concept.
    pub fn update_confidence(&mut self, concept: &str, new_confidence_bits: u32)
        ensures
            final(self)@ == confidence_step(old(self)@, concept@, new_confidence_bits),
    {
        let mut s = self.take_store();
        s.update_confidence(concept, new_confidence_bits);
        self.store = s;
    }

    /// Adds a belief (see `belief_step`), drawing fresh ids and times.
    pub fn add_belief(&mut self, belief: Belief)
        ensures
            exists|sn: (Seq<char>, Seq<char>), on: (Seq<char>, Seq<char>), rid: Seq<char>|
                is_uuid_text(sn.0) && is_uuid_text(on.0) && is_uuid_text(rid) && final(self)@
                    == belief_step(old(self)@, belief_parts(belief), sn, on, rid),
    {
        let mut s = self.take_store();
        s.add_belief(belief);
        self.store = s;
    }

    /// Adds an edge with medium confidence (`add_relation` with weight 0.6).
    pub fn add_edge(&mut self, from: String, to: String, relation: String)
        ensures
            exists|id: Seq<char>|
                is_uuid_text(id) && final(self)@ == relation_step(
                    old(self)@,
                    RelView {
                        id,
                        source: from@,
                        target: to@,
                        relation_type: relation@,
                        weight_bits: medium_bits(),
                    },
                ),
    {
        let mut s = self.take_store();
        s.add_edge(from, to, relation);
        self.store = s;
    }

    /// The relations as edges (source, target, type), in order.
    pub fn get_edges(&self) -> (r: Vec<BeliefEdge>)
        ensures
            r@.len() == self@.relations.len(),
            forall|i: int|
                0 <= i < r@.len() ==> (#[trigger] r@[i]).from@ == self@.relations[i].source && r@[i].to@
                    == self@.relations[i].target && r@[i].relation@ == self@.relations[i].relation_type,
    {
        self.store.get_edges()
    }

    /// Breadth-first search from `start`: every concept reachable from it
    /// along the links, each once, `start` itself left out, nearer concepts
    /// first (no concept is listed after one reached in fewer links).
    pub fn bfs(&self, start: &str) -> (r: Vec<String>)
        ensures
            texts(r@).no_duplicates(),
            forall|w: Seq<char>| texts(r@).contains(w) <==> (reaches(self@.adj, start@, w) && w != start@),
            forall|i: int, j: int, k: int|
                #![trigger reaches_within(self@.adj, start@, texts(r@)[j], k), texts(r@)[i]]
                0 <= i < j < r@.len() && reaches_within(self@.adj, start@, texts(r@)[j], k)
                    ==> reaches_within(self@.adj, start@, texts(r@)[i], k),
    {
        proof {
            use_type_invariant(self);
        }
        self.store.bfs(start)
    }

    /// The beliefs whose parts hold the query (see `search_spec`).
    pub fn search(&self, query: &str) -> (r: Vec<Belief>)
        ensures
            r@.map_values(|b: Belief| belief_parts(b)) == search_spec(self@, query@),
    {
        self.store.search(query)
    }

    /// The nodes whose concept holds the query (see `query_spec`).
    pub fn query(&self, query: &str) -> (r: Vec<BeliefNode>)
        ensures
            node_views(r@) == query_spec(self@.nodes, query@),
    {
        self.store.query(query)
    }

    /// The graph rebuilt from node and relation lists (as loaded from JSON):
    /// nodes stored in order, then relations added in order (see `rebuilt`).
    pub fn from_parts(nodes: Vec<BeliefNode>, relations: Vec<BeliefRelation>) -> (g: BeliefGraph)
        ensures
            g@ == rebuilt(node_views(nodes@), rel_views(relations@)),
    {
        BeliefGraph { store: GraphStore::from_parts(nodes, relations) }
    }
}

/// A pair with no meaning, standing for ids that were not drawn.
/// An id and time standing for a node that was not created: the id has the
/// UUID form (all digits zero), the time is empty.
spec fn uncreated_node() -> (Seq<char>, Seq<char>) {
    (
        Seq::new(36, |i: int| if i == 8 || i == 13 || i == 18 || i == 23 { '-' } else { '0' }),
        Seq::empty(),
    )
}

/// A node found in a prefix is found in the whole list.
proof fn lemma_find_id_prefix(nodes: Seq<NodeView>, id: Seq<char>, n: nat)
    requires
        n <= nodes.len(),
        find_id(nodes.take(n as int), id) is Some,
    ensures
        find_id(nodes, id) == find_id(nodes.take(n as int), id),
    decreases nodes.len() - n,
{
    if n < nodes.len() {
        assert(nodes.take(n + 1 as int).drop_last() =~= nodes.take(n as int));
        lemma_find_id_prefix(nodes, id, n + 1);
    } else {
        assert(nodes.take(n as int) =~= nodes);
    }
}

/// A concept found in a prefix is found in the whole list.
proof fn lemma_find_concept_prefix(nodes: Seq<NodeView>, concept: Seq<char>, n: nat)
    requires
        n <= nodes.len(),
        find_concept(nodes.take(n as int), concept) is Some,
    ensures
        find_concept(nodes, concept) == find_concept(nodes.take(n as int), concept),
    decreases nodes.len() - n,
{
    if n < nodes.len() {
        assert(nodes.take(n + 1 as int).drop_last() =~= nodes.take(n as int));
        lemma_find_concept_prefix(nodes, concept, n + 1);
    } else {
        assert(nodes.take(n as int) =~= nodes);
    }
}

} // verus!
