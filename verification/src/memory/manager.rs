//! Memory management: what to recommend for a store, and which recommended
//! actions are carried out.

use vstd::prelude::*;

use crate::memory::qmd_memory::QmdMemory;
use crate::text::{concat, decimal, u64_to_decimal};

verus! {

/// An action recommended for the store.
pub enum MemoryAction {
    Keep,
    Compress { doc_id: String, reason: String },
    Delete { doc_id: String, reason: String },
    Update { doc_id: String, new_content: String },
    Consolidate { doc_ids: Vec<String>, reason: String },
}

/// The reason given for consolidating: "Too many documents: {count} > {max}".
pub open spec fn too_many_reason(count: nat, max: nat) -> Seq<char> {
    "Too many documents: "@ + decimal(count) + " > "@ + decimal(max)
}

/// What is recommended for a store of `count` documents that should hold at
/// most `max`: one consolidation with no documents named when there are too
/// many, nothing otherwise.
pub open spec fn recommended_for(actions: Seq<MemoryAction>, count: nat, max: nat) -> bool {
    if count > max {
        &&& actions.len() == 1
        &&& actions[0] matches MemoryAction::Consolidate { doc_ids, reason } && doc_ids@.len() == 0
            && reason@ == too_many_reason(count, max)
    } else {
        actions.len() == 0
    }
}

/// The action is carried out: deletions and compressions are; the rest are
/// not.
pub open spec fn is_executed(a: MemoryAction) -> bool {
    a is Delete || a is Compress
}

/// How many of the actions are carried out.
pub open spec fn executed_count(actions: Seq<MemoryAction>) -> nat
    decreases actions.len(),
{
    if actions.len() == 0 {
        0
    } else {
        executed_count(actions.drop_last()) + if is_executed(actions.last()) {
            1nat
        } else {
            0nat
        }
    }
}

proof fn lemma_executed_count_bound(actions: Seq<MemoryAction>)
    ensures
        executed_count(actions) <= actions.len(),
    decreases actions.len(),
{
    if actions.len() > 0 {
        lemma_executed_count_bound(actions.drop_last());
    }
}

/// The recommendations for a store of `count` documents that should hold at
/// most `max_documents`.
pub fn recommend_actions(count: usize, max_documents: usize) -> (r: Vec<MemoryAction>)
    ensures
        recommended_for(r@, count as nat, max_documents as nat),
{
    let mut actions: Vec<MemoryAction> = Vec::new();
    if count > max_documents {
        let head = concat("Too many documents: ", u64_to_decimal(count as u64).as_str());
        let middle = concat(head.as_str(), " > ");
        let reason = concat(middle.as_str(), u64_to_decimal(max_documents as u64).as_str());
        actions.push(MemoryAction::Consolidate { doc_ids: Vec::new(), reason });
    }
    actions
}

/// How many of the actions are carried out.
pub fn execute_actions(actions: Vec<MemoryAction>) -> (n: usize)
    ensures
        n == executed_count(actions@),
{
    let mut n: usize = 0;
    let mut i: usize = 0;
    while i < actions.len()
        invariant
            i <= actions.len(),
            n == executed_count(actions@.take(i as int)),
        decreases actions.len() - i,
    {
        assert(actions@.take(i + 1).drop_last() =~= actions@.take(i as int));
        proof {
            lemma_executed_count_bound(actions@.take(i as int));
        }
        match &actions[i] {
            MemoryAction::Delete { .. } => n = n + 1,
            MemoryAction::Compress { .. } => n = n + 1,
            _ => {},
        }
        i += 1;
    }
    assert(actions@.take(actions.len() as int) =~= actions@);
    n
}

/// A store and the most documents it should hold.
pub struct MemoryManager {
    memory: QmdMemory,
    max_documents: usize,
}

impl MemoryManager {
    pub closed spec fn memory_spec(&self) -> QmdMemory {
        self.memory
    }

    pub closed spec fn max_documents_spec(&self) -> usize {
        self.max_documents
    }

    /// A manager for the store that holds at most 1000 documents.
    pub fn new(memory: QmdMemory) -> (m: MemoryManager)
        ensures
            m.memory_spec() == memory,
            m.max_documents_spec() == 1000,
    {
        MemoryManager { memory, max_documents: 1000 }
    }

    /// The most documents the store should hold.
    pub fn max_documents(&self) -> (n: usize)
        ensures
            n == self.max_documents_spec(),
    {
        self.max_documents
    }

    /// The store.
    pub fn memory(&self) -> (m: &QmdMemory)
        ensures
            *m == self.memory_spec(),
    {
        &self.memory
    }

    /// The recommendations for the store as it is.
    pub fn analyze_and_recommend(&self) -> (r: Vec<MemoryAction>)
        ensures
            recommended_for(
                r@,
                self.memory_spec().state().docs.len(),
                self.max_documents_spec() as nat,
            ),
    {
        let count = self.memory.count();
        recommend_actions(count, self.max_documents)
    }

    /// Recommends, then carries out what it recommended. A consolidation is
    /// never carried out, so nothing is.
    pub fn auto_manage(&self) -> (n: usize)
        ensures
            n == 0,
    {
        let actions = self.analyze_and_recommend();
        let ghost a = actions@;
        let n = execute_actions(actions);
        proof {
            if a.len() > 0 {
                assert(a.drop_last() =~= Seq::<MemoryAction>::empty());
                assert(executed_count(a.drop_last()) == 0);
                assert(a.last() == a[0]);
                assert(!is_executed(a.last()));
            }
        }
        n
    }
}

} // verus!
