//! Checkpoints: named snapshots of a task's data, keyed by task and name.

use vstd::prelude::*;

use crate::keyed::{
    key_position, keys_distinct, law_nothing_stored_after_remove, law_put_keeps_keys_distinct,
    law_put_keeps_other_keys, law_remove_keeps_keys_distinct, law_remove_keeps_other_keys,
    law_stored_after_put, lemma_position_prefix, put_step, remove_step, stored,
};
use crate::text::{concat, str_equal};

verus! {

/// A named snapshot of a task's data.
pub struct Checkpoint {
    pub task_id: String,
    pub name: String,
    pub data: serde_json::Value,
}

/// A checkpoint as mathematical values.
pub struct CheckpointView {
    pub task_id: Seq<char>,
    pub name: Seq<char>,
    pub data: serde_json::Value,
}

impl View for Checkpoint {
    type V = CheckpointView;

    open spec fn view(&self) -> CheckpointView {
        CheckpointView { task_id: self.task_id@, name: self.name@, data: self.data }
    }
}

impl Checkpoint {
    /// A checkpoint with the given parts.
    pub fn new(task_id: String, name: String, data: serde_json::Value) -> (c: Checkpoint)
        ensures
            c.task_id == task_id,
            c.name == name,
            c.data == data,
    {
        Checkpoint { task_id, name, data }
    }

    /// A copy of the checkpoint.
    pub fn duplicate(&self) -> (c: Checkpoint)
        ensures
            c@ == self@,
    {
        Checkpoint { task_id: self.task_id.clone(), name: self.name.clone(), data: self.data.clone() }
    }
}

/// The key a checkpoint is stored under: "{task_id}::{name}".
pub open spec fn checkpoint_key(task_id: Seq<char>, name: Seq<char>) -> Seq<char> {
    task_id + "::"@ + name
}

/// The stored checkpoints: (key, checkpoint) entries.
pub open spec fn entries_view(v: Seq<(String, Checkpoint)>) -> Seq<(Seq<char>, CheckpointView)> {
    v.map_values(|e: (String, Checkpoint)| (e.0@, e.1@))
}

/// The checkpoints of a task, in storage order.
pub open spec fn task_checkpoints(es: Seq<(Seq<char>, CheckpointView)>, task_id: Seq<char>) -> Seq<
    CheckpointView,
>
    decreases es.len(),
{
    if es.len() == 0 {
        Seq::empty()
    } else {
        let prev = task_checkpoints(es.drop_last(), task_id);
        if es.last().1.task_id == task_id {
            prev.push(es.last().1)
        } else {
            prev
        }
    }
}

/// Checkpoints in memory.
pub struct CheckpointManager {
    entries: Vec<(String, Checkpoint)>,
}

impl CheckpointManager {
    /// The stored entries.
    pub closed spec fn entries(&self) -> Seq<(Seq<char>, CheckpointView)> {
        entries_view(self.entries@)
    }

    /// No key is stored twice.
    #[verifier::type_invariant]
    closed spec fn wf(&self) -> bool {
        keys_distinct(entries_view(self.entries@))
    }

    /// No checkpoints.
    pub fn new() -> (m: CheckpointManager)
        ensures
            m.entries() == Seq::<(Seq<char>, CheckpointView)>::empty(),
    {
        let m = CheckpointManager { entries: Vec::new() };
        assert(m.entries() =~= Seq::<(Seq<char>, CheckpointView)>::empty());
        m
    }

    /// The key a checkpoint is stored under.
    pub fn key(task_id: &str, name: &str) -> (k: String)
        ensures
            k@ == checkpoint_key(task_id@, name@),
    {
        let mut k = concat(task_id, "::");
        k.append(name);
        k
    }

    /// The position of the entry with a key.
    fn position(&self, key: &str) -> (r: Option<usize>)
        ensures
            r matches Some(i) ==> key_position(self.entries(), key@) == Some(i as int) && i
                < self.entries@.len(),
            r is None ==> key_position(self.entries(), key@) is None,
    {
        let ghost es = self.entries();
        let mut i: usize = 0;
        while i < self.entries.len()
            invariant
                i <= self.entries.len(),
                es == self.entries(),
                key_position(es.take(i as int), key@) is None,
            decreases self.entries.len() - i,
        {
            assert(es.take(i + 1).drop_last() =~= es.take(i as int));
            if str_equal(self.entries[i].0.as_str(), key) {
                proof {
                    assert(key_position(es.take(i + 1), key@) == Some(i as int));
                    lemma_position_prefix(es, key@, (i + 1) as nat);
                }
                return Some(i);
            }
            i += 1;
        }
        assert(es.take(self.entries.len() as int) =~= es);
        None
    }

    /// Saves a checkpoint, replacing the one with the same task and name.
    pub fn save(&mut self, checkpoint: Checkpoint)
        ensures
            final(self).entries() == put_step(
                old(self).entries(),
                checkpoint_key(checkpoint@.task_id, checkpoint@.name),
                checkpoint@,
            ),
            stored(final(self).entries(), checkpoint_key(checkpoint@.task_id, checkpoint@.name))
                == Some(checkpoint@),
            forall|k: Seq<char>|
                k != checkpoint_key(checkpoint@.task_id, checkpoint@.name) ==> #[trigger] stored(
                    final(self).entries(),
                    k,
                ) == stored(old(self).entries(), k),
    {
        proof {
            use_type_invariant(&*self);
        }
        let ghost es = self.entries();
        let key = Self::key(checkpoint.task_id.as_str(), checkpoint.name.as_str());
        let ghost cv = checkpoint@;
        let ghost kv = key@;
        let found = self.position(key.as_str());
        let mut entries: Vec<(String, Checkpoint)> = Vec::new();
        std::mem::swap(&mut entries, &mut self.entries);
        assert(entries_view(entries@) == es);
        match found {
            Some(i) => {
                entries.set(i, (key, checkpoint));
                assert(entries_view(entries@) =~= es.update(i as int, (kv, cv)));
            },
            None => {
                entries.push((key, checkpoint));
                assert(entries_view(entries@) =~= es.push((kv, cv)));
            },
        }
        proof {
            law_put_keeps_keys_distinct(es, kv, cv);
        }
        self.entries = entries;
        proof {
            law_stored_after_put(es, kv, cv);
            assert forall|k: Seq<char>| k != kv implies #[trigger] stored(self.entries(), k) == stored(es, k) by {
                law_put_keeps_other_keys(es, kv, cv, k);
            }
        }
    }

    /// The checkpoint saved for a task under a name.
    pub fn load(&self, task_id: &str, name: &str) -> (r: Option<Checkpoint>)
        ensures
            match stored(self.entries(), checkpoint_key(task_id@, name@)) {
                Some(c) => r matches Some(x) && x@ == c,
                None => r is None,
            },
    {
        let key = Self::key(task_id, name);
        match self.position(key.as_str()) {
            Some(i) => {
                assert(self.entries()[i as int].1 == self.entries@[i as int].1@);
                Some(self.entries[i].1.duplicate())
            },
            None => None,
        }
    }

    /// The checkpoints of a task.
    pub fn list(&self, task_id: &str) -> (r: Vec<Checkpoint>)
        ensures
            r@.map_values(|c: Checkpoint| c@) == task_checkpoints(self.entries(), task_id@),
    {
        let ghost es = self.entries();
        let mut r: Vec<Checkpoint> = Vec::new();
        let mut i: usize = 0;
        while i < self.entries.len()
            invariant
                i <= self.entries.len(),
                es == self.entries(),
                r@.map_values(|c: Checkpoint| c@) == task_checkpoints(es.take(i as int), task_id@),
            decreases self.entries.len() - i,
        {
            assert(es.take(i + 1).drop_last() =~= es.take(i as int));
            assert(es.take(i + 1).last() == (self.entries@[i as int].0@, self.entries@[i as int].1@));
            if str_equal(self.entries[i].1.task_id.as_str(), task_id) {
                let ghost prev = r@;
                r.push(self.entries[i].1.duplicate());
                assert(r@.map_values(|c: Checkpoint| c@) =~= prev.map_values(|c: Checkpoint| c@).push(
                    self.entries@[i as int].1@,
                ));
            }
            i += 1;
        }
        assert(es.take(self.entries.len() as int) =~= es);
        r
    }

    /// Deletes the checkpoint saved for a task under a name, if any.
    pub fn delete(&mut self, task_id: &str, name: &str)
        ensures
            final(self).entries() == remove_step(old(self).entries(), checkpoint_key(task_id@, name@)),
            stored(final(self).entries(), checkpoint_key(task_id@, name@)) is None,
            forall|k: Seq<char>|
                k != checkpoint_key(task_id@, name@) ==> #[trigger] stored(final(self).entries(), k)
                    == stored(old(self).entries(), k),
    {
        proof {
            use_type_invariant(&*self);
        }
        let ghost es = self.entries();
        let key = Self::key(task_id, name);
        let ghost kv = key@;
        let found = self.position(key.as_str());
        let mut entries: Vec<(String, Checkpoint)> = Vec::new();
        std::mem::swap(&mut entries, &mut self.entries);
        assert(entries_view(entries@) == es);
        if let Some(i) = found {
            entries.remove(i);
            assert(entries_view(entries@) =~= es.remove(i as int));
        }
        proof {
            law_remove_keeps_keys_distinct(es, kv);
        }
        self.entries = entries;
        proof {
            law_nothing_stored_after_remove(es, kv);
            assert forall|k: Seq<char>| k != kv implies #[trigger] stored(self.entries(), k) == stored(es, k) by {
                law_remove_keeps_other_keys(es, kv, k);
            }
        }
    }
}

} // verus!
