//! Secrets kept in memory.

use vstd::prelude::*;

use crate::keyed::{
    key_position, keys_distinct, law_nothing_stored_after_remove, law_put_keeps_keys_distinct,
    law_put_keeps_other_keys, law_remove_keeps_keys_distinct, law_remove_keeps_other_keys,
    law_stored_after_put, lemma_position_prefix, put_step, remove_step, stored,
};
use crate::secrets::{SecretError, SecretResult};
use crate::text::str_equal;

verus! {

/// The stored (key, value) entries as text.
pub open spec fn secret_entries(v: Seq<(String, String)>) -> Seq<(Seq<char>, Seq<char>)> {
    v.map_values(|e: (String, String)| (e.0@, e.1@))
}

/// Secrets in memory, one value per key.
pub struct LocalSecretStore {
    storage: Vec<(String, String)>,
}

impl LocalSecretStore {
    /// The stored entries.
    pub closed spec fn entries(&self) -> Seq<(Seq<char>, Seq<char>)> {
        secret_entries(self.storage@)
    }

    /// No key is stored twice.
    #[verifier::type_invariant]
    closed spec fn wf(&self) -> bool {
        keys_distinct(secret_entries(self.storage@))
    }

    /// An empty store.
    pub fn new() -> (s: LocalSecretStore)
        ensures
            s.entries() == Seq::<(Seq<char>, Seq<char>)>::empty(),
    {
        let s = LocalSecretStore { storage: Vec::new() };
        assert(s.entries() =~= Seq::<(Seq<char>, Seq<char>)>::empty());
        s
    }

    /// The position of the entry with a key.
    fn position(&self, key: &str) -> (r: Option<usize>)
        ensures
            r matches Some(i) ==> key_position(self.entries(), key@) == Some(i as int) && i
                < self.storage@.len(),
            r is None ==> key_position(self.entries(), key@) is None,
    {
        let ghost es = self.entries();
        let mut i: usize = 0;
        while i < self.storage.len()
            invariant
                i <= self.storage.len(),
                es == self.entries(),
                key_position(es.take(i as int), key@) is None,
            decreases self.storage.len() - i,
        {
            assert(es.take(i + 1).drop_last() =~= es.take(i as int));
            if str_equal(self.storage[i].0.as_str(), key) {
                proof {
                    assert(key_position(es.take(i + 1), key@) == Some(i as int));
                    lemma_position_prefix(es, key@, (i + 1) as nat);
                }
                return Some(i);
            }
            i += 1;
        }
        assert(es.take(self.storage.len() as int) =~= es);
        None
    }

    /// The secret stored under `key`, or `NotFound` with the key.
    pub fn get(&self, key: &str) -> (r: SecretResult<String>)
        ensures
            match stored(self.entries(), key@) {
                Some(v) => r matches Ok(s) && s@ == v,
                None => r matches Err(SecretError::NotFound(k)) && k@ == key@,
            },
    {
        match self.position(key) {
            Some(i) => {
                assert(self.entries()[i as int].1 == self.storage@[i as int].1@);
                Ok(self.storage[i].1.clone())
            },
            None => Err(SecretError::NotFound(key.to_owned())),
        }
    }

    /// Stores `value` under `key`, replacing what was there.
    pub fn set(&mut self, key: &str, value: &str) -> (r: SecretResult<()>)
        ensures
            r is Ok,
            final(self).entries() == put_step(old(self).entries(), key@, value@),
            stored(final(self).entries(), key@) == Some(value@),
            forall|k: Seq<char>|
                k != key@ ==> #[trigger] stored(final(self).entries(), k) == stored(old(self).entries(), k),
    {
        proof {
            use_type_invariant(&*self);
        }
        let ghost es = self.entries();
        let found = self.position(key);
        let mut storage: Vec<(String, String)> = Vec::new();
        std::mem::swap(&mut storage, &mut self.storage);
        assert(secret_entries(storage@) == es);
        match found {
            Some(i) => {
                storage.set(i, (key.to_owned(), value.to_owned()));
                assert(secret_entries(storage@) =~= es.update(i as int, (key@, value@)));
            },
            None => {
                storage.push((key.to_owned(), value.to_owned()));
                assert(secret_entries(storage@) =~= es.push((key@, value@)));
            },
        }
        proof {
            law_put_keeps_keys_distinct(es, key@, value@);
        }
        self.storage = storage;
        proof {
            law_stored_after_put(es, key@, value@);
            assert forall|k: Seq<char>| k != key@ implies #[trigger] stored(self.entries(), k) == stored(es, k) by {
                law_put_keeps_other_keys(es, key@, value@, k);
            }
        }
        Ok(())
    }

    /// Removes the secret under `key`, if any.
    pub fn delete(&mut self, key: &str) -> (r: SecretResult<()>)
        ensures
            r is Ok,
            final(self).entries() == remove_step(old(self).entries(), key@),
            stored(final(self).entries(), key@) is None,
            forall|k: Seq<char>|
                k != key@ ==> #[trigger] stored(final(self).entries(), k) == stored(old(self).entries(), k),
    {
        proof {
            use_type_invariant(&*self);
        }
        let ghost es = self.entries();
        let found = self.position(key);
        let mut storage: Vec<(String, String)> = Vec::new();
        std::mem::swap(&mut storage, &mut self.storage);
        assert(secret_entries(storage@) == es);
        if let Some(i) = found {
            storage.remove(i);
            assert(secret_entries(storage@) =~= es.remove(i as int));
        }
        proof {
            law_remove_keeps_keys_distinct(es, key@);
        }
        self.storage = storage;
        proof {
            law_nothing_stored_after_remove(es, key@);
            assert forall|k: Seq<char>| k != key@ implies #[trigger] stored(self.entries(), k) == stored(es, k) by {
                law_remove_keeps_other_keys(es, key@, k);
            }
        }
        Ok(())
    }
}

} // verus!
