use vstd::prelude::*;
use vstd::string::*;

use crate::error::TaskError;

verus! {

/// `a` and `b` hold the same artifacts, with the same bytes, at every
/// address but `key`.
pub open spec fn agrees_except(a: Map<Seq<char>, Seq<u8>>, b: Map<Seq<char>, Seq<u8>>, key: Seq<char>) -> bool {
    forall|k: Seq<char>|
        k != key ==> (#[trigger] a.contains_key(k) == b.contains_key(k)) && (a.contains_key(k) ==> a[k] == b[k])
}

/// A backing store: the world that targets address. Its view maps the
/// address of every existing artifact to the bytes it holds.
pub trait Store {
    closed spec fn contents(&self) -> Map<Seq<char>, Seq<u8>> {
        Map::empty()
    }

    /// The bytes stored under `key`; an absent key is an error.
    fn read(&self, key: &str) -> (r: Result<Vec<u8>, TaskError>)
        ensures
            r is Ok ==> self.contents().contains_key(key@) && r->Ok_0@ == self.contents()[key@],
            !self.contents().contains_key(key@) ==> r is Err,
    ;

    /// Creates or overwrites the artifact under `key`. A failed write may
    /// leave that artifact in any state, and touches no other.
    fn write(&mut self, key: &str, data: &[u8]) -> (r: Result<(), TaskError>)
        ensures
            r is Ok ==> final(self).contents() == old(self).contents().insert(key@, data@),
            r is Err ==> agrees_except(old(self).contents(), final(self).contents(), key@),
    ;

    /// Removes the artifact under `key`. Removing an absent one is a no-op
    /// that never fails; a failed removal changes nothing.
    fn remove(&mut self, key: &str) -> (r: Result<(), TaskError>)
        ensures
            r is Ok ==> final(self).contents() == old(self).contents().remove(key@),
            r is Err ==> final(self).contents() == old(self).contents(),
            !old(self).contents().contains_key(key@) ==> r is Ok,
    ;

    /// Whether an artifact exists under `key`.
    fn contains(&self, key: &str) -> (r: Result<bool, TaskError>)
        ensures
            r is Ok ==> r->Ok_0 == self.contents().contains_key(key@),
    ;
}

/// A fresh vector holding the bytes of `data`.
pub fn copy_bytes(data: &[u8]) -> (r: Vec<u8>)
    ensures
        r@ == data@,
{
    let mut r: Vec<u8> = Vec::new();
    let mut i: usize = 0;
    while i < data.len()
        invariant
            i <= data@.len(),
            r@ == data@.subrange(0, i as int),
        decreases data@.len() - i,
    {
        r.push(data[i]);
        i = i + 1;
    }
    assert(r@ =~= data@);
    r
}

/// A store held in memory: each address appears at most once.
pub struct MemStore {
    entries: Vec<(String, Vec<u8>)>,
}

spec fn keys_unique(e: Seq<(String, Vec<u8>)>) -> bool {
    forall|i: int, j: int| 0 <= i < j < e.len() ==> e[i].0@ != e[j].0@
}

spec fn holds_key(e: Seq<(String, Vec<u8>)>, k: Seq<char>) -> bool {
    exists|i: int| 0 <= i < e.len() && e[i].0@ == k
}

spec fn entries_view(e: Seq<(String, Vec<u8>)>) -> Map<Seq<char>, Seq<u8>> {
    Map::new(
        |k: Seq<char>| holds_key(e, k),
        |k: Seq<char>| e[choose|i: int| 0 <= i < e.len() && e[i].0@ == k].1@,
    )
}

proof fn lemma_entry_in_view(e: Seq<(String, Vec<u8>)>, j: int)
    requires
        keys_unique(e),
        0 <= j < e.len(),
    ensures
        entries_view(e).contains_key(e[j].0@),
        entries_view(e)[e[j].0@] == e[j].1@,
{
    let k = e[j].0@;
    assert(holds_key(e, k));
    let i = choose|i: int| 0 <= i < e.len() && e[i].0@ == k;
    assert(i == j);
}

impl MemStore {
    #[verifier::type_invariant]
    spec fn keys_are_unique(&self) -> bool {
        keys_unique(self.entries@)
    }

    /// An empty store.
    pub fn new() -> (r: MemStore)
        ensures
            r.contents() == Map::<Seq<char>, Seq<u8>>::empty(),
    {
        let r = MemStore { entries: Vec::new() };
        assert(r.contents() =~= Map::<Seq<char>, Seq<u8>>::empty());
        r
    }

    /// The position of `key` among the entries.
    fn position(&self, key: &str) -> (r: Option<usize>)
        ensures
            match r {
                Some(i) => i < self.entries@.len() && self.entries@[i as int].0@ == key@,
                None => !holds_key(self.entries@, key@),
            },
    {
        let wanted = String::from_str(key);
        let mut i: usize = 0;
        while i < self.entries.len()
            invariant
                i <= self.entries@.len(),
                wanted@ == key@,
                forall|j: int| 0 <= j < i ==> self.entries@[j].0@ != key@,
            decreases self.entries@.len() - i,
        {
            let same = self.entries[i].0.eq(&wanted);
            if same {
                return Some(i);
            }
            i = i + 1;
        }
        None
    }
}

impl Store for MemStore {
    closed spec fn contents(&self) -> Map<Seq<char>, Seq<u8>> {
        entries_view(self.entries@)
    }

    fn read(&self, key: &str) -> (r: Result<Vec<u8>, TaskError>)
        ensures
            self.contents().contains_key(key@) ==> r is Ok,
    {
        proof { use_type_invariant(self); }
        match self.position(key) {
            Some(i) => {
                proof { lemma_entry_in_view(self.entries@, i as int); }
                Ok(self.entries[i].1.clone())
            }
            None => Err(TaskError::NotFound(String::from_str(key))),
        }
    }

    fn write(&mut self, key: &str, data: &[u8]) -> (r: Result<(), TaskError>)
        ensures
            r is Ok,
    {
        proof { use_type_invariant(&*self); }
        let ghost before = self.entries@;
        let entry = (String::from_str(key), copy_bytes(data));
        let pos = self.position(key);
        let mut entries: Vec<(String, Vec<u8>)> = Vec::new();
        std::mem::swap(&mut self.entries, &mut entries);
        match pos {
            Some(i) => {
                entries.set(i, entry);
            }
            None => {
                entries.push(entry);
            }
        }
        let ghost after = entries@;
        assert(keys_unique(after));
        assert forall|k: Seq<char>|
            entries_view(after).contains_key(k) == entries_view(before).insert(key@, data@).contains_key(k)
            by {
            if k != key@ && holds_key(before, k) {
                let j = choose|j: int| 0 <= j < before.len() && before[j].0@ == k;
                assert(after[j] == before[j]);
            }
            if k != key@ && holds_key(after, k) {
                let j = choose|j: int| 0 <= j < after.len() && after[j].0@ == k;
                assert(after[j] == before[j]);
            }
            if k == key@ {
                let j = if pos is Some { pos->Some_0 as int } else { before.len() as int };
                assert(after[j].0@ == k);
            }
        }
        assert forall|k: Seq<char>| #[trigger] entries_view(after).contains_key(k)
            implies entries_view(after)[k] == entries_view(before).insert(key@, data@)[k]
            by {
            let j = choose|j: int| 0 <= j < after.len() && after[j].0@ == k;
            lemma_entry_in_view(after, j);
            if k != key@ {
                assert(after[j] == before[j]);
                lemma_entry_in_view(before, j);
            }
        }
        assert(entries_view(after) =~= entries_view(before).insert(key@, data@));
        self.entries = entries;
        Ok(())
    }

    fn remove(&mut self, key: &str) -> (r: Result<(), TaskError>)
        ensures
            r is Ok,
    {
        proof { use_type_invariant(&*self); }
        let ghost before = self.entries@;
        let pos = self.position(key);
        let mut entries: Vec<(String, Vec<u8>)> = Vec::new();
        std::mem::swap(&mut self.entries, &mut entries);
        match pos {
            Some(i) => {
                entries.remove(i);
            }
            None => {}
        }
        let ghost after = entries@;
        assert(keys_unique(after));
        assert forall|k: Seq<char>|
            entries_view(after).contains_key(k) == entries_view(before).remove(key@).contains_key(k)
            by {
            if holds_key(before, k) && k != key@ {
                let j = choose|j: int| 0 <= j < before.len() && before[j].0@ == k;
                if pos is Some && j > pos->Some_0 {
                    assert(after[j - 1] == before[j]);
                } else {
                    assert(after[j] == before[j]);
                }
            }
            if holds_key(after, k) {
                let j = choose|j: int| 0 <= j < after.len() && after[j].0@ == k;
                if pos is Some && j >= pos->Some_0 {
                    assert(after[j] == before[j + 1]);
                } else {
                    assert(after[j] == before[j]);
                }
            }
        }
        assert forall|k: Seq<char>| #[trigger] entries_view(after).contains_key(k)
            implies entries_view(after)[k] == entries_view(before).remove(key@)[k]
            by {
            let j = choose|j: int| 0 <= j < after.len() && after[j].0@ == k;
            lemma_entry_in_view(after, j);
            if pos is Some && j >= pos->Some_0 {
                assert(after[j] == before[j + 1]);
                lemma_entry_in_view(before, j + 1);
            } else {
                assert(after[j] == before[j]);
                lemma_entry_in_view(before, j);
            }
        }
        assert(entries_view(after) =~= entries_view(before).remove(key@));
        self.entries = entries;
        Ok(())
    }

    fn contains(&self, key: &str) -> (r: Result<bool, TaskError>)
        ensures
            r is Ok,
    {
        proof { use_type_invariant(self); }
        Ok(self.position(key).is_some())
    }
}

} // verus!
