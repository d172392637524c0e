//! The file-storage collaborator the file routes talk to, modelled as a
//! mapping from file names to byte contents.

use vstd::prelude::*;
use vstd::string::*;
use crate::headers::{
    assoc_insert, hmap, keys_unique, lemma_assoc_insert_absent, lemma_assoc_insert_found,
    lemma_assoc_insert_hmap, lemma_hmap_absent, lemma_hmap_at,
};
use crate::strutil::str_eq;

verus! {

/// The view of a raw entry vector.
spec fn entries_view(es: Seq<(String, Vec<u8>)>) -> Seq<(Seq<char>, Seq<u8>)> {
    Seq::new(es.len(), |i: int| (es[i].0@, es[i].1@))
}

/// A store of named byte contents. The meaning of a value of this type is
/// the mapping [`FileStorage::as_map`]: writing overwrites, reading looks
/// a name up.
#[derive(Debug)]
pub struct FileStorage {
    entries: Vec<(String, Vec<u8>)>,
}

impl View for FileStorage {
    type V = Seq<(Seq<char>, Seq<u8>)>;

    closed spec fn view(&self) -> Seq<(Seq<char>, Seq<u8>)> {
        entries_view(self.entries@)
    }
}

impl FileStorage {
    #[verifier::type_invariant]
    spec fn wf(&self) -> bool {
        keys_unique(self@)
    }

    /// The mapping this store denotes.
    pub open spec fn as_map(&self) -> Map<Seq<char>, Seq<u8>> {
        hmap(self@)
    }

    /// An empty store.
    pub fn new() -> (s: FileStorage)
        ensures
            s@ == Seq::<(Seq<char>, Seq<u8>)>::empty(),
            s.as_map() == Map::<Seq<char>, Seq<u8>>::empty(),
    {
        let s = FileStorage { entries: Vec::new() };
        proof {
            assert(s@ =~= Seq::<(Seq<char>, Seq<u8>)>::empty());
        }
        s
    }

    /// The contents stored under `name`, if any.
    pub fn read(&self, name: &str) -> (r: Option<Vec<u8>>)
        ensures
            match r {
                Some(b) => self.as_map().contains_key(name@) && b@ == self.as_map()[name@],
                None => !self.as_map().contains_key(name@),
            },
    {
        proof {
            use_type_invariant(&*self);
        }
        let n = self.entries.len();
        let mut i: usize = 0;
        while i < n
            invariant
                0 <= i <= n,
                n == self@.len(),
                keys_unique(self@),
                forall|j: int| 0 <= j < i ==> self@[j].0 != name@,
            decreases n - i,
        {
            if str_eq(self.entries[i].0.as_str(), name) {
                proof {
                    lemma_hmap_at(self@, i as int);
                }
                return Some(vstd::slice::slice_to_vec(self.entries[i].1.as_slice()));
            }
            i = i + 1;
        }
        proof {
            lemma_hmap_absent(self@, name@);
        }
        None
    }

    /// Stores `contents` under `name`, overwriting what was there.
    pub fn write(&mut self, name: &str, contents: &[u8])
        ensures
            final(self)@ == assoc_insert(old(self)@, name@, contents@),
            final(self).as_map() == old(self).as_map().insert(name@, contents@),
    {
        proof {
            use_type_invariant(&*self);
        }
        let ghost h0 = self@;
        let mut entries: Vec<(String, Vec<u8>)> = Vec::new();
        std::mem::swap(&mut entries, &mut self.entries);
        proof {
            assert(keys_unique(self@)) by {
                assert(self@ =~= Seq::<(Seq<char>, Seq<u8>)>::empty());
            }
        }
        let n = entries.len();
        let mut i: usize = 0;
        while i < n
            invariant
                0 <= i <= n,
                n == entries@.len(),
                entries_view(entries@) == h0,
                h0 == old(self)@,
                keys_unique(h0),
                forall|j: int| 0 <= j < i ==> h0[j].0 != name@,
            decreases n - i,
        {
            if str_eq(entries[i].0.as_str(), name) {
                proof {
                    lemma_assoc_insert_hmap(h0, name@, contents@);
                    lemma_assoc_insert_found(h0, name@, contents@, i as int);
                }
                let ghost p0 = entries@;
                entries.remove(i);
                entries.insert(i, (name.to_owned(), vstd::slice::slice_to_vec(contents)));
                proof {
                    let target = h0.update(i as int, (name@, contents@));
                    assert(entries@ =~= p0.update(i as int, entries@[i as int]));
                    assert forall|j: int| 0 <= j < entries@.len() implies entries_view(entries@)[j]
                        == target[j] by {
                        if j != i {
                            assert(entries@[j] == p0[j]);
                        }
                    }
                    assert(entries_view(entries@) =~= target);
                }
                self.entries = entries;
                return;
            }
            i = i + 1;
        }
        proof {
            lemma_assoc_insert_hmap(h0, name@, contents@);
            lemma_assoc_insert_absent(h0, name@, contents@);
        }
        entries.push((name.to_owned(), vstd::slice::slice_to_vec(contents)));
        proof {
            assert(entries_view(entries@) =~= h0.push((name@, contents@)));
        }
        self.entries = entries;
    }
}

} // verus!
