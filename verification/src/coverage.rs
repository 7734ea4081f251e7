//! Coverage sets: the files that contributed a node of the merge tree.

use vstd::prelude::*;

verus! {

/// The texts of a sequence of strings, in order.
pub open spec fn texts(names: Seq<String>) -> Seq<Seq<char>> {
    names.map_values(|s: String| s@)
}

/// The sets that a sequence of coverage sets stands for, in order.
pub open spec fn sets(coverages: Seq<Coverage>) -> Seq<Set<Seq<char>>> {
    coverages.map_values(|c: Coverage| c@)
}

/// A set of file identifiers.
///
/// The view is the mathematical set of the identifiers' texts. Each
/// identifier is stored once, in the order of first insertion.
pub struct Coverage {
    files: Vec<String>,
}

impl View for Coverage {
    type V = Set<Seq<char>>;

    closed spec fn view(&self) -> Set<Seq<char>> {
        texts(self.files@).to_set()
    }
}

impl Coverage {
    /// No identifier is stored twice.
    #[verifier::type_invariant]
    spec fn no_repeats(self) -> bool {
        texts(self.files@).no_duplicates()
    }

    /// A coverage set is always finite.
    pub proof fn lemma_finite(&self)
        ensures
            self@.finite(),
    {
        vstd::seq_lib::seq_to_set_is_finite(texts(self.files@));
    }

    /// The empty coverage set.
    pub fn new() -> (c: Coverage)
        ensures
            c@ == Set::<Seq<char>>::empty(),
    {
        let c = Coverage { files: Vec::new() };
        proof {
            assert(texts(c.files@) =~= Seq::<Seq<char>>::empty());
            assert(c@ =~= Set::<Seq<char>>::empty());
        }
        c
    }

    /// The coverage set that holds `file` alone.
    pub fn single(file: &String) -> (c: Coverage)
        ensures
            c@ == Set::<Seq<char>>::empty().insert(file@),
    {
        let mut c = Coverage::new();
        c.insert(file);
        c
    }

    /// The coverage set of the given identifiers; repeated ones count once.
    pub fn from_files(files: &Vec<String>) -> (c: Coverage)
        ensures
            c@ == texts(files@).to_set(),
    {
        let mut c = Coverage::new();
        let mut i: usize = 0;
        while i < files.len()
            invariant
                i <= files.len(),
                c@ == texts(files@).take(i as int).to_set(),
            decreases files.len() - i,
        {
            c.insert(&files[i]);
            proof {
                let t0 = texts(files@).take(i as int);
                let t1 = texts(files@).take(i as int + 1);
                let x0 = files@[i as int]@;
                assert(t1 =~= t0.push(x0));
                assert(c@ =~= t1.to_set()) by {
                    assert forall|x: Seq<char>| t1.contains(x) implies t0.contains(x) || x
                        == x0 by {
                        let k = choose|k: int| 0 <= k < t1.len() && t1[k] == x;
                        if k < i {
                            assert(t0[k] == x);
                        }
                    }
                    assert forall|x: Seq<char>| t0.contains(x) implies t1.contains(x) by {
                        let k = choose|k: int| 0 <= k < t0.len() && t0[k] == x;
                        assert(t1[k] == x);
                    }
                    assert(t1[i as int] == x0);
                }
            }
            i += 1;
        }
        proof {
            assert(texts(files@).take(i as int) =~= texts(files@));
        }
        c
    }

    /// Whether `file` is in the set.
    pub fn contains(&self, file: &String) -> (found: bool)
        ensures
            found == self@.contains(file@),
    {
        let mut i: usize = 0;
        while i < self.files.len()
            invariant
                i <= self.files.len(),
                forall|j: int| 0 <= j < i ==> texts(self.files@)[j] != file@,
            decreases self.files.len() - i,
        {
            if self.files[i] == *file {
                proof {
                    assert(texts(self.files@)[i as int] == file@);
                }
                return true;
            }
            i += 1;
        }
        false
    }

    /// Adds `file` to the set; a file that is already there changes nothing.
    pub fn insert(&mut self, file: &String)
        ensures
            final(self)@ == old(self)@.insert(file@),
    {
        proof {
            use_type_invariant(&*self);
        }
        if !self.contains(file) {
            let mut files: Vec<String> = Vec::new();
            core::mem::swap(&mut files, &mut self.files);
            files.push(file.clone());
            proof {
                let before = texts(old(self).files@);
                let after = texts(files@);
                assert(after =~= before.push(file@));
                assert(after.to_set() =~= old(self)@.insert(file@)) by {
                    assert forall|x: Seq<char>| after.contains(x) implies before.contains(x) || x
                        == file@ by {
                        let k = choose|k: int| 0 <= k < after.len() && after[k] == x;
                        if k < before.len() {
                            assert(before[k] == x);
                        }
                    }
                    assert forall|x: Seq<char>| before.contains(x) implies after.contains(x) by {
                        let k = choose|k: int| 0 <= k < before.len() && before[k] == x;
                        assert(after[k] == x);
                    }
                    assert(after[before.len() as int] == file@);
                }
            }
            self.files = files;
        } else {
            proof {
                assert(self@ =~= old(self)@.insert(file@));
            }
        }
    }

    /// The number of files in the set.
    pub fn len(&self) -> (n: usize)
        ensures
            n == self@.len(),
    {
        proof {
            use_type_invariant(self);
            texts(self.files@).unique_seq_to_set();
        }
        self.files.len()
    }

    /// Whether every file of `other` is in this set.
    pub fn is_superset(&self, other: &Coverage) -> (b: bool)
        ensures
            b == other@.subset_of(self@),
    {
        let mut i: usize = 0;
        while i < other.files.len()
            invariant
                i <= other.files.len(),
                forall|j: int| 0 <= j < i ==> self@.contains(texts(other.files@)[j]),
            decreases other.files.len() - i,
        {
            if !self.contains(&other.files[i]) {
                proof {
                    assert(texts(other.files@)[i as int] == other.files@[i as int]@);
                    assert(other@.contains(other.files@[i as int]@));
                }
                return false;
            }
            i += 1;
        }
        true
    }

    /// Whether both sets hold the same files.
    pub fn same_as(&self, other: &Coverage) -> (b: bool)
        ensures
            b == (self@ == other@),
    {
        let b = self.is_superset(other) && other.is_superset(self);
        proof {
            if b {
                assert(self@ =~= other@);
            }
        }
        b
    }

    /// The files of the set, each once.
    pub fn files(&self) -> (names: &Vec<String>)
        ensures
            texts(names@).to_set() == self@,
            texts(names@).no_duplicates(),
    {
        proof {
            use_type_invariant(self);
        }
        &self.files
    }
}

impl Clone for Coverage {
    fn clone(&self) -> (c: Coverage)
        ensures
            c@ == self@,
    {
        proof {
            use_type_invariant(self);
        }
        let mut files: Vec<String> = Vec::new();
        let mut i: usize = 0;
        while i < self.files.len()
            invariant
                i <= self.files.len(),
                texts(files@) == texts(self.files@).take(i as int),
            decreases self.files.len() - i,
        {
            let ghost before = files@;
            files.push(self.files[i].clone());
            proof {
                assert(texts(files@) =~= texts(before).push(self.files@[i as int]@));
                assert(texts(files@) =~= texts(self.files@).take(i as int + 1));
            }
            i += 1;
        }
        proof {
            assert(texts(self.files@).take(i as int) =~= texts(self.files@));
        }
        Coverage { files }
    }
}

} // verus!
