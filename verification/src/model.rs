//! The mathematical model of the merge tree, and what ingestion, combination
//! discovery and reconstruction compute on it.

use crate::document::DocumentView;
use crate::yaml::same_value;
use serde_yaml::Value;
use vstd::prelude::*;

verus! {

/// A leaf: one value reached at a path, and the files that gave exactly it.
pub ghost struct LeafView {
    pub present_in: Set<Seq<char>>,
    pub value: Value,
}

/// An intermediate node: one mapping key, the files whose documents hold
/// that key at this path, and what lies below the key.
pub ghost struct IntermediateView {
    pub key: Seq<char>,
    pub present_in: Set<Seq<char>>,
    pub node: BranchView,
}

/// What a root or an intermediate node owns: the leaves attached to it
/// directly, and one child for each key below it, in order of first arrival.
pub ghost struct BranchView {
    pub values: Seq<LeafView>,
    pub children: Seq<IntermediateView>,
}

impl BranchView {
    /// The branch with no leaf and no child.
    pub open spec fn empty() -> BranchView {
        BranchView { values: Seq::empty(), children: Seq::empty() }
    }

    /// Whether `i` is the place of the first leaf whose value counts as
    /// `value`.
    pub open spec fn is_leaf_for(self, value: Value, i: int) -> bool {
        &&& 0 <= i < self.values.len()
        &&& same_value(self.values[i].value, value)
        &&& forall|j: int| 0 <= j < i ==> !same_value((#[trigger] self.values[j]).value, value)
    }

    /// The place of the first leaf whose value counts as `value`, if any.
    pub open spec fn leaf_for(self, value: Value) -> Option<int> {
        if exists|i: int| self.is_leaf_for(value, i) {
            Some(choose|i: int| self.is_leaf_for(value, i))
        } else {
            None
        }
    }

    /// Whether `i` is the place of the first child with key `key`.
    pub open spec fn is_child_for(self, key: Seq<char>, i: int) -> bool {
        &&& 0 <= i < self.children.len()
        &&& self.children[i].key == key
        &&& forall|j: int| 0 <= j < i ==> (#[trigger] self.children[j]).key != key
    }

    /// The place of the first child with key `key`, if any.
    pub open spec fn child_for(self, key: Seq<char>) -> Option<int> {
        if exists|i: int| self.is_child_for(key, i) {
            Some(choose|i: int| self.is_child_for(key, i))
        } else {
            None
        }
    }

    /// Whether `i` is the place of the first leaf whose coverage is exactly
    /// `combo`.
    pub open spec fn is_match_for(self, combo: Set<Seq<char>>, i: int) -> bool {
        &&& 0 <= i < self.values.len()
        &&& self.values[i].present_in == combo
        &&& forall|j: int| 0 <= j < i ==> (#[trigger] self.values[j]).present_in != combo
    }

    /// The place of the first leaf whose coverage is exactly `combo`, if any.
    pub open spec fn match_for(self, combo: Set<Seq<char>>) -> Option<int> {
        if exists|i: int| self.is_match_for(combo, i) {
            Some(choose|i: int| self.is_match_for(combo, i))
        } else {
            None
        }
    }

    /// The branch after `file` gave the leaf `value` here: the first leaf
    /// with that value also covers `file`; if there is none, a new leaf with
    /// coverage `{file}` comes last.
    pub open spec fn add_leaf(self, file: Seq<char>, value: Value) -> BranchView {
        match self.leaf_for(value) {
            Some(i) => BranchView {
                values: self.values.update(
                    i,
                    LeafView { present_in: self.values[i].present_in.insert(file), ..self.values[i] },
                ),
                ..self
            },
            None => BranchView {
                values: self.values.push(
                    LeafView { present_in: Set::<Seq<char>>::empty().insert(file), value },
                ),
                ..self
            },
        }
    }

    /// The place of the child for `key` once `add_intermediate` has run.
    pub open spec fn child_place(self, key: Seq<char>) -> int {
        match self.child_for(key) {
            Some(i) => i,
            None => self.children.len() as int,
        }
    }

    /// The branch after `file` gave the key `key` here: the child with that
    /// key also covers `file`; if there is none, a new child with coverage
    /// `{file}` and nothing below it comes last.
    pub open spec fn add_intermediate(self, file: Seq<char>, key: Seq<char>) -> BranchView {
        match self.child_for(key) {
            Some(i) => BranchView {
                children: self.children.update(
                    i,
                    IntermediateView {
                        present_in: self.children[i].present_in.insert(file),
                        ..self.children[i]
                    },
                ),
                ..self
            },
            None => BranchView {
                children: self.children.push(
                    IntermediateView {
                        key,
                        present_in: Set::<Seq<char>>::empty().insert(file),
                        node: BranchView::empty(),
                    },
                ),
                ..self
            },
        }
    }

    /// The branch with what lies below its `i`-th child replaced by `node`.
    pub open spec fn with_below(self, i: int, node: BranchView) -> BranchView {
        BranchView {
            children: self.children.update(i, IntermediateView { node, ..self.children[i] }),
            ..self
        }
    }

    /// The branch after the document `doc` of `file` was ingested here.
    pub open spec fn ingest(self, file: Seq<char>, doc: DocumentView) -> BranchView
        decreases doc, 0nat,
    {
        match doc {
            DocumentView::Leaf(value) => self.add_leaf(file, value),
            DocumentView::Mapping(entries) => self.ingest_entries(file, entries, entries.len()),
        }
    }

    /// The branch after the first `n` of `entries` were ingested, in order.
    pub open spec fn ingest_entries(
        self,
        file: Seq<char>,
        entries: Seq<(Seq<char>, DocumentView)>,
        n: nat,
    ) -> BranchView
        decreases entries, n,
    {
        if n == 0 || n > entries.len() {
            self
        } else {
            self.ingest_entries(file, entries, (n - 1) as nat).ingest_entry(
                file,
                entries[n - 1].0,
                entries[n - 1].1,
            )
        }
    }

    /// The branch after one entry of a mapping was ingested: the key's child
    /// covers `file`, and `doc` is ingested below it.
    pub open spec fn ingest_entry(self, file: Seq<char>, key: Seq<char>, doc: DocumentView) -> BranchView
        decreases doc, 1nat,
    {
        let touched = self.add_intermediate(file, key);
        let i = self.child_place(key);
        touched.with_below(i, touched.children[i].node.ingest(file, doc))
    }

    /// Where ingesting `doc` here first meets a conflict of kinds: the keys
    /// that lead from this branch to a node that would hold both leaves and
    /// children; `None` if the document fits.
    ///
    /// A leaf does not fit a node that has children, and an entry of a
    /// mapping does not fit a node that has leaves. A mapping without entries
    /// fits everywhere.
    pub open spec fn conflict(self, file: Seq<char>, doc: DocumentView) -> Option<Seq<Seq<char>>>
        decreases doc, 0nat,
    {
        match doc {
            DocumentView::Leaf(_) => if self.children.len() > 0 {
                Some(Seq::empty())
            } else {
                None
            },
            DocumentView::Mapping(entries) => self.conflict_entries(file, entries, entries.len()),
        }
    }

    /// The first conflict among the first `n` of `entries`, each one held
    /// against the branch as the entries before it have left it.
    pub open spec fn conflict_entries(
        self,
        file: Seq<char>,
        entries: Seq<(Seq<char>, DocumentView)>,
        n: nat,
    ) -> Option<Seq<Seq<char>>>
        decreases entries, n,
    {
        if n == 0 || n > entries.len() {
            None
        } else {
            match self.conflict_entries(file, entries, (n - 1) as nat) {
                Some(path) => Some(path),
                None => self.ingest_entries(file, entries, (n - 1) as nat).conflict_entry(
                    file,
                    entries[n - 1].0,
                    entries[n - 1].1,
                ),
            }
        }
    }

    /// The conflict that one entry of a mapping meets here, if any.
    pub open spec fn conflict_entry(self, file: Seq<char>, key: Seq<char>, doc: DocumentView) -> Option<
        Seq<Seq<char>>,
    >
        decreases doc, 1nat,
    {
        if self.values.len() > 0 {
            Some(Seq::empty())
        } else {
            let touched = self.add_intermediate(file, key);
            match touched.children[self.child_place(key)].node.conflict(file, doc) {
                Some(path) => Some(seq![key] + path),
                None => None,
            }
        }
    }

    /// The branch as an ingestion that stops at the first conflict leaves
    /// it: with the whole document ingested if nothing conflicts, and else
    /// with what was ingested before the conflict was met.
    pub open spec fn attempt(self, file: Seq<char>, doc: DocumentView) -> BranchView
        decreases doc, 0nat,
    {
        match doc {
            DocumentView::Leaf(value) => if self.children.len() > 0 {
                self
            } else {
                self.add_leaf(file, value)
            },
            DocumentView::Mapping(entries) => self.attempt_entries(file, entries, entries.len()),
        }
    }

    /// The branch after the first `n` of `entries` were tried in order.
    pub open spec fn attempt_entries(
        self,
        file: Seq<char>,
        entries: Seq<(Seq<char>, DocumentView)>,
        n: nat,
    ) -> BranchView
        decreases entries, n,
    {
        if n == 0 || n > entries.len() {
            self
        } else {
            let before = self.attempt_entries(file, entries, (n - 1) as nat);
            if self.conflict_entries(file, entries, (n - 1) as nat).is_some() {
                before
            } else {
                before.attempt_entry(file, entries[n - 1].0, entries[n - 1].1)
            }
        }
    }

    /// The branch after one entry of a mapping was tried: a node with leaves
    /// is left alone; else the key's child covers `file`, and `doc` is tried
    /// below it.
    pub open spec fn attempt_entry(self, file: Seq<char>, key: Seq<char>, doc: DocumentView) -> BranchView
        decreases doc, 1nat,
    {
        if self.values.len() > 0 {
            self
        } else {
            let touched = self.add_intermediate(file, key);
            let i = self.child_place(key);
            touched.with_below(i, touched.children[i].node.attempt(file, doc))
        }
    }

    /// The coverage sets of all leaves of the branch: those of its own
    /// leaves first, followed by those below each child, child by child.
    pub open spec fn leaf_sets(self) -> Seq<Set<Seq<char>>>
        decreases self, self.children.len() + 1,
    {
        self.values.map_values(|leaf: LeafView| leaf.present_in) + self.leaf_sets_below(
            self.children.len(),
        )
    }

    /// The coverage sets of all leaves below the first `n` children.
    pub open spec fn leaf_sets_below(self, n: nat) -> Seq<Set<Seq<char>>>
        decreases self, n,
    {
        if n == 0 || n > self.children.len() {
            Seq::empty()
        } else {
            self.leaf_sets_below((n - 1) as nat) + self.children[n - 1].node.leaf_sets()
        }
    }

    /// The view of the branch for the combination `combo`.
    ///
    /// The first leaf attached here whose coverage is exactly `combo` gives
    /// its value. Without such a leaf the view is the mapping of the children
    /// whose coverage encloses `combo` and that have a view themselves, and
    /// there is no view if that mapping is empty.
    pub open spec fn view_of(self, combo: Set<Seq<char>>) -> Option<DocumentView>
        decreases self, self.children.len() + 1,
    {
        match self.match_for(combo) {
            Some(i) => Some(DocumentView::Leaf(self.values[i].value)),
            None => {
                let entries = self.views_below(combo, self.children.len());
                if entries.len() > 0 {
                    Some(DocumentView::Mapping(entries))
                } else {
                    None
                }
            },
        }
    }

    /// The entries that the first `n` children give to the view for `combo`.
    pub open spec fn views_below(self, combo: Set<Seq<char>>, n: nat) -> Seq<
        (Seq<char>, DocumentView),
    >
        decreases self, n,
    {
        if n == 0 || n > self.children.len() {
            Seq::empty()
        } else {
            let before = self.views_below(combo, (n - 1) as nat);
            let child = self.children[n - 1];
            if combo.subset_of(child.present_in) {
                match child.node.view_of(combo) {
                    Some(below) => before.push((child.key, below)),
                    None => before,
                }
            } else {
                before
            }
        }
    }

    /// The first leaf that counts as `value` is the one that `leaf_for` finds.
    pub proof fn lemma_leaf_for_found(self, value: Value, i: int)
        requires
            self.is_leaf_for(value, i),
        ensures
            self.leaf_for(value) == Some(i),
    {
    }

    /// Where no leaf counts as `value`, `leaf_for` finds none.
    pub proof fn lemma_leaf_for_missing(self, value: Value)
        requires
            forall|j: int| 0 <= j < self.values.len() ==> !same_value(
                (#[trigger] self.values[j]).value,
                value,
            ),
        ensures
            self.leaf_for(value).is_none(),
    {
    }

    /// The first child with key `key` is the one that `child_for` finds.
    pub proof fn lemma_child_for_found(self, key: Seq<char>, i: int)
        requires
            self.is_child_for(key, i),
        ensures
            self.child_for(key) == Some(i),
    {
    }

    /// Where no child has key `key`, `child_for` finds none.
    pub proof fn lemma_child_for_missing(self, key: Seq<char>)
        requires
            forall|j: int| 0 <= j < self.children.len() ==> (#[trigger] self.children[j]).key != key,
        ensures
            self.child_for(key).is_none(),
    {
    }

    /// The first leaf with coverage `combo` is the one that `match_for` finds.
    pub proof fn lemma_match_for_found(self, combo: Set<Seq<char>>, i: int)
        requires
            self.is_match_for(combo, i),
        ensures
            self.match_for(combo) == Some(i),
    {
    }

    /// Where no leaf has coverage `combo`, `match_for` finds none.
    pub proof fn lemma_match_for_missing(self, combo: Set<Seq<char>>)
        requires
            forall|j: int| 0 <= j < self.values.len() ==> (#[trigger] self.values[j]).present_in
                != combo,
        ensures
            self.match_for(combo).is_none(),
    {
    }

    /// A conflict among the first `n` entries is the conflict of any longer
    /// run of the entries.
    pub proof fn lemma_conflict_entries_stays(
        self,
        file: Seq<char>,
        entries: Seq<(Seq<char>, DocumentView)>,
        n: nat,
        m: nat,
    )
        requires
            n <= m <= entries.len(),
            self.conflict_entries(file, entries, n).is_some(),
        ensures
            self.conflict_entries(file, entries, m) == self.conflict_entries(file, entries, n),
        decreases m,
    {
        if n < m {
            self.lemma_conflict_entries_stays(file, entries, n, (m - 1) as nat);
        }
    }

    /// Whether every leaf at or below this branch has its coverage within
    /// `cover`.
    pub open spec fn covered_by(self, cover: Set<Seq<char>>) -> bool
        decreases self,
    {
        &&& forall|i: int|
            0 <= i < self.values.len() ==> (#[trigger] self.values[i]).present_in.subset_of(cover)
        &&& forall|i: int|
            0 <= i < self.children.len() ==> (#[trigger] self.children[i]).node.covered_by(cover)
    }

    /// The invariant of the merge tree, at this branch and below it:
    /// every leaf and every intermediate node is covered by some file;
    /// no two leaves of one node hold equal values;
    /// no two children of one node have the same key;
    /// every file in the coverage of a leaf is in the coverage of every
    /// intermediate node above that leaf.
    pub open spec fn sound(self) -> bool
        decreases self,
    {
        &&& forall|i: int|
            0 <= i < self.values.len() ==> !(#[trigger] self.values[i]).present_in.is_empty()
        &&& forall|i: int, j: int|
            0 <= i < j < self.values.len() ==> !same_value(
                (#[trigger] self.values[i]).value,
                (#[trigger] self.values[j]).value,
            )
        &&& forall|i: int, j: int|
            0 <= i < j < self.children.len() ==> (#[trigger] self.children[i]).key != (
            #[trigger] self.children[j]).key
        &&& forall|i: int|
            0 <= i < self.children.len() ==> {
                &&& !(#[trigger] self.children[i]).present_in.is_empty()
                &&& self.children[i].node.covered_by(self.children[i].present_in)
                &&& self.children[i].node.sound()
            }
    }

    /// Whether no node, here or below, holds both leaves and children.
    pub open spec fn unambiguous(self) -> bool
        decreases self,
    {
        &&& self.values.len() == 0 || self.children.len() == 0
        &&& forall|i: int|
            0 <= i < self.children.len() ==> (#[trigger] self.children[i]).node.unambiguous()
    }

    /// Whether some leaf at or below this branch has the value `value` and
    /// exactly the coverage `combo`.
    pub open spec fn has_leaf(self, combo: Set<Seq<char>>, value: Value) -> bool
        decreases self,
    {
        ||| exists|i: int|
            0 <= i < self.values.len() && (#[trigger] self.values[i]).present_in == combo
                && self.values[i].value == value
        ||| exists|m: int|
            0 <= m < self.children.len() && (#[trigger] self.children[m]).node.has_leaf(
                combo,
                value,
            )
    }

    /// The tree of one document of one file: every leaf and every key of the
    /// document, each covered by that file alone.
    pub open spec fn alone(file: Seq<char>, doc: DocumentView) -> BranchView
        decreases doc,
    {
        match doc {
            DocumentView::Leaf(value) => BranchView {
                values: seq![LeafView { present_in: Set::<Seq<char>>::empty().insert(file), value }],
                children: Seq::empty(),
            },
            DocumentView::Mapping(entries) => BranchView {
                values: Seq::empty(),
                children: Seq::new(
                    entries.len(),
                    |i: int|
                        if 0 <= i < entries.len() {
                            IntermediateView {
                                key: entries[i].0,
                                present_in: Set::<Seq<char>>::empty().insert(file),
                                node: BranchView::alone(file, entries[i].1),
                            }
                        } else {
                            arbitrary()
                        },
                ),
            },
        }
    }

    /// Whether the branch holds the document `doc` of `file` already: every
    /// key of the document has its child here, every leaf of the document
    /// has its leaf, and each of them covers `file`.
    pub open spec fn holds(self, file: Seq<char>, doc: DocumentView) -> bool
        decreases doc, 0nat,
    {
        match doc {
            DocumentView::Leaf(value) => match self.leaf_for(value) {
                Some(i) => self.values[i].present_in.contains(file),
                None => false,
            },
            DocumentView::Mapping(entries) => forall|k: int|
                #![trigger entries[k]]
                0 <= k < entries.len() ==> self.holds_entry(file, entries[k].0, entries[k].1),
        }
    }

    /// Whether the branch holds one entry of a mapping of `file` already.
    pub open spec fn holds_entry(self, file: Seq<char>, key: Seq<char>, doc: DocumentView) -> bool
        decreases doc, 1nat,
    {
        match self.child_for(key) {
            Some(i) => self.children[i].present_in.contains(file) && self.children[i].node.holds(
                file,
                doc,
            ),
            None => false,
        }
    }

    /// Whether this branch is `base` grown: every leaf and every child of
    /// `base` is in its place here, with a coverage that lost no file, and
    /// new leaves and children come after them.
    pub open spec fn extends(self, base: BranchView) -> bool
        decreases base,
    {
        &&& base.values.len() <= self.values.len()
        &&& forall|i: int|
            0 <= i < base.values.len() ==> {
                &&& (#[trigger] self.values[i]).value == base.values[i].value
                &&& base.values[i].present_in.subset_of(self.values[i].present_in)
            }
        &&& base.children.len() <= self.children.len()
        &&& forall|i: int|
            0 <= i < base.children.len() ==> {
                &&& (#[trigger] self.children[i]).key == base.children[i].key
                &&& base.children[i].present_in.subset_of(self.children[i].present_in)
                &&& self.children[i].node.extends(base.children[i].node)
            }
    }
}

} // verus!
