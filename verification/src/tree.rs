//! The merge tree: ingestion, combination discovery and reconstruction.

use crate::combos::{combinations_of, lists_combinations};
use crate::coverage::{sets, texts, Coverage};
use crate::document::{Document, DocumentView, LeafValue};
use crate::error::SchemaError;
use crate::invariants::{
    lemma_attempt_entries_stays, lemma_ingest_sound, lemma_ingest_unambiguous,
};
use crate::model::{BranchView, IntermediateView, LeafView};
use crate::views::{lemma_combination_has_view, lemma_view_keys_distinct};
use crate::yaml::same_value;
use vstd::prelude::*;

verus! {

/// A leaf of the merge tree: one value, merged over the files that gave it.
pub struct Leaf {
    present_in: Coverage,
    value: LeafValue,
}

/// An intermediate node: one mapping key with what lies below it.
pub struct Intermediate {
    key: String,
    present_in: Coverage,
    node: Branch,
}

/// What the root and every intermediate node own: leaves and keyed children.
pub struct Branch {
    values: Vec<Leaf>,
    children: Vec<Intermediate>,
}

impl Leaf {
    /// The model of the leaf.
    pub closed spec fn view(&self) -> LeafView {
        LeafView { present_in: self.present_in@, value: self.value@ }
    }

    /// The files that gave this leaf's value.
    pub fn present_in(&self) -> (coverage: &Coverage)
        ensures
            coverage@ == self@.present_in,
    {
        &self.present_in
    }

    /// The value of the leaf.
    pub fn leaf_value(&self) -> (value: &LeafValue)
        ensures
            value@ == self@.value,
    {
        &self.value
    }

    /// The view of the leaf for the combination `combo`: its value if its
    /// coverage is exactly `combo`, and nothing for any other combination,
    /// be it a part of the coverage or one that encloses it.
    pub fn build_combo(&self, combo: &Coverage) -> (r: Option<Document>)
        ensures
            r.is_some() <==> self@.present_in == combo@,
            r.is_some() ==> r.unwrap()@ == DocumentView::Leaf(self@.value),
    {
        if self.present_in.same_as(combo) {
            Some(Document::Leaf(self.value.clone()))
        } else {
            None
        }
    }
}

impl Intermediate {
    /// The model of the node.
    pub closed spec fn view(&self) -> IntermediateView
        decreases self,
    {
        IntermediateView { key: self.key@, present_in: self.present_in@, node: self.node.view() }
    }

    /// The mapping key that the node stands for.
    pub fn key(&self) -> (key: &String)
        ensures
            key@ == self@.key,
    {
        &self.key
    }

    /// The files whose documents hold the node's key at this path.
    pub fn present_in(&self) -> (coverage: &Coverage)
        ensures
            coverage@ == self@.present_in,
    {
        &self.present_in
    }

    /// What lies below the node's key.
    pub fn node(&self) -> (node: &Branch)
        ensures
            node@ == self@.node,
    {
        &self.node
    }
}

impl Branch {
    /// The model of the branch.
    pub closed spec fn view(&self) -> BranchView
        decreases self,
    {
        BranchView {
            values: Seq::new(self.values@.len(), |i: int| self.values@[i].view()),
            children: Seq::new(
                self.children@.len(),
                |i: int|
                    if 0 <= i < self.children@.len() {
                        self.children@[i].view()
                    } else {
                        arbitrary()
                    },
            ),
        }
    }

    /// The branch with no leaf and no child.
    pub fn new() -> (branch: Branch)
        ensures
            branch@ == BranchView::empty(),
    {
        let branch = Branch { values: Vec::new(), children: Vec::new() };
        proof {
            assert(branch@.values =~= Seq::empty());
            assert(branch@.children =~= Seq::empty());
        }
        branch
    }

    /// The leaves attached to the branch directly.
    pub fn values(&self) -> (leaves: &Vec<Leaf>)
        ensures
            leaves@.len() == self@.values.len(),
            forall|i: int| 0 <= i < leaves@.len() ==> (#[trigger] leaves@[i])@ == self@.values[i],
    {
        &self.values
    }

    /// The children of the branch, one for each key.
    pub fn children(&self) -> (nodes: &Vec<Intermediate>)
        ensures
            nodes@.len() == self@.children.len(),
            forall|i: int| 0 <= i < nodes@.len() ==> (#[trigger] nodes@[i])@ == self@.children[i],
    {
        &self.children
    }

    /// Records that `file` gave the leaf `leaf_value` here.
    ///
    /// If a leaf with an equal value is attached already, the first such leaf
    /// also covers `file` and the result is `None`. Otherwise a new leaf with
    /// coverage `{file}` is attached last, and the result is its place.
    pub fn add_leaf_node(&mut self, file: &String, leaf_value: LeafValue) -> (created: Option<usize>)
        ensures
            final(self)@ == old(self)@.add_leaf(file@, leaf_value@),
            match created {
                Some(place) => old(self)@.leaf_for(leaf_value@).is_none() && place == old(
                    self,
                )@.values.len(),
                None => old(self)@.leaf_for(leaf_value@).is_some(),
            },
    {
        let mut i: usize = 0;
        while i < self.values.len()
            invariant
                i <= self.values.len(),
                *self == *old(self),
                forall|j: int|
                    0 <= j < i ==> !same_value(
                        (#[trigger] self@.values[j]).value,
                        leaf_value@,
                    ),
            decreases self.values.len() - i,
        {
            if self.values[i].value.equals(&leaf_value) {
                proof {
                    old(self)@.lemma_leaf_for_found(leaf_value@, i as int);
                }
                self.values[i].present_in.insert(file);
                proof {
                    assert(self@.values =~= old(self)@.add_leaf(file@, leaf_value@).values);
                }
                return None;
            }
            i += 1;
        }
        let place: usize = self.values.len();
        self.values.push(Leaf { present_in: Coverage::single(file), value: leaf_value });
        proof {
            assert(self@.values =~= old(self)@.add_leaf(file@, leaf_value@).values);
        }
        Some(place)
    }

    /// Records that `file` gave the key `key` here, and says where the
    /// key's child is.
    ///
    /// The child with that key also covers `file`; if there is none, a new
    /// child with coverage `{file}` and nothing below it is attached last.
    pub fn add_intermediate_node(&mut self, file: &String, key: &String) -> (place: usize)
        ensures
            final(self)@ == old(self)@.add_intermediate(file@, key@),
            place == old(self)@.child_place(key@),
            place < final(self)@.children.len(),
    {
        let mut i: usize = 0;
        while i < self.children.len()
            invariant
                i <= self.children.len(),
                *self == *old(self),
                forall|j: int| 0 <= j < i ==> (#[trigger] self@.children[j]).key != key@,
            decreases self.children.len() - i,
        {
            if self.children[i].key == *key {
                proof {
                    old(self)@.lemma_child_for_found(key@, i as int);
                }
                self.children[i].present_in.insert(file);
                proof {
                    assert(self@.children =~= old(self)@.add_intermediate(file@, key@).children);
                }
                return i;
            }
            i += 1;
        }
        let place: usize = self.children.len();
        self.children.push(
            Intermediate {
                key: key.clone(),
                present_in: Coverage::single(file),
                node: Branch::new(),
            },
        );
        proof {
            assert(self@.children =~= old(self)@.add_intermediate(file@, key@).children);
        }
        place
    }

    /// Ingests the document `content` of `file` into the branch.
    ///
    /// A leaf is recorded here; each entry of a mapping is recorded as a
    /// child, and what the entry holds is ingested below that child. A leaf
    /// does not fit a node that has children, nor an entry a node that has
    /// leaves: the walk stops at the first such conflict and returns the keys
    /// that lead to it from this branch, and the branch keeps what was
    /// ingested until then.
    pub fn collect(&mut self, file: &String, content: &Document) -> (r: Result<(), Vec<String>>)
        ensures
            final(self)@ == old(self)@.attempt(file@, content@),
            match r {
                Ok(_) => {
                    &&& old(self)@.conflict(file@, content@).is_none()
                    &&& final(self)@ == old(self)@.ingest(file@, content@)
                },
                Err(path) => old(self)@.conflict(file@, content@) == Some(texts(path@)),
            },
        decreases content,
    {
        match content {
            Document::Leaf(leaf) => {
                if self.children.len() > 0 {
                    let path: Vec<String> = Vec::new();
                    return Err(path);
                }
                self.add_leaf_node(file, leaf.clone());
                Ok(())
            },
            Document::Mapping(entries) => {
                let ghost es = content@->Mapping_0;
                let mut i: usize = 0;
                while i < entries.len()
                    invariant
                        i <= entries.len(),
                        *content == Document::Mapping(*entries),
                        content@ == DocumentView::Mapping(es),
                        es.len() == entries@.len(),
                        forall|j: int|
                            0 <= j < es.len() ==> #[trigger] es[j] == (
                                entries@[j].0@,
                                entries@[j].1@,
                            ),
                        old(self)@.conflict_entries(file@, es, i as nat).is_none(),
                        self@ == old(self)@.ingest_entries(file@, es, i as nat),
                        self@ == old(self)@.attempt_entries(file@, es, i as nat),
                    decreases entries.len() - i,
                {
                    let ghost before = self@;
                    let ghost key = es[i as int].0;
                    let ghost doc = es[i as int].1;
                    if self.values.len() > 0 {
                        let path: Vec<String> = Vec::new();
                        proof {
                            assert(before.conflict_entry(file@, key, doc) == Some(
                                Seq::<Seq<char>>::empty(),
                            ));
                            assert(before.attempt_entry(file@, key, doc) == before);
                            old(self)@.lemma_conflict_entries_stays(
                                file@,
                                es,
                                (i + 1) as nat,
                                es.len(),
                            );
                            lemma_attempt_entries_stays(
                                old(self)@,
                                file@,
                                es,
                                (i + 1) as nat,
                                es.len(),
                            );
                        }
                        return Err(path);
                    }
                    let place = self.add_intermediate_node(file, &entries[i].0);
                    let ghost touched = self@;
                    let below = self.children[place].node.collect(file, &entries[i].1);
                    proof {
                        let after = touched.with_below(
                            place as int,
                            touched.children[place as int].node.attempt(file@, doc),
                        );
                        assert(self@.children =~= after.children);
                        assert(self@ == before.attempt_entry(file@, key, doc));
                    }
                    match below {
                        Ok(_) => {
                            proof {
                                assert(self@ == before.ingest_entry(file@, key, doc));
                            }
                        },
                        Err(path) => {
                            let mut path = path;
                            path.insert(0, entries[i].0.clone());
                            proof {
                                old(self)@.lemma_conflict_entries_stays(
                                    file@,
                                    es,
                                    (i + 1) as nat,
                                    es.len(),
                                );
                                lemma_attempt_entries_stays(
                                    old(self)@,
                                    file@,
                                    es,
                                    (i + 1) as nat,
                                    es.len(),
                                );
                            }
                            return Err(path);
                        },
                    }
                    i += 1;
                }
                Ok(())
            },
        }
    }

    /// The view of the branch for the combination `combo`.
    ///
    /// The first leaf attached here whose coverage is exactly `combo` gives
    /// its value. Without such a leaf the view is the mapping of those
    /// children whose coverage encloses `combo` and that have a view
    /// themselves; if there is no such child there is no view.
    pub fn build_combo(&self, combo: &Coverage) -> (r: Option<Document>)
        ensures
            match r {
                Some(document) => self@.view_of(combo@) == Some(document@),
                None => self@.view_of(combo@).is_none(),
            },
        decreases self,
    {
        let mut i: usize = 0;
        while i < self.values.len()
            invariant
                i <= self.values.len(),
                forall|j: int| 0 <= j < i ==> (#[trigger] self@.values[j]).present_in != combo@,
            decreases self.values.len() - i,
        {
            match self.values[i].build_combo(combo) {
                Some(document) => {
                    proof {
                        self@.lemma_match_for_found(combo@, i as int);
                    }
                    return Some(document);
                },
                None => {},
            }
            i += 1;
        }
        let mut result: Vec<(String, Document)> = Vec::new();
        let mut k: usize = 0;
        while k < self.children.len()
            invariant
                k <= self.children.len(),
                result@.len() == self@.views_below(combo@, k as nat).len(),
                forall|j: int|
                    0 <= j < result@.len() ==> (#[trigger] result@[j].0@, result@[j].1@)
                        == self@.views_below(combo@, k as nat)[j],
            decreases self.children.len() - k,
        {
            let child = &self.children[k];
            if child.present_in.is_superset(combo) {
                match child.node.build_combo(combo) {
                    Some(document) => {
                        result.push((child.key.clone(), document));
                    },
                    None => {},
                }
            }
            k += 1;
        }
        if result.len() > 0 {
            let document = Document::Mapping(result);
            proof {
                assert(document@->Mapping_0 =~= self@.views_below(
                    combo@,
                    self@.children.len(),
                ));
            }
            Some(document)
        } else {
            None
        }
    }

    /// Appends the coverage sets of all leaves of the branch to `out`: those
    /// of its own leaves first, followed by those below each child.
    pub fn leaf_coverages(&self, out: &mut Vec<Coverage>)
        ensures
            sets(final(out)@) == sets(old(out)@) + self@.leaf_sets(),
        decreases self,
    {
        let mut i: usize = 0;
        while i < self.values.len()
            invariant
                i <= self.values.len(),
                sets(out@) == sets(old(out)@) + self@.values.map_values(
                    |leaf: LeafView| leaf.present_in,
                ).take(i as int),
            decreases self.values.len() - i,
        {
            let ghost before = out@;
            out.push(self.values[i].present_in.clone());
            proof {
                let own = self@.values.map_values(|leaf: LeafView| leaf.present_in);
                assert(sets(out@) =~= sets(before).push(self@.values[i as int].present_in));
                assert(own.take(i as int + 1) =~= own.take(i as int).push(own[i as int]));
                assert(sets(out@) =~= sets(old(out)@) + own.take(i as int + 1));
            }
            i += 1;
        }
        proof {
            let own = self@.values.map_values(|leaf: LeafView| leaf.present_in);
            assert(own.take(i as int) =~= own);
            assert(self@.leaf_sets_below(0) =~= Seq::empty());
            assert(sets(out@) =~= sets(old(out)@) + own + self@.leaf_sets_below(0));
        }
        let mut k: usize = 0;
        while k < self.children.len()
            invariant
                k <= self.children.len(),
                sets(out@) == sets(old(out)@) + self@.values.map_values(
                    |leaf: LeafView| leaf.present_in,
                ) + self@.leaf_sets_below(k as nat),
            decreases self.children.len() - k,
        {
            self.children[k].node.leaf_coverages(out);
            proof {
                let own = self@.values.map_values(|leaf: LeafView| leaf.present_in);
                assert(self@.children[k as int].node == self.children@[k as int].node@);
                assert(sets(out@) =~= sets(old(out)@) + own + self@.leaf_sets_below(
                    (k + 1) as nat,
                ));
            }
            k += 1;
        }
        proof {
            assert(sets(out@) =~= sets(old(out)@) + self@.leaf_sets());
        }
    }
}

/// The combinations of a list of views, in order.
pub open spec fn combos_of(views: Seq<(Coverage, Document)>) -> Seq<Set<Seq<char>>> {
    views.map_values(|view: (Coverage, Document)| view.0@)
}

/// The merge tree: the root of the tree of nodes, which stands for all the
/// documents ingested so far.
pub struct MergeTree {
    root: Branch,
}

impl MergeTree {
    /// Every coverage set in the tree is stored without repetition, the tree
    /// keeps the invariants of the merge tree, and no node holds both leaves
    /// and children.
    #[verifier::type_invariant]
    spec fn well_formed(self) -> bool {
        self.root@.sound() && self.root@.unambiguous()
    }

    /// The model of the tree: what the root owns.
    pub closed spec fn view(&self) -> BranchView {
        self.root@
    }

    /// The tree into which nothing was ingested.
    pub fn new() -> (tree: MergeTree)
        ensures
            tree@ == BranchView::empty(),
    {
        MergeTree { root: Branch::new() }
    }

    /// The root of the tree. Every tree keeps the invariants of the merge
    /// tree, and has no node with both leaves and children.
    pub fn root(&self) -> (root: &Branch)
        ensures
            root@ == self@,
            self@.sound(),
            self@.unambiguous(),
    {
        proof {
            use_type_invariant(self);
        }
        &self.root
    }

    /// Ingests the document `doc` of the file `file`.
    ///
    /// A path that is a leaf in one file and a mapping with entries in
    /// another is a conflict of kinds: the document that brings the second
    /// kind is rejected, with the keys that lead to the place. A mapping
    /// without entries conflicts with nothing. Ingestion stops at the first
    /// conflict, and the tree is lost with it.
    pub fn ingest(self, file: &str, doc: &Document) -> (r: Result<MergeTree, SchemaError>)
        ensures
            match r {
                Ok(tree) => {
                    &&& self@.conflict(file@, doc@).is_none()
                    &&& tree@ == self@.ingest(file@, doc@)
                },
                Err(error) => {
                    &&& error matches SchemaError::TypeConflict { file: named, path }
                    &&& named@ == file@
                    &&& self@.conflict(file@, doc@) == Some(texts(path@))
                },
            },
    {
        proof {
            use_type_invariant(&self);
        }
        let name = file.to_owned();
        let mut root = self.root;
        match root.collect(&name, doc) {
            Ok(_) => {
                proof {
                    lemma_ingest_sound(self@, file@, doc@);
                    lemma_ingest_unambiguous(self@, file@, doc@);
                }
                Ok(MergeTree { root })
            },
            Err(path) => Err(SchemaError::TypeConflict { file: name, path }),
        }
    }

    /// The combinations of the tree: the distinct coverage sets of its
    /// leaves. A larger combination comes before a smaller one; of two
    /// combinations of one size, the one whose first leaf comes first in the
    /// walk of the tree (a node's own leaves, followed by its children in
    /// order) comes first.
    pub fn combinations(&self) -> (combos: Vec<Coverage>)
        ensures
            lists_combinations(sets(combos@), self@.leaf_sets()),
    {
        proof {
            use_type_invariant(self);
        }
        let mut found: Vec<Coverage> = Vec::new();
        self.root.leaf_coverages(&mut found);
        combinations_of(&found)
    }

    /// The view of the tree for the combination `combo`: the part of the
    /// merged documents that exactly the files of `combo` share.
    ///
    /// Every combination of the tree has a view, and no mapping of a view
    /// has two entries with one key.
    pub fn build_view(&self, combo: &Coverage) -> (r: Option<Document>)
        ensures
            match r {
                Some(document) => self@.view_of(combo@) == Some(document@),
                None => self@.view_of(combo@).is_none(),
            },
            self@.leaf_sets().contains(combo@) ==> r.is_some(),
            r.is_some() ==> r.unwrap()@.keys_distinct(),
    {
        proof {
            use_type_invariant(self);
            lemma_view_keys_distinct(self@, combo@);
            if self@.leaf_sets().contains(combo@) {
                lemma_combination_has_view(self@, combo@);
            }
        }
        self.root.build_combo(combo)
    }

    /// The combinations of the tree, in their order, each with its view.
    pub fn views(&self) -> (views: Vec<(Coverage, Document)>)
        ensures
            lists_combinations(combos_of(views@), self@.leaf_sets()),
            forall|i: int|
                0 <= i < views@.len() ==> {
                    &&& self@.view_of(views@[i].0@) == Some(views@[i].1@)
                    &&& views@[i].1@.keys_distinct()
                },
    {
        let combos = self.combinations();
        let ghost all = combos@;
        let mut views: Vec<(Coverage, Document)> = Vec::new();
        for combo in it: combos
            invariant
                it.seq() == all,
                lists_combinations(sets(all), self@.leaf_sets()),
                views@.len() == it.index(),
                forall|i: int|
                    0 <= i < views@.len() ==> {
                        &&& (#[trigger] views@[i]).0 == all[i]
                        &&& self@.view_of(views@[i].0@) == Some(views@[i].1@)
                        &&& views@[i].1@.keys_distinct()
                    },
        {
            proof {
                assert(sets(all)[it.index() as int] == combo@);
                assert(sets(all).contains(combo@));
            }
            match self.build_view(&combo) {
                Some(document) => {
                    views.push((combo, document));
                },
                None => {},
            }
        }
        proof {
            assert(combos_of(views@) =~= sets(all));
        }
        views
    }
}

} // verus!
