//! The invariants of the merge tree, and that ingestion keeps them.

use crate::document::DocumentView;
use crate::model::BranchView;
use crate::search::{lemma_child_for_none, lemma_leaf_for_none};
use serde_yaml::Value;
use vstd::prelude::*;

verus! {

/// Leaves that lie within a set of files lie within every larger set.
pub proof fn lemma_covered_by_larger(
    branch: BranchView,
    cover: Set<Seq<char>>,
    larger: Set<Seq<char>>,
)
    requires
        branch.covered_by(cover),
        cover.subset_of(larger),
    ensures
        branch.covered_by(larger),
    decreases branch,
{
    assert forall|i: int| 0 <= i < branch.children.len() implies (
    #[trigger] branch.children[i]).node.covered_by(larger) by {
        lemma_covered_by_larger(branch.children[i].node, cover, larger);
    }
}

/// Ingestion adds no file but the ingested one to any leaf: leaves that lay
/// within a set that holds `file` still lie within it.
pub proof fn lemma_ingest_covered(
    branch: BranchView,
    file: Seq<char>,
    doc: DocumentView,
    cover: Set<Seq<char>>,
)
    requires
        branch.covered_by(cover),
        cover.contains(file),
    ensures
        branch.ingest(file, doc).covered_by(cover),
    decreases doc, 0nat,
{
    match doc {
        DocumentView::Leaf(value) => {},
        DocumentView::Mapping(entries) => {
            lemma_ingest_entries_covered(branch, file, entries, entries.len(), cover);
        },
    }
}

proof fn lemma_ingest_entries_covered(
    branch: BranchView,
    file: Seq<char>,
    entries: Seq<(Seq<char>, DocumentView)>,
    n: nat,
    cover: Set<Seq<char>>,
)
    requires
        branch.covered_by(cover),
        cover.contains(file),
    ensures
        branch.ingest_entries(file, entries, n).covered_by(cover),
    decreases entries, n,
{
    if n == 0 || n > entries.len() {
    } else {
        lemma_ingest_entries_covered(branch, file, entries, (n - 1) as nat, cover);
        lemma_ingest_entry_covered(
            branch.ingest_entries(file, entries, (n - 1) as nat),
            file,
            entries[n - 1].0,
            entries[n - 1].1,
            cover,
        );
    }
}

proof fn lemma_ingest_entry_covered(
    branch: BranchView,
    file: Seq<char>,
    key: Seq<char>,
    doc: DocumentView,
    cover: Set<Seq<char>>,
)
    requires
        branch.covered_by(cover),
        cover.contains(file),
    ensures
        branch.ingest_entry(file, key, doc).covered_by(cover),
    decreases doc, 1nat,
{
    let touched = branch.add_intermediate(file, key);
    let i = branch.child_place(key);
    lemma_ingest_covered(touched.children[i].node, file, doc, cover);
}

/// The child that `add_intermediate` leaves for `key` is in its place, has
/// the key, and covers `file`.
pub proof fn lemma_add_intermediate_place(branch: BranchView, file: Seq<char>, key: Seq<char>)
    ensures
        branch.add_intermediate(file, key).is_child_for(key, branch.child_place(key)),
        branch.add_intermediate(file, key).children[branch.child_place(key)].present_in.contains(
            file,
        ),
{
    if branch.child_for(key).is_none() {
        lemma_child_for_none(branch, key);
    }
}

/// Coverage monotonicity and the other invariants of the tree survive
/// ingestion: after any document of any file was ingested, every file in a
/// leaf's coverage is still in the coverage of every intermediate node above
/// the leaf, sibling leaves still hold different values, sibling keys still
/// differ, and no coverage set is empty.
pub proof fn lemma_ingest_sound(branch: BranchView, file: Seq<char>, doc: DocumentView)
    requires
        branch.sound(),
    ensures
        branch.ingest(file, doc).sound(),
    decreases doc, 0nat,
{
    match doc {
        DocumentView::Leaf(value) => {
            lemma_add_leaf_sound(branch, file, value);
        },
        DocumentView::Mapping(entries) => {
            lemma_ingest_entries_sound(branch, file, entries, entries.len());
        },
    }
}

/// Recording a leaf keeps the invariants of the tree.
pub proof fn lemma_add_leaf_sound(branch: BranchView, file: Seq<char>, value: Value)
    requires
        branch.sound(),
    ensures
        branch.add_leaf(file, value).sound(),
{
    if branch.leaf_for(value).is_none() {
        lemma_leaf_for_none(branch, value);
    }
}

/// Recording a key keeps the invariants of the tree.
pub proof fn lemma_add_intermediate_sound(branch: BranchView, file: Seq<char>, key: Seq<char>)
    requires
        branch.sound(),
    ensures
        branch.add_intermediate(file, key).sound(),
{
    let after = branch.add_intermediate(file, key);
    match branch.child_for(key) {
        Some(i) => {
            assert forall|j: int| 0 <= j < after.children.len() implies {
                &&& !(#[trigger] after.children[j]).present_in.is_empty()
                &&& after.children[j].node.covered_by(after.children[j].present_in)
                &&& after.children[j].node.sound()
            } by {
                if j == i {
                    lemma_covered_by_larger(
                        branch.children[j].node,
                        branch.children[j].present_in,
                        after.children[j].present_in,
                    );
                }
            }
        },
        None => {
            lemma_child_for_none(branch, key);
            assert forall|j: int| 0 <= j < after.children.len() implies {
                &&& !(#[trigger] after.children[j]).present_in.is_empty()
                &&& after.children[j].node.covered_by(after.children[j].present_in)
                &&& after.children[j].node.sound()
            } by {}
        },
    }
}

proof fn lemma_ingest_entries_sound(
    branch: BranchView,
    file: Seq<char>,
    entries: Seq<(Seq<char>, DocumentView)>,
    n: nat,
)
    requires
        branch.sound(),
    ensures
        branch.ingest_entries(file, entries, n).sound(),
    decreases entries, n,
{
    if n == 0 || n > entries.len() {
    } else {
        lemma_ingest_entries_sound(branch, file, entries, (n - 1) as nat);
        lemma_ingest_entry_sound(
            branch.ingest_entries(file, entries, (n - 1) as nat),
            file,
            entries[n - 1].0,
            entries[n - 1].1,
        );
    }
}

proof fn lemma_ingest_entry_sound(
    branch: BranchView,
    file: Seq<char>,
    key: Seq<char>,
    doc: DocumentView,
)
    requires
        branch.sound(),
    ensures
        branch.ingest_entry(file, key, doc).sound(),
    decreases doc, 1nat,
{
    let touched = branch.add_intermediate(file, key);
    let i = branch.child_place(key);
    lemma_add_intermediate_sound(branch, file, key);
    let child = touched.children[i];
    lemma_ingest_sound(child.node, file, doc);
    lemma_ingest_covered(child.node, file, doc, child.present_in);
}

/// Where nothing conflicts, an ingestion that stops at the first conflict
/// ingests the whole document.
pub proof fn lemma_attempt_ingests(branch: BranchView, file: Seq<char>, doc: DocumentView)
    requires
        branch.conflict(file, doc).is_none(),
    ensures
        branch.attempt(file, doc) == branch.ingest(file, doc),
    decreases doc, 0nat,
{
    match doc {
        DocumentView::Leaf(value) => {},
        DocumentView::Mapping(entries) => {
            lemma_attempt_entries_ingests(branch, file, entries, entries.len());
        },
    }
}

proof fn lemma_attempt_entries_ingests(
    branch: BranchView,
    file: Seq<char>,
    entries: Seq<(Seq<char>, DocumentView)>,
    n: nat,
)
    requires
        branch.conflict_entries(file, entries, n).is_none(),
    ensures
        branch.attempt_entries(file, entries, n) == branch.ingest_entries(file, entries, n),
    decreases entries, n,
{
    if n == 0 || n > entries.len() {
    } else {
        lemma_attempt_entries_ingests(branch, file, entries, (n - 1) as nat);
        lemma_attempt_entry_ingests(
            branch.ingest_entries(file, entries, (n - 1) as nat),
            file,
            entries[n - 1].0,
            entries[n - 1].1,
        );
    }
}

proof fn lemma_attempt_entry_ingests(
    branch: BranchView,
    file: Seq<char>,
    key: Seq<char>,
    doc: DocumentView,
)
    requires
        branch.conflict_entry(file, key, doc).is_none(),
    ensures
        branch.attempt_entry(file, key, doc) == branch.ingest_entry(file, key, doc),
    decreases doc, 1nat,
{
    let touched = branch.add_intermediate(file, key);
    lemma_attempt_ingests(touched.children[branch.child_place(key)].node, file, doc);
}

/// An ingestion stays where it stopped: after a conflict among the first
/// `n` entries, trying more entries changes nothing.
pub proof fn lemma_attempt_entries_stays(
    branch: BranchView,
    file: Seq<char>,
    entries: Seq<(Seq<char>, DocumentView)>,
    n: nat,
    m: nat,
)
    requires
        n <= m <= entries.len(),
        branch.conflict_entries(file, entries, n).is_some(),
    ensures
        branch.attempt_entries(file, entries, m) == branch.attempt_entries(file, entries, n),
    decreases m,
{
    if n < m {
        lemma_attempt_entries_stays(branch, file, entries, n, (m - 1) as nat);
        branch.lemma_conflict_entries_stays(file, entries, n, (m - 1) as nat);
    }
}

/// A document that meets no conflict leaves no node with both leaves and
/// children.
pub proof fn lemma_ingest_unambiguous(branch: BranchView, file: Seq<char>, doc: DocumentView)
    requires
        branch.unambiguous(),
        branch.conflict(file, doc).is_none(),
    ensures
        branch.ingest(file, doc).unambiguous(),
    decreases doc, 0nat,
{
    match doc {
        DocumentView::Leaf(value) => {},
        DocumentView::Mapping(entries) => {
            lemma_ingest_entries_unambiguous(branch, file, entries, entries.len());
        },
    }
}

proof fn lemma_ingest_entries_unambiguous(
    branch: BranchView,
    file: Seq<char>,
    entries: Seq<(Seq<char>, DocumentView)>,
    n: nat,
)
    requires
        branch.unambiguous(),
        branch.conflict_entries(file, entries, n).is_none(),
    ensures
        branch.ingest_entries(file, entries, n).unambiguous(),
    decreases entries, n,
{
    if n == 0 || n > entries.len() {
    } else {
        lemma_ingest_entries_unambiguous(branch, file, entries, (n - 1) as nat);
        lemma_ingest_entry_unambiguous(
            branch.ingest_entries(file, entries, (n - 1) as nat),
            file,
            entries[n - 1].0,
            entries[n - 1].1,
        );
    }
}

proof fn lemma_ingest_entry_unambiguous(
    branch: BranchView,
    file: Seq<char>,
    key: Seq<char>,
    doc: DocumentView,
)
    requires
        branch.unambiguous(),
        branch.conflict_entry(file, key, doc).is_none(),
    ensures
        branch.ingest_entry(file, key, doc).unambiguous(),
    decreases doc, 1nat,
{
    let touched = branch.add_intermediate(file, key);
    let i = branch.child_place(key);
    lemma_ingest_unambiguous(touched.children[i].node, file, doc);
}

} // verus!
