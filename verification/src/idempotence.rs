//! Ingestion is idempotent: a coverage set is a set, and a document that
//! the tree holds already leaves no second trace.

use crate::document::DocumentView;
use crate::invariants::lemma_add_intermediate_place;
use crate::model::BranchView;
use crate::search::{lemma_child_for_none, lemma_leaf_for_none};
use serde_yaml::Value;
use vstd::prelude::*;

verus! {

/// Leaf dedup idempotence, at one node: recording the same value of the same
/// file twice is the same as recording it once.
pub proof fn lemma_add_leaf_idempotent(branch: BranchView, file: Seq<char>, value: Value)
    ensures
        branch.add_leaf(file, value).add_leaf(file, value) == branch.add_leaf(file, value),
{
    let once = branch.add_leaf(file, value);
    let place = match branch.leaf_for(value) {
        Some(i) => i,
        None => branch.values.len() as int,
    };
    if branch.leaf_for(value).is_none() {
        lemma_leaf_for_none(branch, value);
    }
    assert(once.is_leaf_for(value, place));
    let twice = once.add_leaf(file, value);
    assert(once.values[place].present_in.insert(file) =~= once.values[place].present_in);
    assert(twice.values =~= once.values);
}

/// Recording the same key of the same file twice is the same as recording
/// it once.
pub proof fn lemma_add_intermediate_idempotent(branch: BranchView, file: Seq<char>, key: Seq<char>)
    ensures
        branch.add_intermediate(file, key).add_intermediate(file, key) == branch.add_intermediate(
            file,
            key,
        ),
        branch.add_intermediate(file, key).child_place(key) == branch.child_place(key),
{
    let once = branch.add_intermediate(file, key);
    let place = branch.child_place(key);
    if branch.child_for(key).is_none() {
        lemma_child_for_none(branch, key);
    }
    assert(once.is_child_for(key, place));
    let twice = once.add_intermediate(file, key);
    assert(once.children[place].present_in.insert(file) =~= once.children[place].present_in);
    assert(twice.children =~= once.children);
}

/// Every branch is itself grown by nothing.
pub proof fn lemma_extends_self(branch: BranchView)
    ensures
        branch.extends(branch),
    decreases branch,
{
    assert forall|i: int| 0 <= i < branch.children.len() implies (
    #[trigger] branch.children[i]).node.extends(branch.children[i].node) by {
        lemma_extends_self(branch.children[i].node);
    }
}

/// Growth adds up.
pub proof fn lemma_extends_chain(first: BranchView, second: BranchView, third: BranchView)
    requires
        second.extends(first),
        third.extends(second),
    ensures
        third.extends(first),
    decreases first,
{
    assert forall|i: int| 0 <= i < first.children.len() implies {
        &&& (#[trigger] third.children[i]).key == first.children[i].key
        &&& first.children[i].present_in.subset_of(third.children[i].present_in)
        &&& third.children[i].node.extends(first.children[i].node)
    } by {
        lemma_extends_chain(
            first.children[i].node,
            second.children[i].node,
            third.children[i].node,
        );
    }
}

/// Ingestion only lets the tree grow.
pub proof fn lemma_ingest_extends(branch: BranchView, file: Seq<char>, doc: DocumentView)
    ensures
        branch.ingest(file, doc).extends(branch),
    decreases doc, 0nat,
{
    match doc {
        DocumentView::Leaf(value) => {
            let after = branch.add_leaf(file, value);
            lemma_extends_self(branch);
            assert forall|i: int| 0 <= i < branch.values.len() implies {
                &&& (#[trigger] after.values[i]).value == branch.values[i].value
                &&& branch.values[i].present_in.subset_of(after.values[i].present_in)
            } by {}
        },
        DocumentView::Mapping(entries) => {
            lemma_ingest_entries_extends(branch, file, entries, entries.len());
        },
    }
}

proof fn lemma_ingest_entries_extends(
    branch: BranchView,
    file: Seq<char>,
    entries: Seq<(Seq<char>, DocumentView)>,
    n: nat,
)
    ensures
        branch.ingest_entries(file, entries, n).extends(branch),
    decreases entries, n,
{
    if n == 0 || n > entries.len() {
        lemma_extends_self(branch);
    } else {
        let before = branch.ingest_entries(file, entries, (n - 1) as nat);
        lemma_ingest_entries_extends(branch, file, entries, (n - 1) as nat);
        lemma_ingest_entry_extends(before, file, entries[n - 1].0, entries[n - 1].1);
        lemma_extends_chain(
            branch,
            before,
            before.ingest_entry(file, entries[n - 1].0, entries[n - 1].1),
        );
    }
}

proof fn lemma_ingest_entry_extends(
    branch: BranchView,
    file: Seq<char>,
    key: Seq<char>,
    doc: DocumentView,
)
    ensures
        branch.ingest_entry(file, key, doc).extends(branch),
    decreases doc, 1nat,
{
    let touched = branch.add_intermediate(file, key);
    let place = branch.child_place(key);
    let after = branch.ingest_entry(file, key, doc);
    lemma_ingest_extends(touched.children[place].node, file, doc);
    assert forall|i: int| 0 <= i < branch.children.len() implies {
        &&& (#[trigger] after.children[i]).key == branch.children[i].key
        &&& branch.children[i].present_in.subset_of(after.children[i].present_in)
        &&& after.children[i].node.extends(branch.children[i].node)
    } by {
        if i != place {
            lemma_extends_self(branch.children[i].node);
        }
    }
    assert forall|i: int| 0 <= i < branch.values.len() implies {
        &&& (#[trigger] after.values[i]).value == branch.values[i].value
        &&& branch.values[i].present_in.subset_of(after.values[i].present_in)
    } by {}
}

/// What a branch holds, it still holds after it has grown.
pub proof fn lemma_holds_extends(
    base: BranchView,
    grown: BranchView,
    file: Seq<char>,
    doc: DocumentView,
)
    requires
        base.holds(file, doc),
        grown.extends(base),
    ensures
        grown.holds(file, doc),
    decreases doc, 0nat,
{
    match doc {
        DocumentView::Leaf(value) => {
            let i = base.leaf_for(value).unwrap();
            grown.lemma_leaf_for_found(value, i);
        },
        DocumentView::Mapping(entries) => {
            assert forall|k: int|
                #![trigger entries[k]]
                0 <= k < entries.len() implies grown.holds_entry(
                file,
                entries[k].0,
                entries[k].1,
            ) by {
                lemma_holds_entry_extends(base, grown, file, entries[k].0, entries[k].1);
            }
        },
    }
}

proof fn lemma_holds_entry_extends(
    base: BranchView,
    grown: BranchView,
    file: Seq<char>,
    key: Seq<char>,
    doc: DocumentView,
)
    requires
        base.holds_entry(file, key, doc),
        grown.extends(base),
    ensures
        grown.holds_entry(file, key, doc),
    decreases doc, 1nat,
{
    let i = base.child_for(key).unwrap();
    grown.lemma_child_for_found(key, i);
    lemma_holds_extends(base.children[i].node, grown.children[i].node, file, doc);
}

/// Ingesting what a branch holds already changes nothing.
pub proof fn lemma_holds_absorbs(branch: BranchView, file: Seq<char>, doc: DocumentView)
    requires
        branch.holds(file, doc),
    ensures
        branch.ingest(file, doc) == branch,
    decreases doc, 0nat,
{
    match doc {
        DocumentView::Leaf(value) => {
            let i = branch.leaf_for(value).unwrap();
            assert(branch.values[i].present_in.insert(file) =~= branch.values[i].present_in);
            assert(branch.add_leaf(file, value).values =~= branch.values);
        },
        DocumentView::Mapping(entries) => {
            lemma_holds_absorbs_entries(branch, file, entries, entries.len());
        },
    }
}

proof fn lemma_holds_absorbs_entries(
    branch: BranchView,
    file: Seq<char>,
    entries: Seq<(Seq<char>, DocumentView)>,
    n: nat,
)
    requires
        branch.holds(file, DocumentView::Mapping(entries)),
    ensures
        branch.ingest_entries(file, entries, n) == branch,
    decreases entries, n,
{
    if n == 0 || n > entries.len() {
    } else {
        lemma_holds_absorbs_entries(branch, file, entries, (n - 1) as nat);
        assert(DocumentView::Mapping(entries)->Mapping_0 == entries);
        lemma_holds_absorbs_entry(branch, file, entries[n - 1].0, entries[n - 1].1);
    }
}

proof fn lemma_holds_absorbs_entry(
    branch: BranchView,
    file: Seq<char>,
    key: Seq<char>,
    doc: DocumentView,
)
    requires
        branch.holds_entry(file, key, doc),
    ensures
        branch.ingest_entry(file, key, doc) == branch,
    decreases doc, 1nat,
{
    let i = branch.child_for(key).unwrap();
    let touched = branch.add_intermediate(file, key);
    assert(branch.children[i].present_in.insert(file) =~= branch.children[i].present_in);
    assert(touched.children =~= branch.children);
    lemma_holds_absorbs(branch.children[i].node, file, doc);
}

/// After a document was ingested, the tree holds it.
pub proof fn lemma_ingest_holds(branch: BranchView, file: Seq<char>, doc: DocumentView)
    ensures
        branch.ingest(file, doc).holds(file, doc),
    decreases doc, 0nat,
{
    match doc {
        DocumentView::Leaf(value) => {
            let once = branch.add_leaf(file, value);
            let place = match branch.leaf_for(value) {
                Some(i) => i,
                None => branch.values.len() as int,
            };
            if branch.leaf_for(value).is_none() {
                lemma_leaf_for_none(branch, value);
            }
            assert(once.is_leaf_for(value, place));
        },
        DocumentView::Mapping(entries) => {
            lemma_ingest_entries_holds(branch, file, entries, entries.len());
        },
    }
}

proof fn lemma_ingest_entries_holds(
    branch: BranchView,
    file: Seq<char>,
    entries: Seq<(Seq<char>, DocumentView)>,
    n: nat,
)
    requires
        n <= entries.len(),
    ensures
        forall|k: int|
            #![trigger entries[k]]
            0 <= k < n ==> branch.ingest_entries(file, entries, n).holds_entry(
                file,
                entries[k].0,
                entries[k].1,
            ),
    decreases entries, n,
{
    if n == 0 {
    } else {
        let before = branch.ingest_entries(file, entries, (n - 1) as nat);
        let key = entries[n - 1].0;
        let below = entries[n - 1].1;
        let after = before.ingest_entry(file, key, below);
        lemma_ingest_entries_holds(branch, file, entries, (n - 1) as nat);
        lemma_ingest_entry_extends(before, file, key, below);
        lemma_ingest_entry_holds(before, file, key, below);
        assert forall|k: int|
            #![trigger entries[k]]
            0 <= k < n implies after.holds_entry(file, entries[k].0, entries[k].1) by {
            if k < n - 1 {
                lemma_holds_entry_extends(before, after, file, entries[k].0, entries[k].1);
            }
        }
    }
}

proof fn lemma_ingest_entry_holds(
    branch: BranchView,
    file: Seq<char>,
    key: Seq<char>,
    doc: DocumentView,
)
    ensures
        branch.ingest_entry(file, key, doc).holds_entry(file, key, doc),
    decreases doc, 1nat,
{
    let touched = branch.add_intermediate(file, key);
    let place = branch.child_place(key);
    let after = branch.ingest_entry(file, key, doc);
    lemma_add_intermediate_place(branch, file, key);
    lemma_ingest_holds(touched.children[place].node, file, doc);
    assert(after.is_child_for(key, place));
}

/// Ingestion is idempotent: ingesting the same document of the same file
/// twice is the same as ingesting it once.
pub proof fn lemma_ingest_idempotent(branch: BranchView, file: Seq<char>, doc: DocumentView)
    ensures
        branch.ingest(file, doc).ingest(file, doc) == branch.ingest(file, doc),
{
    lemma_ingest_holds(branch, file, doc);
    lemma_holds_absorbs(branch.ingest(file, doc), file, doc);
}

/// Leaf dedup idempotence: ingesting the same value of the same file at the
/// same path twice is the same as ingesting it once.
pub proof fn lemma_ingest_leaf_idempotent(
    branch: BranchView,
    file: Seq<char>,
    path: Seq<Seq<char>>,
    value: Value,
)
    ensures
        branch.ingest(file, DocumentView::at_path(path, value)).ingest(
            file,
            DocumentView::at_path(path, value),
        ) == branch.ingest(file, DocumentView::at_path(path, value)),
{
    lemma_ingest_idempotent(branch, file, DocumentView::at_path(path, value));
}

} // verus!
