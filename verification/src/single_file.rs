//! One file alone: the tree of a single document.

use crate::combos::lists_combinations;
use crate::document::DocumentView;
use crate::model::{BranchView, LeafView};
use vstd::prelude::*;

verus! {

/// Ingesting a document without repeated keys into the empty tree gives the
/// tree of that document alone.
pub proof fn lemma_ingest_alone(file: Seq<char>, doc: DocumentView)
    requires
        doc.keys_distinct(),
    ensures
        BranchView::empty().ingest(file, doc) == BranchView::alone(file, doc),
    decreases doc, 0nat,
{
    let start = BranchView::empty();
    match doc {
        DocumentView::Leaf(value) => {
            start.lemma_leaf_for_missing(value);
            assert(start.add_leaf(file, value).values =~= BranchView::alone(file, doc).values);
        },
        DocumentView::Mapping(entries) => {
            lemma_ingest_entries_alone(file, entries, entries.len());
            assert(start.ingest(file, doc).children =~= BranchView::alone(file, doc).children);
        },
    }
}

proof fn lemma_ingest_entries_alone(
    file: Seq<char>,
    entries: Seq<(Seq<char>, DocumentView)>,
    n: nat,
)
    requires
        DocumentView::Mapping(entries).keys_distinct(),
        n <= entries.len(),
    ensures
        BranchView::empty().ingest_entries(file, entries, n).values == Seq::<LeafView>::empty(),
        BranchView::empty().ingest_entries(file, entries, n).children == BranchView::alone(
            file,
            DocumentView::Mapping(entries),
        ).children.take(n as int),
    decreases entries, n,
{
    let start = BranchView::empty();
    let whole = BranchView::alone(file, DocumentView::Mapping(entries));
    if n == 0 {
        assert(whole.children.take(0) =~= Seq::empty());
    } else {
        lemma_ingest_entries_alone(file, entries, (n - 1) as nat);
        let before = start.ingest_entries(file, entries, (n - 1) as nat);
        let key = entries[n - 1].0;
        let below = entries[n - 1].1;
        assert forall|j: int| 0 <= j < before.children.len() implies (
        #[trigger] before.children[j]).key != key by {
            assert(before.children[j] == whole.children[j]);
            assert(entries[j].0 != entries[n - 1].0);
        }
        before.lemma_child_for_missing(key);
        assert(entries[n - 1].1.keys_distinct());
        lemma_ingest_alone(file, below);
        let after = before.ingest_entry(file, key, below);
        assert(after == start.ingest_entries(file, entries, n));
        assert(after.children =~= whole.children.take(n as int));
    }
}

/// The view of the tree of one document for the combination of its file is
/// the document itself, provided that every mapping of it has an entry.
pub proof fn lemma_alone_view(file: Seq<char>, doc: DocumentView)
    requires
        doc.filled(),
    ensures
        BranchView::alone(file, doc).view_of(Set::<Seq<char>>::empty().insert(file)) == Some(doc),
    decreases doc, 0nat,
{
    let tree = BranchView::alone(file, doc);
    let combo = Set::<Seq<char>>::empty().insert(file);
    match doc {
        DocumentView::Leaf(value) => {
            assert(tree.is_match_for(combo, 0));
            tree.lemma_match_for_found(combo, 0);
        },
        DocumentView::Mapping(entries) => {
            tree.lemma_match_for_missing(combo);
            lemma_alone_views_below(file, entries, entries.len());
            assert(entries.take(entries.len() as int) =~= entries);
        },
    }
}

proof fn lemma_alone_views_below(file: Seq<char>, entries: Seq<(Seq<char>, DocumentView)>, n: nat)
    requires
        DocumentView::Mapping(entries).filled(),
        n <= entries.len(),
    ensures
        BranchView::alone(file, DocumentView::Mapping(entries)).views_below(
            Set::<Seq<char>>::empty().insert(file),
            n,
        ) == entries.take(n as int),
    decreases entries, n,
{
    let tree = BranchView::alone(file, DocumentView::Mapping(entries));
    let combo = Set::<Seq<char>>::empty().insert(file);
    if n == 0 {
        assert(entries.take(0) =~= Seq::empty());
    } else {
        lemma_alone_views_below(file, entries, (n - 1) as nat);
        assert(entries[n - 1].1.filled());
        lemma_alone_view(file, entries[n - 1].1);
        assert(tree.views_below(combo, n) =~= entries.take(n as int));
    }
}

/// Every leaf of the tree of one document is covered by the document's file
/// alone, and there is such a leaf if every mapping of the document has an
/// entry.
pub proof fn lemma_alone_leaf_sets(file: Seq<char>, doc: DocumentView)
    requires
        doc.filled(),
    ensures
        BranchView::alone(file, doc).leaf_sets().len() > 0,
        forall|k: int|
            0 <= k < BranchView::alone(file, doc).leaf_sets().len() ==> #[trigger] BranchView::alone(
                file,
                doc,
            ).leaf_sets()[k] == Set::<Seq<char>>::empty().insert(file),
    decreases doc, 0nat,
{
    match doc {
        DocumentView::Leaf(value) => {},
        DocumentView::Mapping(entries) => {
            lemma_alone_leaf_sets_below(file, entries, entries.len());
        },
    }
}

proof fn lemma_alone_leaf_sets_below(
    file: Seq<char>,
    entries: Seq<(Seq<char>, DocumentView)>,
    n: nat,
)
    requires
        DocumentView::Mapping(entries).filled(),
        n <= entries.len(),
    ensures
        n > 0 ==> BranchView::alone(file, DocumentView::Mapping(entries)).leaf_sets_below(n).len()
            > 0,
        forall|k: int|
            0 <= k < BranchView::alone(file, DocumentView::Mapping(entries)).leaf_sets_below(
                n,
            ).len() ==> #[trigger] BranchView::alone(
                file,
                DocumentView::Mapping(entries),
            ).leaf_sets_below(n)[k] == Set::<Seq<char>>::empty().insert(file),
    decreases entries, n,
{
    if n == 0 {
    } else {
        lemma_alone_leaf_sets_below(file, entries, (n - 1) as nat);
        assert(entries[n - 1].1.filled());
        lemma_alone_leaf_sets(file, entries[n - 1].1);
        let tree = BranchView::alone(file, DocumentView::Mapping(entries));
        let before = tree.leaf_sets_below((n - 1) as nat);
        let last = tree.children[n - 1].node.leaf_sets();
        let now = tree.leaf_sets_below(n);
        assert(tree.children[n - 1].node == BranchView::alone(file, entries[n - 1].1));
        assert forall|k: int| 0 <= k < now.len() implies #[trigger] now[k] == Set::<
            Seq<char>,
        >::empty().insert(file) by {
            if k < before.len() {
                assert(now[k] == before[k]);
            } else {
                assert(now[k] == last[k - before.len()]);
            }
        }
    }
}

/// One file alone: after a single document was ingested into the empty tree,
/// the tree has exactly one combination, the file itself, and the view for
/// it is the document unchanged. This holds of every document in which no
/// mapping repeats a key and every mapping has an entry.
pub proof fn lemma_single_file(file: Seq<char>, doc: DocumentView, combos: Seq<Set<Seq<char>>>)
    requires
        doc.keys_distinct(),
        doc.filled(),
        lists_combinations(combos, BranchView::empty().ingest(file, doc).leaf_sets()),
    ensures
        combos == seq![Set::<Seq<char>>::empty().insert(file)],
        BranchView::empty().ingest(file, doc).view_of(Set::<Seq<char>>::empty().insert(file))
            == Some(doc),
{
    let only = Set::<Seq<char>>::empty().insert(file);
    let tree = BranchView::empty().ingest(file, doc);
    let found = tree.leaf_sets();
    lemma_ingest_alone(file, doc);
    lemma_alone_view(file, doc);
    lemma_alone_leaf_sets(file, doc);
    assert(found[0] == only);
    assert(found.contains(only));
    assert(combos.contains(only));
    assert forall|i: int| 0 <= i < combos.len() implies #[trigger] combos[i] == only by {
        assert(combos.contains(combos[i]));
        assert(found.contains(combos[i]));
    }
    if combos.len() > 1 {
        assert(combos[0] != combos[1]);
    }
    assert(combos =~= seq![only]);
}

} // verus!
