//! What holds of the views of a tree and of its combinations.

use crate::combos::lists_combinations;
use crate::document::DocumentView;
use crate::model::{BranchView, LeafView};
use crate::search::lemma_match_for_none;
use serde_yaml::Value;
use vstd::prelude::*;

verus! {

/// A coverage set is among the leaf sets of a branch exactly if it is the
/// coverage of a leaf attached to the branch or among the leaf sets below
/// one of its children.
pub proof fn lemma_leaf_sets_contains(branch: BranchView, set: Set<Seq<char>>)
    ensures
        branch.leaf_sets().contains(set) <==> {
            ||| exists|i: int|
                0 <= i < branch.values.len() && (#[trigger] branch.values[i]).present_in == set
            ||| exists|m: int|
                0 <= m < branch.children.len() && (
                #[trigger] branch.children[m]).node.leaf_sets().contains(set)
        },
{
    let own = branch.values.map_values(|leaf: LeafView| leaf.present_in);
    let below = branch.leaf_sets_below(branch.children.len());
    lemma_leaf_sets_below_contains(branch, branch.children.len(), set);
    if branch.leaf_sets().contains(set) {
        let k = choose|k: int| 0 <= k < branch.leaf_sets().len() && branch.leaf_sets()[k] == set;
        if k < own.len() {
            assert(branch.values[k].present_in == set);
        } else {
            assert(below[k - own.len()] == set);
        }
    }
    if exists|i: int| 0 <= i < branch.values.len() && (#[trigger] branch.values[i]).present_in == set {
        let i = choose|i: int|
            0 <= i < branch.values.len() && (#[trigger] branch.values[i]).present_in == set;
        assert(branch.leaf_sets()[i] == set);
    }
    if below.contains(set) {
        let k = choose|k: int| 0 <= k < below.len() && below[k] == set;
        assert(branch.leaf_sets()[own.len() + k] == set);
    }
}

proof fn lemma_leaf_sets_below_contains(branch: BranchView, n: nat, set: Set<Seq<char>>)
    requires
        n <= branch.children.len(),
    ensures
        branch.leaf_sets_below(n).contains(set) <==> exists|m: int|
            0 <= m < n && (#[trigger] branch.children[m]).node.leaf_sets().contains(set),
    decreases n,
{
    if n == 0 {
    } else {
        let before = branch.leaf_sets_below((n - 1) as nat);
        let last = branch.children[n - 1].node.leaf_sets();
        lemma_leaf_sets_below_contains(branch, (n - 1) as nat, set);
        if branch.leaf_sets_below(n).contains(set) {
            let k = choose|k: int|
                0 <= k < branch.leaf_sets_below(n).len() && branch.leaf_sets_below(n)[k] == set;
            if k < before.len() {
                assert(before[k] == set);
            } else {
                assert(last[k - before.len()] == set);
                assert(branch.children[n - 1].node.leaf_sets().contains(set));
            }
        }
        if exists|m: int|
            0 <= m < n && (#[trigger] branch.children[m]).node.leaf_sets().contains(set) {
            let m = choose|m: int|
                0 <= m < n && (#[trigger] branch.children[m]).node.leaf_sets().contains(set);
            if m < n - 1 {
                let k = choose|k: int| 0 <= k < before.len() && before[k] == set;
                assert(branch.leaf_sets_below(n)[k] == set);
            } else {
                let k = choose|k: int| 0 <= k < last.len() && last[k] == set;
                assert(branch.leaf_sets_below(n)[before.len() + k] == set);
            }
        }
    }
}

/// Leaves that lie within `cover` have leaf sets that are parts of `cover`.
pub proof fn lemma_covered_leaf_sets(branch: BranchView, cover: Set<Seq<char>>, set: Set<Seq<char>>)
    requires
        branch.covered_by(cover),
        branch.leaf_sets().contains(set),
    ensures
        set.subset_of(cover),
    decreases branch,
{
    lemma_leaf_sets_contains(branch, set);
    if exists|i: int| 0 <= i < branch.values.len() && (#[trigger] branch.values[i]).present_in == set {
    } else {
        let m = choose|m: int|
            0 <= m < branch.children.len() && (
            #[trigger] branch.children[m]).node.leaf_sets().contains(set);
        lemma_covered_leaf_sets(branch.children[m].node, cover, set);
    }
}

proof fn lemma_views_below_grow(branch: BranchView, combo: Set<Seq<char>>, m: int, n: nat)
    requires
        0 <= m < n <= branch.children.len(),
        combo.subset_of(branch.children[m].present_in),
        branch.children[m].node.view_of(combo).is_some(),
    ensures
        branch.views_below(combo, n).len() > 0,
    decreases n,
{
    if m < n - 1 {
        lemma_views_below_grow(branch, combo, m, (n - 1) as nat);
    }
}

/// Every discovered combination has a view: a coverage set that some leaf
/// of a sound tree has is a combination for which the tree has a view.
pub proof fn lemma_combination_has_view(branch: BranchView, combo: Set<Seq<char>>)
    requires
        branch.sound(),
        branch.leaf_sets().contains(combo),
    ensures
        branch.view_of(combo).is_some(),
    decreases branch,
{
    lemma_leaf_sets_contains(branch, combo);
    if branch.match_for(combo).is_none() {
        lemma_match_for_none(branch, combo);
        let m = choose|m: int|
            0 <= m < branch.children.len() && (
            #[trigger] branch.children[m]).node.leaf_sets().contains(combo);
        lemma_combination_has_view(branch.children[m].node, combo);
        lemma_covered_leaf_sets(branch.children[m].node, branch.children[m].present_in, combo);
        lemma_views_below_grow(branch, combo, m, branch.children.len());
    }
}

/// Combination completeness: the combinations of a sound tree are exactly
/// the coverage sets of its leaves, and each of them has a view, so that no
/// coverage set of a leaf is dropped on the way.
pub proof fn lemma_combinations_complete(
    branch: BranchView,
    combos: Seq<Set<Seq<char>>>,
    set: Set<Seq<char>>,
)
    requires
        branch.sound(),
        lists_combinations(combos, branch.leaf_sets()),
    ensures
        branch.leaf_sets().contains(set) <==> combos.contains(set),
        combos.contains(set) ==> branch.view_of(set).is_some(),
{
    if combos.contains(set) {
        lemma_combination_has_view(branch, set);
    }
}

/// No mapping in a view of a sound tree has two entries with one key.
pub proof fn lemma_view_keys_distinct(branch: BranchView, combo: Set<Seq<char>>)
    requires
        branch.sound(),
    ensures
        branch.view_of(combo).is_some() ==> branch.view_of(combo).unwrap().keys_distinct(),
    decreases branch, branch.children.len() + 1,
{
    lemma_views_below_keys(branch, combo, branch.children.len());
}

proof fn lemma_views_below_keys(branch: BranchView, combo: Set<Seq<char>>, n: nat)
    requires
        branch.sound(),
        n <= branch.children.len(),
    ensures
        DocumentView::Mapping(branch.views_below(combo, n)).keys_distinct(),
        forall|j: int|
            0 <= j < branch.views_below(combo, n).len() ==> exists|m: int|
                0 <= m < n && (#[trigger] branch.children[m]).key == (#[trigger] branch.views_below(
                    combo,
                    n,
                )[j]).0,
    decreases branch, n,
{
    if n == 0 {
    } else {
        let before = branch.views_below(combo, (n - 1) as nat);
        let now = branch.views_below(combo, n);
        let child = branch.children[n - 1];
        lemma_views_below_keys(branch, combo, (n - 1) as nat);
        lemma_view_keys_distinct(child.node, combo);
        assert forall|j: int| 0 <= j < now.len() implies exists|m: int|
            0 <= m < n && (#[trigger] branch.children[m]).key == (#[trigger] now[j]).0 by {
            if j < before.len() {
                assert(now[j] == before[j]);
                let m = choose|m: int|
                    0 <= m < n - 1 && (#[trigger] branch.children[m]).key == before[j].0;
                assert(branch.children[m].key == now[j].0);
            } else {
                assert(branch.children[n - 1].key == now[j].0);
            }
        }
        assert(DocumentView::Mapping(before).keys_distinct());
        assert(DocumentView::Mapping(before)->Mapping_0 == before);
        assert forall|a: int, b: int| 0 <= a < b < now.len() implies (#[trigger] now[a]).0 != (
        #[trigger] now[b]).0 by {
            assert(now[a] == before[a]);
            if b < before.len() {
                assert(now[b] == before[b]);
                assert(before[a].0 != before[b].0);
            } else {
                let m = choose|m: int|
                    0 <= m < n - 1 && (#[trigger] branch.children[m]).key == before[a].0;
                assert(now[b].0 == branch.children[n - 1].key);
                assert(branch.children[m].key != branch.children[n - 1].key);
            }
        }
        assert forall|j: int| 0 <= j < now.len() implies (#[trigger] now[j]).1.keys_distinct() by {
            if j < before.len() {
                assert(now[j] == before[j]);
                assert(before[j].1.keys_distinct());
            } else {
                assert(now[j].1 == child.node.view_of(combo).unwrap());
            }
        }
        assert(DocumentView::Mapping(now)->Mapping_0 == now);
    }
}

/// Exact-match leaf rule, at one node: a view that is a leaf is the value of
/// a leaf whose coverage is exactly the combination, not a part of it and
/// not a set that encloses it.
pub proof fn lemma_view_leaf_exact(branch: BranchView, combo: Set<Seq<char>>, value: Value)
    requires
        branch.view_of(combo) == Some(DocumentView::Leaf(value)),
    ensures
        exists|i: int|
            0 <= i < branch.values.len() && (#[trigger] branch.values[i]).present_in == combo
                && branch.values[i].value == value,
{
    match branch.match_for(combo) {
        Some(i) => {
            assert(branch.is_match_for(combo, i));
        },
        None => {},
    }
}

/// Exact-match leaf rule: every leaf value in the view for a combination is
/// the value of a leaf of the tree whose coverage is exactly that
/// combination.
pub proof fn lemma_view_leaves_exact(branch: BranchView, combo: Set<Seq<char>>, value: Value)
    requires
        branch.view_of(combo).is_some(),
        branch.view_of(combo).unwrap().holds_leaf(value),
    ensures
        branch.has_leaf(combo, value),
    decreases branch, branch.children.len() + 1,
{
    match branch.match_for(combo) {
        Some(i) => {
            assert(branch.is_match_for(combo, i));
        },
        None => {
            let entries = branch.views_below(combo, branch.children.len());
            let k = choose|k: int| 0 <= k < entries.len() && (#[trigger] entries[k]).1.holds_leaf(value);
            lemma_views_below_leaves_exact(branch, combo, branch.children.len(), k, value);
        },
    }
}

proof fn lemma_views_below_leaves_exact(
    branch: BranchView,
    combo: Set<Seq<char>>,
    n: nat,
    k: int,
    value: Value,
)
    requires
        n <= branch.children.len(),
        0 <= k < branch.views_below(combo, n).len(),
        branch.views_below(combo, n)[k].1.holds_leaf(value),
    ensures
        exists|m: int|
            0 <= m < n && (#[trigger] branch.children[m]).node.has_leaf(combo, value),
    decreases branch, n,
{
    if n == 0 {
    } else {
        let before = branch.views_below(combo, (n - 1) as nat);
        if k < before.len() {
            assert(branch.views_below(combo, n)[k] == before[k]);
            lemma_views_below_leaves_exact(branch, combo, (n - 1) as nat, k, value);
        } else {
            let child = branch.children[n - 1];
            lemma_view_leaves_exact(child.node, combo, value);
            assert(branch.children[n - 1].node.has_leaf(combo, value));
        }
    }
}

} // verus!
