//! First places: what it means that a search finds nothing.

use crate::model::BranchView;
use crate::yaml::same_value;
use serde_yaml::Value;
use vstd::prelude::*;

verus! {

/// If a predicate on integers holds at `n`, there is a least place from 0 on
/// at which it holds.
pub proof fn lemma_least_witness(p: spec_fn(int) -> bool, n: int) -> (m: int)
    requires
        0 <= n,
        p(n),
    ensures
        0 <= m <= n,
        p(m),
        forall|k: int| 0 <= k < m ==> !#[trigger] p(k),
    decreases n,
{
    if exists|k: int| 0 <= k < n && #[trigger] p(k) {
        let k = choose|k: int| 0 <= k < n && #[trigger] p(k);
        lemma_least_witness(p, k)
    } else {
        n
    }
}

/// Where `leaf_for` finds no leaf, no leaf counts as `value`.
pub proof fn lemma_leaf_for_none(branch: BranchView, value: Value)
    requires
        branch.leaf_for(value).is_none(),
    ensures
        forall|j: int|
            0 <= j < branch.values.len() ==> !same_value(
                (#[trigger] branch.values[j]).value,
                value,
            ),
{
    assert forall|j: int| 0 <= j < branch.values.len() implies !same_value(
        (#[trigger] branch.values[j]).value,
        value,
    ) by {
        if same_value(branch.values[j].value, value) {
            let p = |k: int| same_value(branch.values[k].value, value);
            let m = lemma_least_witness(p, j);
            assert forall|k: int| 0 <= k < m implies !same_value(
                (#[trigger] branch.values[k]).value,
                value,
            ) by {
                assert(!p(k));
            }
            assert(branch.is_leaf_for(value, m));
        }
    }
}

/// Where `child_for` finds no child, no child has key `key`.
pub proof fn lemma_child_for_none(branch: BranchView, key: Seq<char>)
    requires
        branch.child_for(key).is_none(),
    ensures
        forall|j: int| 0 <= j < branch.children.len() ==> (#[trigger] branch.children[j]).key != key,
{
    assert forall|j: int| 0 <= j < branch.children.len() implies (
    #[trigger] branch.children[j]).key != key by {
        if branch.children[j].key == key {
            let p = |k: int| branch.children[k].key == key;
            let m = lemma_least_witness(p, j);
            assert forall|k: int| 0 <= k < m implies (#[trigger] branch.children[k]).key != key by {
                assert(!p(k));
            }
            assert(branch.is_child_for(key, m));
        }
    }
}

/// Where `match_for` finds no leaf, no leaf has coverage `combo`.
pub proof fn lemma_match_for_none(branch: BranchView, combo: Set<Seq<char>>)
    requires
        branch.match_for(combo).is_none(),
    ensures
        forall|j: int|
            0 <= j < branch.values.len() ==> (#[trigger] branch.values[j]).present_in != combo,
{
    assert forall|j: int| 0 <= j < branch.values.len() implies (
    #[trigger] branch.values[j]).present_in != combo by {
        if branch.values[j].present_in == combo {
            let p = |k: int| branch.values[k].present_in == combo;
            let m = lemma_least_witness(p, j);
            assert forall|k: int| 0 <= k < m implies (#[trigger] branch.values[k]).present_in
                != combo by {
                assert(!p(k));
            }
            assert(branch.is_match_for(combo, m));
        }
    }
}

} // verus!
