//! Combination discovery: the distinct coverage sets of the leaves, the
//! largest first.

use crate::coverage::{sets, Coverage};
use vstd::prelude::*;

verus! {

/// Whether `i` is the first place at which `set` occurs in `found`.
pub open spec fn is_first_place(found: Seq<Set<Seq<char>>>, set: Set<Seq<char>>, i: int) -> bool {
    &&& 0 <= i < found.len()
    &&& found[i] == set
    &&& forall|j: int| 0 <= j < i ==> #[trigger] found[j] != set
}

/// The first place at which `set` occurs in `found`.
pub open spec fn first_place(found: Seq<Set<Seq<char>>>, set: Set<Seq<char>>) -> int {
    choose|i: int| is_first_place(found, set, i)
}

/// The order of combinations: a larger set goes before a smaller one, and of
/// two sets of one size the one that occurs first in `found` goes first.
pub open spec fn goes_before(found: Seq<Set<Seq<char>>>, a: Set<Seq<char>>, b: Set<Seq<char>>) -> bool {
    a.len() > b.len() || (a.len() == b.len() && first_place(found, a) < first_place(found, b))
}

/// Whether `combos` lists the combinations found in `found`: every set of
/// `found` once and no other set, in the order of combinations.
pub open spec fn lists_combinations(
    combos: Seq<Set<Seq<char>>>,
    found: Seq<Set<Seq<char>>>,
) -> bool {
    &&& forall|i: int, j: int|
        0 <= i < j < combos.len() ==> #[trigger] combos[i] != #[trigger] combos[j]
    &&& forall|set: Set<Seq<char>>| #[trigger] combos.contains(set) <==> found.contains(set)
    &&& forall|i: int, j: int|
        0 <= i < j < combos.len() ==> goes_before(found, #[trigger] combos[i], #[trigger] combos[j])
}

/// A set has one first place only.
pub proof fn lemma_first_place(found: Seq<Set<Seq<char>>>, set: Set<Seq<char>>, i: int)
    requires
        is_first_place(found, set, i),
    ensures
        first_place(found, set) == i,
{
    let k = first_place(found, set);
    assert(is_first_place(found, set, k));
    if k < i {
        assert(found[k] != set);
    }
    if i < k {
        assert(found[i] != set);
    }
}

proof fn lemma_same_combination_at(
    a: Seq<Set<Seq<char>>>,
    b: Seq<Set<Seq<char>>>,
    found: Seq<Set<Seq<char>>>,
    i: int,
)
    requires
        lists_combinations(a, found),
        lists_combinations(b, found),
        0 <= i < a.len(),
        i < b.len(),
    ensures
        a[i] == b[i],
    decreases i,
{
    assert forall|j: int| 0 <= j < i implies a[j] == b[j] by {
        lemma_same_combination_at(a, b, found, j);
    }
    assert(a.contains(a[i]));
    assert(b.contains(a[i]));
    let k = choose|k: int| 0 <= k < b.len() && b[k] == a[i];
    assert(b.contains(b[i]));
    assert(a.contains(b[i]));
    let m = choose|m: int| 0 <= m < a.len() && a[m] == b[i];
    if k < i {
        assert(a[k] == b[k]);
        assert(a[k] != a[i]);
    }
    if m < i {
        assert(a[m] == b[m]);
        assert(b[m] != b[i]);
    }
    if k > i && m > i {
        assert(goes_before(found, a[i], a[m]));
        assert(goes_before(found, b[i], b[k]));
    }
}

/// The order of combinations leaves no choice: two lists of the combinations
/// found in the same sets are the same list.
pub proof fn lemma_combinations_unique(
    a: Seq<Set<Seq<char>>>,
    b: Seq<Set<Seq<char>>>,
    found: Seq<Set<Seq<char>>>,
)
    requires
        lists_combinations(a, found),
        lists_combinations(b, found),
    ensures
        a == b,
{
    assert forall|i: int| 0 <= i < a.len() && i < b.len() implies a[i] == b[i] by {
        lemma_same_combination_at(a, b, found, i);
    }
    if a.len() < b.len() {
        let extra = b[a.len() as int];
        assert(b.contains(extra));
        assert(a.contains(extra));
        let j = choose|j: int| 0 <= j < a.len() && a[j] == extra;
        assert(b[j] != b[a.len() as int]);
    }
    if b.len() < a.len() {
        let extra = a[b.len() as int];
        assert(a.contains(extra));
        assert(b.contains(extra));
        let j = choose|j: int| 0 <= j < b.len() && b[j] == extra;
        assert(a[j] != a[b.len() as int]);
    }
    assert(a =~= b);
}

/// In a list of combinations no set comes before a larger one.
pub proof fn lemma_combinations_descend(
    combos: Seq<Set<Seq<char>>>,
    found: Seq<Set<Seq<char>>>,
    i: int,
    j: int,
)
    requires
        lists_combinations(combos, found),
        0 <= i <= j < combos.len(),
    ensures
        combos[i].len() >= combos[j].len(),
{
    if i < j {
        assert(goes_before(found, combos[i], combos[j]));
    }
}

/// Lists the combinations found in `found`: the distinct sets, larger ones
/// before smaller ones, sets of one size in the order in which they first
/// occur.
pub fn combinations_of(found: &Vec<Coverage>) -> (combos: Vec<Coverage>)
    ensures
        lists_combinations(sets(combos@), sets(found@)),
{
    let mut combos: Vec<Coverage> = Vec::new();
    let ghost all = sets(found@);
    let ghost mut firsts: Seq<int> = Seq::empty();
    let mut k: usize = 0;
    while k < found.len()
        invariant
            k <= found.len(),
            all == sets(found@),
            firsts.len() == combos@.len(),
            forall|i: int|
                0 <= i < combos@.len() ==> (#[trigger] firsts[i]) < k && is_first_place(
                    all,
                    sets(combos@)[i],
                    firsts[i],
                ),
            forall|i: int, j: int|
                0 <= i < j < combos@.len() ==> {
                    let a = #[trigger] sets(combos@)[i];
                    let b = #[trigger] sets(combos@)[j];
                    a.len() > b.len() || (a.len() == b.len() && firsts[i] < firsts[j])
                },
            forall|m: int| 0 <= m < k ==> sets(combos@).contains(#[trigger] all[m]),
        decreases found.len() - k,
    {
        let candidate = &found[k];
        assert(candidate@ == all[k as int]);
        let mut known = false;
        let mut i: usize = 0;
        while i < combos.len() && !known
            invariant
                i <= combos@.len(),
                !known ==> forall|j: int| 0 <= j < i ==> #[trigger] sets(combos@)[j] != candidate@,
                known ==> sets(combos@).contains(candidate@),
            decreases combos.len() - i + (if known { 0int } else { 1int }),
        {
            if combos[i].same_as(candidate) {
                assert(sets(combos@)[i as int] == candidate@);
                known = true;
            } else {
                i += 1;
            }
        }
        if !known {
            let size: usize = candidate.len();
            let mut place: usize = 0;
            while place < combos.len() && combos[place].len() >= size
                invariant
                    place <= combos@.len(),
                    size == candidate@.len(),
                    forall|j: int| 0 <= j < place ==> (#[trigger] sets(combos@)[j]).len() >= size,
                decreases combos.len() - place,
            {
                place += 1;
            }
            let ghost before = sets(combos@);
            let ghost before_firsts = firsts;
            assert(place < combos@.len() ==> before[place as int].len() < size);
            combos.insert(place, candidate.clone());
            proof {
                firsts = firsts.insert(place as int, k as int);
                assert(sets(combos@) =~= before.insert(place as int, candidate@));
                let now = sets(combos@);
                assert forall|i: int| 0 <= i < combos@.len() implies (#[trigger] firsts[i]) < k + 1
                    && is_first_place(all, now[i], firsts[i]) by {
                    if i < place {
                        assert(firsts[i] == before_firsts[i]);
                        assert(now[i] == before[i]);
                    } else if i == place {
                        assert forall|m: int| 0 <= m < k implies #[trigger] all[m]
                            != candidate@ by {
                            assert(before.contains(all[m]));
                        }
                    } else {
                        assert(firsts[i] == before_firsts[i - 1]);
                        assert(now[i] == before[i - 1]);
                    }
                }
                assert forall|i: int, j: int| 0 <= i < j < combos@.len() implies {
                    let a = #[trigger] now[i];
                    let b = #[trigger] now[j];
                    a.len() > b.len() || (a.len() == b.len() && firsts[i] < firsts[j])
                } by {
                    let bi = if i < place { i } else { i - 1 };
                    let bj = if j < place { j } else { j - 1 };
                    if i != place {
                        assert(now[i] == before[bi]);
                        assert(firsts[i] == before_firsts[bi]);
                    }
                    if j != place {
                        assert(now[j] == before[bj]);
                        assert(firsts[j] == before_firsts[bj]);
                    }
                    if i == place {
                        if place < bj {
                            assert(before[place as int].len() > before[bj].len() || (
                            before[place as int].len() == before[bj].len()));
                        }
                    } else if j == place {
                        assert(before[bi].len() >= size);
                    }
                }
                assert forall|m: int| 0 <= m < k + 1 implies now.contains(#[trigger] all[m]) by {
                    if m < k {
                        assert(before.contains(all[m]));
                        let w = choose|w: int| 0 <= w < before.len() && before[w] == all[m];
                        if w < place {
                            assert(now[w] == all[m]);
                        } else {
                            assert(now[w + 1] == all[m]);
                        }
                    } else {
                        assert(now[place as int] == all[m]);
                    }
                }
            }
        }
        k += 1;
    }
    proof {
        let now = sets(combos@);
        assert forall|i: int, j: int| 0 <= i < j < now.len() implies #[trigger] now[i]
            != #[trigger] now[j] by {
            assert(is_first_place(all, now[i], firsts[i]));
            assert(is_first_place(all, now[j], firsts[j]));
        }
        assert forall|i: int, j: int| 0 <= i < j < now.len() implies goes_before(
            all,
            #[trigger] now[i],
            #[trigger] now[j],
        ) by {
            lemma_first_place(all, now[i], firsts[i]);
            lemma_first_place(all, now[j], firsts[j]);
        }
        assert forall|set: Set<Seq<char>>| #[trigger] now.contains(set) <==> all.contains(set) by {
            if now.contains(set) {
                let w = choose|w: int| 0 <= w < now.len() && now[w] == set;
                assert(is_first_place(all, now[w], firsts[w]));
                assert(all[firsts[w]] == set);
            }
            if all.contains(set) {
                let m = choose|m: int| 0 <= m < all.len() && all[m] == set;
                assert(now.contains(all[m]));
            }
        }
    }
    combos
}

} // verus!
