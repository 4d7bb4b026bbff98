//! Which cards of a deck are due, in the order they should be shown.
use vstd::prelude::*;

use crate::deck::{Deck, Entries};
use crate::name_map::sorted_names;
use crate::scheduler::{Card, CardView};
use crate::text::name_lt;

verus! {

/// `a` is listed before `b`: an earlier due date first, then the name.
pub open spec fn listed_before(a: (Seq<char>, CardView), b: (Seq<char>, CardView)) -> bool {
    a.1.due_on < b.1.due_on || (a.1.due_on == b.1.due_on && name_lt(a.0, b.0))
}

/// A listing by the views of its names and cards.
pub open spec fn listing_view(r: Seq<(&String, &Card)>) -> Entries {
    r.map_values(|p: (&String, &Card)| (p.0@, p.1@))
}

/// Every entry of `l` is listed before every later one.
pub open spec fn in_listing_order(l: Entries) -> bool {
    forall|i: int, j: int| 0 <= i < j < l.len() ==> listed_before(#[trigger] l[i], #[trigger] l[j])
}

/// Cards due on or before `today`, ordered by due date and then name so the
/// listing is stable and the oldest overdue cards show up first.
pub fn due_cards<'a>(deck: &'a Deck, today: u32) -> (r: Vec<(&'a String, &'a Card)>)
    ensures
        in_listing_order(listing_view(r@)),
        forall|k: int|
            0 <= k < r@.len() ==> deck@.contains(#[trigger] listing_view(r@)[k])
                && listing_view(r@)[k].1.due_on <= today,
        forall|j: int|
            0 <= j < deck@.len() && (#[trigger] deck@[j]).1.due_on <= today ==> listing_view(
                r@,
            ).contains(deck@[j]),
{
    deck.cards.assert_sorted();
    let ghost e = deck@;
    let n = deck.cards.len();
    let mut out: Vec<(&'a String, &'a Card)> = Vec::new();
    // where each listed card stands in the deck
    let ghost mut at: Seq<int> = Seq::empty();
    let mut i: usize = 0;
    while i < n
        invariant
            i <= n,
            n == e.len(),
            e == deck@,
            sorted_names(e),
            at.len() == out@.len(),
            in_listing_order(listing_view(out@)),
            forall|k: int|
                0 <= k < out@.len() ==> 0 <= #[trigger] at[k] < i && listing_view(out@)[k]
                    == e[at[k]] && e[at[k]].1.due_on <= today,
            forall|j: int|
                0 <= j < i && (#[trigger] e[j]).1.due_on <= today ==> exists|k: int|
                    0 <= k < at.len() && at[k] == j,
        decreases n - i,
    {
        let (name, card) = deck.cards.entry(i);
        assert((name@, card@) == e[i as int]);
        if card.due_on <= today {
            let ghost l = listing_view(out@);
            // the listed cards due no later than this one come first
            let mut p: usize = 0;
            while p < out.len() && out[p].1.due_on <= card.due_on
                invariant
                    p <= out@.len(),
                    l == listing_view(out@),
                    forall|q: int| 0 <= q < p ==> (#[trigger] l[q]).1.due_on <= card.due_on,
                decreases out.len() - p,
            {
                p += 1;
            }
            proof {
                assert forall|q: int| p <= q < l.len() implies (#[trigger] l[q]).1.due_on
                    > card.due_on by {
                    if q > p {
                        assert(listed_before(l[p as int], l[q]));
                    }
                }
            }
            out.insert(p, (name, card));
            let ghost old_at = at;
            proof {
                at = at.insert(p as int, i as int);
                let l2 = listing_view(out@);
                assert(l2 =~= l.insert(p as int, e[i as int]));
                assert forall|a: int, b: int| 0 <= a < b < l2.len() implies listed_before(
                    #[trigger] l2[a],
                    #[trigger] l2[b],
                ) by {
                    if b == p {
                        assert(l2[a] == l[a]);
                        assert(l[a] == e[old_at[a]]);
                        assert(name_lt(e[old_at[a]].0, e[i as int].0));
                    } else if a == p {
                        assert(l2[b] == l[b - 1]);
                    } else {
                        let a0 = if a < p {
                            a
                        } else {
                            a - 1
                        };
                        let b0 = if b < p {
                            b
                        } else {
                            b - 1
                        };
                        assert(l2[a] == l[a0] && l2[b] == l[b0]);
                        assert(listed_before(l[a0], l[b0]));
                    }
                }
                assert forall|k: int| 0 <= k < out@.len() implies 0 <= #[trigger] at[k] < i + 1
                    && listing_view(out@)[k] == e[at[k]] && e[at[k]].1.due_on <= today by {
                    if k < p {
                        assert(at[k] == old_at[k]);
                    } else if k > p {
                        assert(at[k] == old_at[k - 1]);
                    }
                }
                assert forall|j: int| 0 <= j < i + 1 && (#[trigger] e[j]).1.due_on <= today implies exists|
                    k: int,
                | 0 <= k < at.len() && at[k] == j by {
                    if j == i {
                        assert(at[p as int] == j);
                    } else {
                        let k0 = choose|k: int| 0 <= k < old_at.len() && old_at[k] == j;
                        if k0 < p {
                            assert(at[k0] == j);
                        } else {
                            assert(at[k0 + 1] == j);
                        }
                    }
                }
            }
        }
        i += 1;
    }
    proof {
        let l = listing_view(out@);
        assert forall|k: int| 0 <= k < out@.len() implies deck@.contains(
            #[trigger] listing_view(out@)[k],
        ) && listing_view(out@)[k].1.due_on <= today by {
            assert(l[k] == e[at[k]]);
        }
        assert forall|j: int| 0 <= j < deck@.len() && (#[trigger] deck@[j]).1.due_on
            <= today implies listing_view(out@).contains(deck@[j]) by {
            let k = choose|k: int| 0 <= k < at.len() && at[k] == j;
            assert(l[k] == e[j]);
        }
    }
    out
}

} // verus!
