//! Putting lists in order.
use vstd::prelude::*;

use crate::text::at_or_before;
use crate::text::law_text_order_is_total;
use crate::text::law_text_order_is_transitive;
use crate::text::text_le;

verus! {

/// A total order on items of one type, in which different items may tie.
pub trait Order<T>: Sized {
    /// `a` may stand before `b`.
    spec fn le(self, a: T, b: T) -> bool;

    /// Of two items one may stand before the other.
    proof fn total(self, a: T, b: T)
        ensures
            self.le(a, b) || self.le(b, a),
    ;

    /// What may stand before an item may stand before everything after it.
    proof fn transitive(self, a: T, b: T, c: T)
        requires
            self.le(a, b),
            self.le(b, c),
        ensures
            self.le(a, c),
    ;

    /// Whether `a` may stand before `b`.
    fn leq(&self, a: &T, b: &T) -> (r: bool)
        ensures
            r == self.le(*a, *b),
    ;
}

/// `places` names each of the first `n` places once.
pub open spec fn is_permutation(places: Seq<int>, n: int) -> bool {
    &&& places.len() == n
    &&& forall|i: int| 0 <= i < n ==> 0 <= #[trigger] places[i] < n
    &&& forall|i: int, j: int| 0 <= i < j < n ==> places[i] != places[j]
    &&& forall|v: int| 0 <= v < n ==> #[trigger] places.contains(v)
}

/// `after` lists, by place, the items of `before` in order; items that tie keep
/// the order they had.
pub open spec fn arranged_by<T, O: Order<T>>(
    before: Seq<T>,
    after: Seq<T>,
    order: O,
    places: Seq<int>,
) -> bool {
    &&& is_permutation(places, before.len() as int)
    &&& after.len() == before.len()
    &&& forall|i: int| 0 <= i < after.len() ==> #[trigger] after[i] == before[places[i]]
    &&& forall|i: int, j: int|
        0 <= i < j < after.len() ==> order.le(#[trigger] after[i], #[trigger] after[j]) && (
        order.le(after[j], after[i]) ==> places[i] < places[j])
}

/// `after` holds the items of `before` in order; items that tie keep the order
/// they had.
pub open spec fn is_sort_of<T, O: Order<T>>(before: Seq<T>, after: Seq<T>, order: O) -> bool {
    exists|places: Seq<int>| arranged_by(before, after, order, places)
}

/// Puts a list in order; items that tie keep the order they had.
pub fn sort<T, O: Order<T>>(list: &mut Vec<T>, order: &O)
    ensures
        is_sort_of(old(list)@, final(list)@, *order),
{
    let ghost before = list@;
    let ghost n = list@.len() as int;
    let mut sorted: Vec<T> = Vec::new();
    let ghost mut places: Seq<int> = Seq::empty();
    loop
        invariant
            before.len() == n,
            list@.len() <= n,
            list@ == before.take(list@.len() as int),
            sorted@.len() == places.len() == n - list@.len(),
            forall|i: int|
                0 <= i < places.len() ==> list@.len() <= #[trigger] places[i] < n && sorted@[i]
                    == before[places[i]],
            forall|i: int, j: int| 0 <= i < j < places.len() ==> places[i] != places[j],
            forall|v: int| list@.len() <= v < n ==> #[trigger] places.contains(v),
            forall|i: int, j: int|
                0 <= i < j < places.len() ==> order.le(
                    #[trigger] sorted@[i],
                    #[trigger] sorted@[j],
                ) && (order.le(sorted@[j], sorted@[i]) ==> places[i] < places[j]),
        ensures
            list@.len() == 0,
        decreases list@.len(),
    {
        let ghost rest = list@;
        match list.pop() {
            None => {
                break;
            },
            Some(item) => {
                let ghost at = rest.len() - 1;
                assert(rest.drop_last() == before.take(at));
                assert(item == before[at]);
                let mut k: usize = 0;
                while k < sorted.len() && !order.leq(&item, &sorted[k])
                    invariant
                        k <= sorted@.len(),
                        forall|i: int| 0 <= i < k ==> !order.le(item, #[trigger] sorted@[i]),
                    decreases sorted@.len() - k,
                {
                    k += 1;
                }
                let ghost was = sorted@;
                let ghost had = places;
                sorted.insert(k, item);
                proof {
                    places = places.insert(k as int, at);
                    assert forall|i: int, j: int| 0 <= i < j < places.len() implies order.le(
                        #[trigger] sorted@[i],
                        #[trigger] sorted@[j],
                    ) && (order.le(sorted@[j], sorted@[i]) ==> places[i] < places[j]) by {
                        if j == k {
                            assert(sorted@[i] == was[i]);
                            order.total(item, was[i]);
                        } else if i == k {
                            assert(sorted@[j] == was[j - 1]);
                            if j - 1 > k {
                                assert(order.le(was[k as int], was[j - 1]));
                                order.transitive(item, was[k as int], was[j - 1]);
                            }
                            assert(places[j] == had[j - 1]);
                        } else {
                            let a = if i < k {
                                i
                            } else {
                                i - 1
                            };
                            let b = if j < k {
                                j
                            } else {
                                j - 1
                            };
                            assert(sorted@[i] == was[a] && sorted@[j] == was[b]);
                            assert(places[i] == had[a] && places[j] == had[b]);
                        }
                    }
                    assert forall|v: int| at <= v < n implies #[trigger] places.contains(v) by {
                        if v == at {
                            assert(places[k as int] == v);
                        } else {
                            assert(had.contains(v));
                            let i = choose|i: int| 0 <= i < had.len() && had[i] == v;
                            if i < k {
                                assert(places[i] == v);
                            } else {
                                assert(places[i + 1] == v);
                            }
                        }
                    }
                    assert forall|i: int| 0 <= i < places.len() implies at <= #[trigger] places[i]
                        < n && sorted@[i] == before[places[i]] by {
                        if i < k {
                            assert(places[i] == had[i]);
                        } else if i > k {
                            assert(places[i] == had[i - 1]);
                        }
                    }
                    assert forall|i: int, j: int| 0 <= i < j < places.len() implies places[i]
                        != places[j] by {
                        if i < k && j > k {
                            assert(places[i] == had[i] && places[j] == had[j - 1]);
                        } else if i < k && j < k {
                            assert(places[i] == had[i] && places[j] == had[j]);
                        } else if i > k {
                            assert(places[i] == had[i - 1] && places[j] == had[j - 1]);
                        } else if j == k {
                            assert(places[i] == had[i]);
                        } else {
                            assert(places[j] == had[j - 1]);
                        }
                    }
                }
            },
        }
    }
    proof {
        assert(arranged_by(before, sorted@, *order, places));
    }
    *list = sorted;
}

/// Sorting loses no item and adds none.
pub proof fn law_sorting_keeps_every_item<T, O: Order<T>>(before: Seq<T>, after: Seq<T>, order: O)
    requires
        is_sort_of(before, after, order),
    ensures
        after.len() == before.len(),
        forall|item: T| before.contains(item) <==> after.contains(item),
{
    let places = choose|places: Seq<int>| arranged_by(before, after, order, places);
    assert forall|item: T| before.contains(item) <==> after.contains(item) by {
        if before.contains(item) {
            let v = choose|v: int| 0 <= v < before.len() && before[v] == item;
            assert(places.contains(v));
            let i = choose|i: int| 0 <= i < places.len() && places[i] == v;
            assert(after[i] == item);
        }
        if after.contains(item) {
            let i = choose|i: int| 0 <= i < after.len() && after[i] == item;
            assert(before[places[i]] == item);
        }
    }
}

/// In a sorted list every item may stand before each one after it, and holds
/// one of the places that the list had.
pub proof fn law_sorted_items_ascend<T, O: Order<T>>(
    before: Seq<T>,
    after: Seq<T>,
    order: O,
    i: int,
    j: int,
)
    requires
        is_sort_of(before, after, order),
        0 <= i < j < after.len(),
    ensures
        order.le(after[i], after[j]),
        order.le(after[j], after[i]) ==> exists|k: int, l: int|
            0 <= k < l < before.len() && before[k] == after[i] && before[l] == after[j],
{
    let places = choose|places: Seq<int>| arranged_by(before, after, order, places);
    assert(after[i] == before[places[i]] && after[j] == before[places[j]]);
}

/// A list has one sorting only.
pub proof fn law_sorting_is_unique<T, O: Order<T>>(
    before: Seq<T>,
    one: Seq<T>,
    other: Seq<T>,
    order: O,
)
    requires
        is_sort_of(before, one, order),
        is_sort_of(before, other, order),
    ensures
        one == other,
{
    let p = choose|p: Seq<int>| arranged_by(before, one, order, p);
    let q = choose|q: Seq<int>| arranged_by(before, other, order, q);
    lemma_places_agree(before, one, other, order, p, q, before.len() as int);
    assert(one =~= other);
}

/// Sorting what is sorted changes nothing.
pub proof fn law_sorting_twice_changes_nothing<T, O: Order<T>>(
    before: Seq<T>,
    once: Seq<T>,
    twice: Seq<T>,
    order: O,
)
    requires
        is_sort_of(before, once, order),
        is_sort_of(once, twice, order),
    ensures
        twice == once,
{
    let stay = Seq::new(once.len(), |i: int| i);
    assert forall|v: int| 0 <= v < once.len() implies #[trigger] stay.contains(v) by {
        assert(stay[v] == v);
    }
    assert(arranged_by(once, once, order, stay));
    law_sorting_is_unique(once, once, twice, order);
}

proof fn lemma_places_agree<T, O: Order<T>>(
    before: Seq<T>,
    one: Seq<T>,
    other: Seq<T>,
    order: O,
    p: Seq<int>,
    q: Seq<int>,
    n: int,
)
    requires
        arranged_by(before, one, order, p),
        arranged_by(before, other, order, q),
        0 <= n <= before.len(),
    ensures
        forall|i: int| 0 <= i < n ==> p[i] == q[i],
    decreases n,
{
    if n > 0 {
        let k = n - 1;
        lemma_places_agree(before, one, other, order, p, q, k);
        if p[k] != q[k] {
            assert(q.contains(p[k]) && p.contains(q[k]));
            let m = choose|m: int| 0 <= m < q.len() && q[m] == p[k];
            let l = choose|l: int| 0 <= l < p.len() && p[l] == q[k];
            assert(m > k) by {
                if m < k {
                    assert(p[m] == q[m]);
                }
            }
            assert(l > k) by {
                if l < k {
                    assert(p[l] == q[l]);
                }
            }
            assert(order.le(other[k], other[m]));
            assert(order.le(one[k], one[l]));
            assert(one[k] == other[m] && one[l] == other[k]);
        }
    }
}

/// Turns a list around.
pub fn reverse<T>(list: &mut Vec<T>)
    ensures
        final(list)@ == old(list)@.reverse(),
{
    let ghost before = list@;
    let mut turned: Vec<T> = Vec::new();
    loop
        invariant
            list@.len() + turned@.len() == before.len(),
            list@ == before.take(list@.len() as int),
            forall|i: int| 0 <= i < turned@.len() ==> turned@[i] == before[before.len() - 1 - i],
        ensures
            list@.len() == 0,
        decreases list@.len(),
    {
        let ghost rest = list@;
        match list.pop() {
            None => {
                break;
            },
            Some(item) => {
                assert(rest.drop_last() == before.take(rest.len() - 1));
                turned.push(item);
            },
        }
    }
    assert(turned@ =~= before.reverse());
    *list = turned;
}

/// The order of texts by code point.
#[derive(Clone, Copy, Debug)]
pub struct Alphabetical;

impl Order<String> for Alphabetical {
    open spec fn le(self, a: String, b: String) -> bool {
        text_le(a@, b@)
    }

    proof fn total(self, a: String, b: String) {
        law_text_order_is_total(a@, b@);
    }

    proof fn transitive(self, a: String, b: String, c: String) {
        law_text_order_is_transitive(a@, b@, c@);
    }

    fn leq(&self, a: &String, b: &String) -> (r: bool) {
        at_or_before(a.as_str(), b.as_str())
    }
}

} // verus!
