//! Sorting by text.

use vstd::prelude::*;
use crate::text;

verus! {

/// Where the key at place `k` goes among places that are sorted already: in
/// front of those with a greater key.
pub open spec fn slot(keys: Seq<Seq<char>>, sorted: Seq<int>, k: int) -> int
    decreases sorted.len(),
{
    if sorted.len() == 0 {
        0
    } else if text::precedes(keys[k], keys[sorted.last()]) {
        slot(keys, sorted.drop_last(), k)
    } else {
        sorted.len() as int
    }
}

/// The places of the first `n` keys, in the order of the keys. Equal keys stay
/// in the order in which they stand.
pub open spec fn order(keys: Seq<Seq<char>>, n: nat) -> Seq<int>
    decreases n,
{
    if n == 0 {
        seq![]
    } else {
        let sorted = order(keys, (n - 1) as nat);
        sorted.insert(slot(keys, sorted, n - 1), n - 1)
    }
}

/// The elements of `s` in the order of their keys.
pub open spec fn arranged<A>(s: Seq<A>, keys: Seq<Seq<char>>) -> Seq<A> {
    order(keys, keys.len()).map_values(|i: int| s[i])
}

/// A key goes behind those that are not greater, and in front of those that
/// are.
pub proof fn lemma_slot(keys: Seq<Seq<char>>, sorted: Seq<int>, k: int)
    requires
        forall|i: int, j: int|
            0 <= i < j < sorted.len() ==> !text::precedes(
                keys[#[trigger] sorted[j]],
                keys[#[trigger] sorted[i]],
            ),
    ensures
        0 <= slot(keys, sorted, k) <= sorted.len(),
        forall|i: int|
            slot(keys, sorted, k) <= i < sorted.len() ==> text::precedes(
                keys[k],
                keys[#[trigger] sorted[i]],
            ),
        forall|i: int|
            0 <= i < slot(keys, sorted, k) ==> !text::precedes(
                keys[k],
                keys[#[trigger] sorted[i]],
            ),
    decreases sorted.len(),
{
    if sorted.len() > 0 {
        let rest = sorted.drop_last();
        assert forall|i: int, j: int| 0 <= i < j < rest.len() implies !text::precedes(
            keys[#[trigger] rest[j]],
            keys[#[trigger] rest[i]],
        ) by {
            assert(rest[i] == sorted[i] && rest[j] == sorted[j]);
        }
        if text::precedes(keys[k], keys[sorted.last()]) {
            lemma_slot(keys, rest, k);
            assert forall|i: int|
                slot(keys, sorted, k) <= i < sorted.len() implies text::precedes(
                keys[k],
                keys[#[trigger] sorted[i]],
            ) by {
                if i < rest.len() {
                    assert(rest[i] == sorted[i]);
                }
            }
            assert forall|i: int| 0 <= i < slot(keys, sorted, k) implies !text::precedes(
                keys[k],
                keys[#[trigger] sorted[i]],
            ) by {
                assert(rest[i] == sorted[i]);
            }
        } else {
            let last = keys[sorted.last()];
            assert forall|i: int| 0 <= i < sorted.len() implies !text::precedes(
                keys[k],
                keys[#[trigger] sorted[i]],
            ) by {
                if i < sorted.len() - 1 && text::precedes(keys[k], keys[sorted[i]]) {
                    assert(!text::precedes(keys[sorted[sorted.len() - 1]], keys[sorted[i]]));
                    text::lemma_precedes_total(last, keys[sorted[i]]);
                    text::lemma_precedes_total(keys[k], last);
                    if last != keys[sorted[i]] {
                        text::lemma_precedes_transitive(keys[k], keys[sorted[i]], last);
                    }
                }
            }
        }
    }
}

/// The places are those of the keys, each once, sorted by the keys, and equal
/// keys keep their order.
pub proof fn lemma_order(keys: Seq<Seq<char>>, n: nat)
    requires
        n <= keys.len(),
    ensures
        order(keys, n).len() == n,
        forall|i: int| 0 <= i < n ==> 0 <= #[trigger] order(keys, n)[i] < n,
        order(keys, n).no_duplicates(),
        forall|k: int| 0 <= k < n ==> #[trigger] order(keys, n).contains(k),
        forall|i: int, j: int|
            0 <= i < j < n ==> !text::precedes(
                keys[#[trigger] order(keys, n)[j]],
                keys[#[trigger] order(keys, n)[i]],
            ),
        forall|i: int, j: int|
            0 <= i < j < n && keys[order(keys, n)[i]] == keys[order(keys, n)[j]]
                ==> #[trigger] order(keys, n)[i] < #[trigger] order(keys, n)[j],
    decreases n,
{
    if n > 0 {
        let m = (n - 1) as nat;
        let old_order = order(keys, m);
        let k = n - 1;
        lemma_order(keys, m);
        lemma_slot(keys, old_order, k);
        let s = slot(keys, old_order, k);
        let new_order = order(keys, n);
        assert(new_order == old_order.insert(s, k));
        assert(forall|i: int| 0 <= i < s ==> new_order[i] == old_order[i]);
        assert(new_order[s] == k);
        assert(forall|i: int| s < i < n ==> new_order[i] == old_order[i - 1]);
        assert forall|i: int, j: int| 0 <= i < j < n implies !text::precedes(
            keys[#[trigger] new_order[j]],
            keys[#[trigger] new_order[i]],
        ) && new_order[i] != new_order[j] && (keys[new_order[i]] == keys[new_order[j]]
            ==> new_order[i] < new_order[j]) by {
            let a = if i < s {
                i
            } else {
                i - 1
            };
            let b = if j < s {
                j
            } else {
                j - 1
            };
            if i == s {
                assert(new_order[j] == old_order[b]);
                assert(text::precedes(keys[k], keys[old_order[b]]));
                text::lemma_precedes_total(keys[k], keys[old_order[b]]);
            } else if j == s {
                assert(new_order[i] == old_order[a]);
                assert(!text::precedes(keys[k], keys[old_order[a]]));
            } else {
                assert(new_order[i] == old_order[a] && new_order[j] == old_order[b]);
            }
        }
        assert forall|p: int| 0 <= p < n implies #[trigger] new_order.contains(p) by {
            if p < m {
                assert(old_order.contains(p));
                let i = choose|i: int| 0 <= i < old_order.len() && old_order[i] == p;
                if i < s {
                    assert(new_order[i] == p);
                } else {
                    assert(new_order[i + 1] == p);
                }
            } else {
                assert(new_order[s] == p);
            }
        }
    }
}

/// Places as mathematical numbers.
pub open spec fn numbers(v: Seq<usize>) -> Seq<int> {
    v.map_values(|i: usize| i as int)
}

/// The places of the keys, in the order of the keys.
pub fn order_of(keys: &Vec<String>) -> (result: Vec<usize>)
    ensures
        numbers(result@) == order(text::views(keys@), keys@.len()),
        result@.len() == keys@.len(),
        forall|i: int| 0 <= i < result@.len() ==> 0 <= #[trigger] result@[i] < keys@.len(),
{
    let ghost all = text::views(keys@);
    let mut result: Vec<usize> = Vec::new();
    let mut k: usize = 0;
    proof {
        assert(numbers(result@) =~= order(all, 0));
    }
    while k < keys.len()
        invariant
            k <= keys@.len(),
            all == text::views(keys@),
            result@.len() == k,
            numbers(result@) == order(all, k as nat),
            forall|i: int| 0 <= i < result@.len() ==> 0 <= #[trigger] result@[i] < k,
        decreases keys@.len() - k,
    {
        let ghost sorted = numbers(result@);
        let mut j: usize = result.len();
        proof {
            assert(sorted.take(j as int) == sorted);
        }
        while j > 0 && text::comes_before(keys[k].as_str(), keys[result[j - 1]].as_str())
            invariant
                j <= result@.len(),
                k < keys@.len(),
                all == text::views(keys@),
                sorted == numbers(result@),
                forall|i: int| 0 <= i < result@.len() ==> 0 <= #[trigger] result@[i] < k,
                slot(all, sorted.take(j as int), k as int) == slot(all, sorted, k as int),
            decreases j,
        {
            proof {
                assert(sorted.take(j as int).drop_last() == sorted.take(j - 1));
                assert(sorted.take(j as int).last() == result@[j - 1]);
            }
            j -= 1;
        }
        proof {
            if j > 0 {
                assert(sorted.take(j as int).last() == result@[j - 1]);
            }
            assert(slot(all, sorted, k as int) == j);
        }
        let ghost before = result@;
        result.insert(j, k);
        proof {
            assert(numbers(result@) =~= sorted.insert(j as int, k as int));
            assert forall|i: int| 0 <= i < result@.len() implies 0 <= #[trigger] result@[i] < k
                + 1 by {
                if i < j {
                    assert(result@[i] == before[i]);
                } else if i > j {
                    assert(result@[i] == before[i - 1]);
                }
            }
        }
        k += 1;
    }
    result
}

/// The texts in their order.
pub fn sorted(v: &Vec<String>) -> (result: Vec<String>)
    ensures
        text::views(result@) == arranged(text::views(v@), text::views(v@)),
        result@.len() == v@.len(),
{
    let ghost all = text::views(v@);
    let places = order_of(v);
    let ghost o = numbers(places@);
    let mut result: Vec<String> = Vec::new();
    let mut i: usize = 0;
    while i < places.len()
        invariant
            i <= places@.len(),
            all == text::views(v@),
            o == numbers(places@),
            forall|i: int| 0 <= i < places@.len() ==> 0 <= #[trigger] places@[i] < v@.len(),
            text::views(result@) == o.take(i as int).map_values(|i: int| all[i]),
        decreases places@.len() - i,
    {
        let s = v[places[i]].clone();
        proof {
            text::lemma_views_push(result@, s);
            assert(o.take(i + 1) == o.take(i as int).push(o[i as int]));
            assert(o.take(i + 1).map_values(|i: int| all[i]) =~= o.take(i as int).map_values(
                |i: int| all[i],
            ).push(s@));
        }
        result.push(s);
        i += 1;
    }
    proof {
        assert(o.take(i as int) == o);
    }
    result
}

} // verus!
