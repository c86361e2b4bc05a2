//! Lists.

use vstd::prelude::*;

verus! {

/// The elements of `s` that satisfy `p`, in order.
pub open spec fn keep<A>(s: Seq<A>, p: spec_fn(A) -> bool) -> Seq<A>
    decreases s.len(),
{
    if s.len() == 0 {
        seq![]
    } else if p(s.last()) {
        keep(s.drop_last(), p).push(s.last())
    } else {
        keep(s.drop_last(), p)
    }
}

pub proof fn lemma_keep_step<A>(s: Seq<A>, p: spec_fn(A) -> bool, i: int)
    requires
        0 <= i < s.len(),
    ensures
        keep(s.take(i + 1), p) == if p(s[i]) {
            keep(s.take(i), p).push(s[i])
        } else {
            keep(s.take(i), p)
        },
{
    assert(s.take(i + 1).drop_last() == s.take(i));
}

/// What is kept satisfies the condition and comes from the list, and nothing
/// that satisfies it is lost.
pub proof fn lemma_keep<A>(s: Seq<A>, p: spec_fn(A) -> bool)
    ensures
        keep(s, p).len() <= s.len(),
        forall|a: A| #[trigger] keep(s, p).contains(a) <==> s.contains(a) && p(a),
    decreases s.len(),
{
    if s.len() > 0 {
        let rest = s.drop_last();
        lemma_keep(rest, p);
        assert forall|a: A| #[trigger] keep(s, p).contains(a) <==> s.contains(a) && p(a) by {
            let k = keep(s, p);
            let kr = keep(rest, p);
            if k.contains(a) {
                let i = choose|i: int| 0 <= i < k.len() && k[i] == a;
                if i < kr.len() {
                    assert(kr[i] == a);
                    assert(kr.contains(a));
                    let j = choose|j: int| 0 <= j < rest.len() && rest[j] == a;
                    assert(s[j] == a);
                } else {
                    assert(s[s.len() - 1] == a);
                }
            }
            if s.contains(a) && p(a) {
                let i = choose|i: int| 0 <= i < s.len() && s[i] == a;
                if i < rest.len() {
                    assert(rest[i] == a);
                    assert(rest.contains(a));
                    assert(kr.contains(a));
                    let j = choose|j: int| 0 <= j < kr.len() && kr[j] == a;
                    assert(k[j] == a);
                } else {
                    assert(k[k.len() - 1] == a);
                }
            }
        }
    }
}

/// What is kept of two lists, one after the other.
pub proof fn lemma_keep_append<A>(s: Seq<A>, t: Seq<A>, p: spec_fn(A) -> bool)
    ensures
        keep(s + t, p) == keep(s, p) + keep(t, p),
    decreases t.len(),
{
    if t.len() == 0 {
        assert(s + t =~= s);
        assert(keep(s, p) + keep(t, p) =~= keep(s, p));
    } else {
        lemma_keep_append(s, t.drop_last(), p);
        assert((s + t).drop_last() =~= s + t.drop_last());
        assert(keep(s + t, p) =~= keep(s, p) + keep(t, p));
    }
}

/// Where everything satisfies the condition, everything is kept.
pub proof fn lemma_keep_everything<A>(s: Seq<A>, p: spec_fn(A) -> bool)
    requires
        forall|i: int| 0 <= i < s.len() ==> p(#[trigger] s[i]),
    ensures
        keep(s, p) == s,
    decreases s.len(),
{
    if s.len() > 0 {
        let rest = s.drop_last();
        assert forall|i: int| 0 <= i < rest.len() implies p(#[trigger] rest[i]) by {
            assert(rest[i] == s[i]);
        }
        lemma_keep_everything(rest, p);
        assert(rest.push(s.last()) == s);
    }
}

/// Whether a number is at most another.
pub open spec fn at_most() -> spec_fn(i64, i64) -> bool {
    |a: i64, b: i64| a <= b
}

/// The numbers in ascending order.
pub fn sorted(v: &Vec<i64>) -> (result: Vec<i64>)
    ensures
        result@ == v@.sort_by(at_most()),
        result@.len() == v@.len(),
        forall|i: int, j: int| 0 <= i <= j < result@.len() ==> result@[i] <= result@[j],
{
    let mut result: Vec<i64> = Vec::new();
    let mut i: usize = 0;
    proof {
        assert(v@.take(0) =~= result@);
    }
    while i < v.len()
        invariant
            i <= v@.len(),
            result@.len() == i,
            result@.to_multiset() == v@.take(i as int).to_multiset(),
            forall|a: int, b: int| 0 <= a <= b < result@.len() ==> result@[a] <= result@[b],
        decreases v@.len() - i,
    {
        let x = v[i];
        let mut j: usize = result.len();
        while j > 0 && result[j - 1] > x
            invariant
                j <= result@.len(),
                forall|k: int| j <= k < result@.len() ==> result@[k] > x,
            decreases j,
        {
            j -= 1;
        }
        proof {
            assert(v@.take(i + 1) =~= v@.take(i as int).push(x));
            vstd::seq_lib::to_multiset_build(v@.take(i as int), x);
            vstd::seq_lib::to_multiset_insert(result@, j as int, x);
        }
        result.insert(j, x);
        i += 1;
    }
    proof {
        assert(v@.take(i as int) =~= v@);
        v@.lemma_sort_by_ensures(at_most());
        assert(vstd::relations::sorted_by(result@, at_most()));
        vstd::seq_lib::lemma_sorted_unique(result@, v@.sort_by(at_most()), at_most());
    }
    result
}

/// Whether one list is left of another if elements are taken out: what is left
/// stands in the same order.
pub open spec fn is_part<A>(part: Seq<A>, whole: Seq<A>) -> bool {
    exists|places: Seq<int>| #[trigger] picks(places, part, whole)
}

/// Whether these places, which ascend, hold the elements of `part`.
pub open spec fn picks<A>(places: Seq<int>, part: Seq<A>, whole: Seq<A>) -> bool {
    &&& places.len() == part.len()
    &&& forall|i: int| 0 <= i < places.len() ==> 0 <= #[trigger] places[i] < whole.len()
    &&& forall|i: int| 0 <= i < places.len() ==> whole[#[trigger] places[i]] == part[i]
    &&& forall|i: int, j: int|
        0 <= i < j < places.len() ==> #[trigger] places[i] < #[trigger] places[j]
}

/// A list is a part of itself.
pub proof fn lemma_part_whole<A>(s: Seq<A>)
    ensures
        is_part(s, s),
{
    assert(picks(Seq::new(s.len(), |i: int| i), s, s));
}

/// A part stays a part if the whole grows at its end, with or without it.
pub proof fn lemma_part_step<A>(part: Seq<A>, whole: Seq<A>, a: A)
    requires
        is_part(part, whole),
    ensures
        is_part(part, whole.push(a)),
        is_part(part.push(a), whole.push(a)),
{
    let places = choose|places: Seq<int>| #[trigger] picks(places, part, whole);
    assert(picks(places, part, whole.push(a)));
    assert(picks(places.push(whole.len() as int), part.push(a), whole.push(a)));
}

/// A part of a part is a part.
pub proof fn lemma_part_of_part<A>(a: Seq<A>, b: Seq<A>, c: Seq<A>)
    requires
        is_part(a, b),
        is_part(b, c),
    ensures
        is_part(a, c),
{
    let p = choose|p: Seq<int>| #[trigger] picks(p, a, b);
    let q = choose|q: Seq<int>| #[trigger] picks(q, b, c);
    let r = Seq::new(a.len(), |i: int| q[p[i]]);
    assert forall|i: int, j: int| 0 <= i < j < r.len() implies #[trigger] r[i] < #[trigger] r[j] by {
        assert(p[i] < p[j]);
        assert(q[p[i]] < q[p[j]]);
    }
    assert forall|i: int| 0 <= i < r.len() implies c[#[trigger] r[i]] == a[i] by {
        assert(b[p[i]] == a[i]);
        assert(c[q[p[i]]] == b[p[i]]);
    }
    assert forall|i: int| 0 <= i < r.len() implies 0 <= #[trigger] r[i] < c.len() by {
        assert(0 <= p[i] < b.len());
    }
    assert(picks(r, a, c));
}

/// What stands at the front of a list is a part of it.
pub proof fn lemma_part_front<A>(s: Seq<A>, n: int)
    requires
        0 <= n <= s.len(),
    ensures
        is_part(s.take(n), s),
{
    assert(picks(Seq::new(n as nat, |i: int| i), s.take(n), s));
}

/// The elements of a part are elements of the whole.
pub proof fn lemma_part_member<A>(part: Seq<A>, whole: Seq<A>, i: int)
    requires
        is_part(part, whole),
        0 <= i < part.len(),
    ensures
        whole.contains(part[i]),
        part.len() <= whole.len(),
{
    let places = choose|places: Seq<int>| #[trigger] picks(places, part, whole);
    assert(whole[places[i]] == part[i]);
    lemma_ascending(places, whole.len() as int);
}

proof fn lemma_ascending(places: Seq<int>, bound: int)
    requires
        forall|i: int| 0 <= i < places.len() ==> 0 <= #[trigger] places[i] < bound,
        forall|i: int, j: int|
            0 <= i < j < places.len() ==> #[trigger] places[i] < #[trigger] places[j],
        bound >= 0,
    ensures
        places.len() <= bound,
    decreases places.len(),
{
    if places.len() > 0 {
        let rest = places.drop_last();
        assert forall|i: int| 0 <= i < rest.len() implies 0 <= #[trigger] rest[i]
            < places.last() by {
            assert(places[i] < places[places.len() - 1]);
        }
        lemma_ascending(rest, places.last());
    }
}

/// What satisfies a condition is kept, all of it and nothing else, in its order.
pub proof fn law_keeping_keeps_order<A>(s: Seq<A>, p: spec_fn(A) -> bool)
    ensures
        is_part(keep(s, p), s),
        forall|i: int| 0 <= i < keep(s, p).len() ==> p(#[trigger] keep(s, p)[i]),
        forall|i: int| 0 <= i < s.len() && p(#[trigger] s[i]) ==> keep(s, p).contains(s[i]),
    decreases s.len(),
{
    lemma_keep(s, p);
    assert forall|i: int| 0 <= i < keep(s, p).len() implies p(#[trigger] keep(s, p)[i]) by {
        assert(keep(s, p).contains(keep(s, p)[i]));
    }
    assert forall|i: int| 0 <= i < s.len() && p(#[trigger] s[i]) implies keep(s, p).contains(
        s[i],
    ) by {
        assert(s.contains(s[i]));
    }
    if s.len() > 0 {
        law_keeping_keeps_order(s.drop_last(), p);
        lemma_part_step(keep(s.drop_last(), p), s.drop_last(), s.last());
        assert(s.drop_last().push(s.last()) =~= s);
    } else {
        lemma_part_whole(s);
        assert(keep(s, p) =~= s);
    }
}

proof fn lemma_keep_counts<A>(s: Seq<A>, p: spec_fn(A) -> bool, x: A)
    ensures
        keep(s, p).to_multiset().count(x) == if p(x) {
            s.to_multiset().count(x)
        } else {
            0
        },
    decreases s.len(),
{
    broadcast use vstd::seq_lib::group_to_multiset_ensures;

    if s.len() > 0 {
        lemma_keep_counts(s.drop_last(), p, x);
        assert(s.drop_last().push(s.last()) =~= s);
    } else {
        assert(keep(s, p) =~= s);
    }
}

/// As many elements satisfy a condition in one order as in another.
pub proof fn lemma_keep_in_any_order<A>(s: Seq<A>, t: Seq<A>, p: spec_fn(A) -> bool)
    requires
        s.to_multiset() == t.to_multiset(),
    ensures
        keep(s, p).len() == keep(t, p).len(),
{
    broadcast use vstd::seq_lib::group_to_multiset_ensures;

    let a = keep(s, p).to_multiset();
    let b = keep(t, p).to_multiset();
    assert forall|x: A| a.count(x) == b.count(x) by {
        lemma_keep_counts(s, p, x);
        lemma_keep_counts(t, p, x);
    }
    assert(a =~= b);
    assert(a.len() == keep(s, p).len());
    assert(b.len() == keep(t, p).len());
}

/// Where nothing satisfies the condition, nothing is kept.
pub proof fn lemma_keep_nothing<A>(s: Seq<A>, p: spec_fn(A) -> bool)
    requires
        forall|i: int| 0 <= i < s.len() ==> !p(#[trigger] s[i]),
    ensures
        keep(s, p).len() == 0,
{
    lemma_keep(s, p);
    if keep(s, p).len() > 0 {
        assert(keep(s, p).contains(keep(s, p)[0]));
    }
}

} // verus!
