//! Sums, extrema and orderings of sequences of numbers.
use vstd::prelude::*;

use crate::num::model::Real;

verus! {

/// Zero with a negative sign: the neutral element of addition.
pub open spec fn negative_zero() -> Real {
    Real { bits: 0x8000_0000_0000_0000 }
}

/// The sum of a sequence, added up from its first element on.
pub open spec fn sum_of_seq(s: Seq<Real>) -> Real
    decreases s.len(),
{
    if s.len() == 0 {
        negative_zero()
    } else {
        sum_of_seq(s.drop_last()) + s.last()
    }
}

/// The sum of a sequence.
pub fn sum(v: &[Real]) -> (r: Real)
    ensures
        r == sum_of_seq(v@),
{
    let mut acc = Real { bits: 0x8000_0000_0000_0000 };
    let mut i: usize = 0;
    while i < v.len()
        invariant
            i <= v@.len(),
            acc == sum_of_seq(v@.take(i as int)),
        decreases v@.len() - i,
    {
        acc = acc + v[i];
        assert(v@.take(i + 1).drop_last() =~= v@.take(i as int));
        i += 1;
    }
    assert(v@.take(i as int) =~= v@);
    acc
}

/// The sum of a sequence, added up from zero.
pub open spec fn tally(s: Seq<Real>) -> Real
    decreases s.len(),
{
    if s.len() == 0 {
        Real::whole(0)
    } else {
        tally(s.drop_last()) + s.last()
    }
}

/// The sum of a sequence, added up from zero.
pub fn total(v: &[Real]) -> (r: Real)
    ensures
        r == tally(v@),
{
    let mut acc = Real::whole(0);
    let mut i: usize = 0;
    while i < v.len()
        invariant
            i <= v@.len(),
            acc == tally(v@.take(i as int)),
        decreases v@.len() - i,
    {
        acc = acc + v[i];
        assert(v@.take(i + 1).drop_last() =~= v@.take(i as int));
        i += 1;
    }
    assert(v@.take(i as int) =~= v@);
    acc
}

/// The arithmetic mean of a sequence.
pub open spec fn mean_of(s: Seq<Real>) -> Real {
    sum_of_seq(s) / Real::count(s.len() as usize)
}

/// The arithmetic mean of a sequence.
pub fn mean(v: &[Real]) -> (r: Real)
    ensures
        r == mean_of(v@),
{
    sum(v) / Real::count(v.len())
}

/// The arithmetic mean, or zero of nothing.
pub open spec fn mean_or_zero(s: Seq<Real>) -> Real {
    if s.len() == 0 {
        Real::whole(0)
    } else {
        mean_of(s)
    }
}

/// The arithmetic mean, or zero of nothing.
pub fn mean_if_any(v: &[Real]) -> (r: Real)
    ensures
        r == mean_or_zero(v@),
{
    if v.len() == 0 {
        Real::whole(0)
    } else {
        mean(v)
    }
}

/// The squared distances of a sequence's elements from `c`.
pub open spec fn squared_deviations(s: Seq<Real>, c: Real) -> Seq<Real> {
    s.map_values(|x: Real| (x - c) * (x - c))
}

/// The sum of the squared distances from `c`.
pub fn sum_squared_deviations(v: &[Real], c: Real) -> (r: Real)
    ensures
        r == sum_of_seq(squared_deviations(v@, c)),
{
    let mut d: Vec<Real> = Vec::new();
    let mut i: usize = 0;
    while i < v.len()
        invariant
            i <= v@.len(),
            d@ =~= squared_deviations(v@, c).take(i as int),
        decreases v@.len() - i,
    {
        let e = v[i] - c;
        d.push(e * e);
        i += 1;
    }
    assert(d@ =~= squared_deviations(v@, c));
    sum(d.as_slice())
}

/// The products of two sequences' elements, as far as both reach.
pub open spec fn products(a: Seq<Real>, b: Seq<Real>) -> Seq<Real> {
    Seq::new(
        if a.len() <= b.len() {
            a.len()
        } else {
            b.len()
        },
        |i: int| a[i] * b[i],
    )
}

/// The sum of the products of two sequences' elements.
pub fn dot(a: &[Real], b: &[Real]) -> (r: Real)
    ensures
        r == sum_of_seq(products(a@, b@)),
{
    let n: usize = if a.len() <= b.len() {
        a.len()
    } else {
        b.len()
    };
    let mut d: Vec<Real> = Vec::new();
    let mut i: usize = 0;
    while i < n
        invariant
            i <= n,
            n <= a@.len(),
            n <= b@.len(),
            n == products(a@, b@).len(),
            d@ =~= products(a@, b@).take(i as int),
        decreases n - i,
    {
        d.push(a[i] * b[i]);
        i += 1;
    }
    assert(d@ =~= products(a@, b@));
    sum(d.as_slice())
}

/// No element fails to be a number.
pub open spec fn all_numbers(s: Seq<Real>) -> bool {
    forall|i: int| 0 <= i < s.len() ==> !(#[trigger] s[i]).nan()
}

/// The place of the largest element, the last one of several.
pub open spec fn last_max(s: Seq<Real>) -> int
    recommends
        s.len() > 0,
    decreases s.len(),
{
    if s.len() <= 1 {
        0
    } else {
        let before = last_max(s.drop_last());
        if s.last() < s[before] {
            before
        } else {
            s.len() - 1
        }
    }
}

/// The place of the largest element, the last one of several.
pub fn argmax(v: &[Real]) -> (r: usize)
    requires
        v@.len() > 0,
    ensures
        r == last_max(v@),
        r < v@.len(),
{
    let mut best: usize = 0;
    let mut i: usize = 1;
    assert(v@.take(1).len() == 1);
    while i < v.len()
        invariant
            1 <= i <= v@.len(),
            best < i,
            best == last_max(v@.take(i as int)),
        decreases v@.len() - i,
    {
        assert(v@.take(i + 1).drop_last() =~= v@.take(i as int));
        if !(v[i] < v[best]) {
            best = i;
        }
        i += 1;
    }
    assert(v@.take(i as int) =~= v@);
    best
}

/// The place of the largest element is a place of the sequence.
pub proof fn lemma_last_max_place(s: Seq<Real>)
    requires
        s.len() > 0,
    ensures
        0 <= last_max(s) < s.len(),
    decreases s.len(),
{
    if s.len() > 1 {
        lemma_last_max_place(s.drop_last());
    }
}

/// Nothing exceeds the element that `argmax` finds, and everything behind it is
/// smaller.
pub proof fn lemma_last_max(s: Seq<Real>)
    requires
        s.len() > 0,
        all_numbers(s),
    ensures
        0 <= last_max(s) < s.len(),
        forall|i: int| 0 <= i < s.len() ==> s[i] <= s[last_max(s)],
        forall|i: int| last_max(s) < i < s.len() ==> s[i] < s[last_max(s)],
    decreases s.len(),
{
    if s.len() > 1 {
        let t = s.drop_last();
        assert forall|i: int| 0 <= i < t.len() implies !(#[trigger] t[i]).nan() by {
            assert(!s[i].nan());
        }
        lemma_last_max(t);
        let b = last_max(t);
        assert(!s[b].nan());
        assert forall|i: int| 0 <= i < s.len() implies s[i] <= s[last_max(s)] by {
            assert(!s[i].nan());
            if i < t.len() {
                assert(t[i] <= t[b]);
            }
        }
        assert forall|i: int| last_max(s) < i < s.len() implies s[i] < s[last_max(s)] by {
            if i < t.len() {
                assert(t[i] < t[b]);
            }
        }
    }
}

/// How many of the leading places of `order` hold keys that do not exceed `x`,
/// counted up to the first that does.
pub open spec fn slot(keys: Seq<Real>, order: Seq<usize>, x: Real) -> int
    decreases order.len(),
{
    if order.len() == 0 || x < keys[order[0] as int] {
        0
    } else {
        1 + slot(keys, order.drop_first(), x)
    }
}

/// The places `0 .. n` in ascending order of their keys; equal keys keep their
/// order.
pub open spec fn stable_order_of(keys: Seq<Real>, n: nat) -> Seq<usize>
    decreases n,
{
    if n == 0 {
        Seq::empty()
    } else {
        let o = stable_order_of(keys, (n - 1) as nat);
        o.insert(slot(keys, o, keys[n - 1]), (n - 1) as usize)
    }
}

/// `a` comes before `b` by key, and by place where the keys are equal.
pub open spec fn precedes(keys: Seq<Real>, a: usize, b: usize) -> bool {
    keys[a as int] < keys[b as int] || (keys[a as int] <= keys[b as int] && a < b)
}

/// `order` lists places below `n`, each before all that it precedes.
pub open spec fn in_order(keys: Seq<Real>, order: Seq<usize>, n: nat) -> bool {
    &&& order.len() == n
    &&& forall|i: int| 0 <= i < n ==> (#[trigger] order[i]) < n
    &&& forall|i: int, j: int|
        0 <= i < j < n ==> precedes(keys, #[trigger] order[i], #[trigger] order[j])
}

pub proof fn lemma_slot(keys: Seq<Real>, order: Seq<usize>, x: Real)
    ensures
        0 <= slot(keys, order, x) <= order.len(),
        forall|i: int|
            0 <= i < slot(keys, order, x) ==> !(x < keys[#[trigger] order[i] as int]),
        slot(keys, order, x) < order.len() ==> x < keys[order[slot(keys, order, x)] as int],
    decreases order.len(),
{
    if order.len() > 0 && !(x < keys[order[0] as int]) {
        let t = order.drop_first();
        lemma_slot(keys, t, x);
        assert forall|i: int| 0 <= i < slot(keys, order, x) implies !(x
            < keys[#[trigger] order[i] as int]) by {
            if i > 0 {
                assert(t[i - 1] == order[i]);
            }
        }
    }
}

proof fn lemma_slot_unique(keys: Seq<Real>, order: Seq<usize>, x: Real, p: int)
    requires
        0 <= p <= order.len(),
        forall|i: int| 0 <= i < p ==> !(x < keys[#[trigger] order[i] as int]),
        p < order.len() ==> x < keys[order[p] as int],
    ensures
        slot(keys, order, x) == p,
    decreases p,
{
    if p > 0 {
        let t = order.drop_first();
        assert(!(x < keys[order[0] as int]));
        assert forall|i: int| 0 <= i < p - 1 implies !(x < keys[#[trigger] t[i] as int]) by {
            assert(t[i] == order[i + 1]);
        }
        lemma_slot_unique(keys, t, x, p - 1);
    }
}

/// The stable order lists every place below `n` once, by ascending key, and
/// equal keys by place.
pub proof fn lemma_stable_order(keys: Seq<Real>, n: nat)
    requires
        n <= keys.len() <= usize::MAX,
        all_numbers(keys),
    ensures
        in_order(keys, stable_order_of(keys, n), n),
    decreases n,
{
    if n > 0 {
        let m = (n - 1) as nat;
        let o = stable_order_of(keys, m);
        lemma_stable_order(keys, m);
        let x = keys[m as int];
        let p = slot(keys, o, x);
        lemma_slot(keys, o, x);
        let r = o.insert(p, m as usize);
        assert forall|i: int| 0 <= i < n implies (#[trigger] r[i]) < n by {
            if i < p {
                assert(r[i] == o[i]);
            } else if i > p {
                assert(r[i] == o[i - 1]);
            }
        }
        assert forall|i: int, j: int| 0 <= i < j < n implies precedes(
            keys,
            #[trigger] r[i],
            #[trigger] r[j],
        ) by {
            assert(!keys[m as int].nan());
            if j < p {
                assert(r[i] == o[i] && r[j] == o[j]);
            } else if j == p {
                assert(r[i] == o[i]);
                assert(!keys[o[i] as int].nan());
            } else if i < p {
                assert(r[i] == o[i] && r[j] == o[j - 1]);
            } else if i == p {
                assert(r[j] == o[j - 1]);
                assert(!keys[o[j - 1] as int].nan());
                if p < j - 1 {
                    assert(precedes(keys, o[p], o[j - 1]));
                }
                assert(!keys[o[p] as int].nan());
            } else {
                assert(r[i] == o[i - 1] && r[j] == o[j - 1]);
            }
        }
    }
}

/// The stable order lists places below `n`, whatever the keys are.
pub proof fn lemma_stable_order_places(keys: Seq<Real>, n: nat)
    requires
        n <= keys.len() <= usize::MAX,
    ensures
        stable_order_of(keys, n).len() == n,
        forall|i: int| 0 <= i < n ==> (#[trigger] stable_order_of(keys, n)[i]) < n,
    decreases n,
{
    if n > 0 {
        let m = (n - 1) as nat;
        let o = stable_order_of(keys, m);
        lemma_stable_order_places(keys, m);
        let p = slot(keys, o, keys[m as int]);
        lemma_slot(keys, o, keys[m as int]);
        let r = o.insert(p, m as usize);
        assert forall|i: int| 0 <= i < n implies (#[trigger] r[i]) < n by {
            if i < p {
                assert(r[i] == o[i]);
            } else if i > p {
                assert(r[i] == o[i - 1]);
            }
        }
    }
}

fn has_only_numbers(v: &[Real]) -> (r: bool)
    ensures
        r == all_numbers(v@),
{
    let mut i: usize = 0;
    while i < v.len()
        invariant
            i <= v@.len(),
            forall|j: int| 0 <= j < i ==> !(#[trigger] v@[j]).nan(),
        decreases v@.len() - i,
    {
        if v[i].is_nan() {
            return false;
        }
        i += 1;
    }
    true
}

fn slot_linear(keys: &[Real], order: &Vec<usize>, x: Real) -> (r: usize)
    requires
        forall|i: int| 0 <= i < order@.len() ==> (#[trigger] order@[i]) < keys@.len(),
    ensures
        r == slot(keys@, order@, x),
        r <= order@.len(),
{
    let mut i: usize = 0;
    while i < order.len()
        invariant
            i <= order@.len(),
            forall|i: int| 0 <= i < order@.len() ==> (#[trigger] order@[i]) < keys@.len(),
            forall|j: int| 0 <= j < i ==> !(x < keys@[#[trigger] order@[j] as int]),
        decreases order@.len() - i,
    {
        if x < keys[order[i]] {
            proof {
                lemma_slot_unique(keys@, order@, x, i as int);
            }
            return i;
        }
        i += 1;
    }
    proof {
        lemma_slot_unique(keys@, order@, x, i as int);
    }
    i
}

fn slot_binary(keys: &[Real], order: &Vec<usize>, n: usize) -> (r: usize)
    requires
        n < keys@.len(),
        all_numbers(keys@),
        in_order(keys@, order@, n as nat),
    ensures
        r == slot(keys@, order@, keys@[n as int]),
        r <= n,
{
    let x = keys[n];
    let mut lo: usize = 0;
    let mut hi: usize = n;
    while lo < hi
        invariant
            lo <= hi <= n < keys@.len(),
            x == keys@[n as int],
            all_numbers(keys@),
            in_order(keys@, order@, n as nat),
            forall|i: int| 0 <= i < lo ==> !(x < keys@[#[trigger] order@[i] as int]),
            forall|i: int| hi <= i < n ==> x < keys@[#[trigger] order@[i] as int],
        decreases hi - lo,
    {
        let mid: usize = lo + (hi - lo) / 2;
        assert(!keys@[n as int].nan());
        assert(!keys@[order@[mid as int] as int].nan());
        if x < keys[order[mid]] {
            assert forall|i: int| mid <= i < n implies x < keys@[#[trigger] order@[i] as int] by {
                if mid < i {
                    assert(precedes(keys@, order@[mid as int], order@[i]));
                }
                assert(!keys@[order@[i] as int].nan());
            }
            hi = mid;
        } else {
            assert forall|i: int| 0 <= i < mid + 1 implies !(x < keys@[#[trigger] order@[i] as int]) by {
                if i < mid {
                    assert(precedes(keys@, order@[i], order@[mid as int]));
                }
                assert(!keys@[order@[i] as int].nan());
            }
            lo = mid + 1;
        }
    }
    proof {
        lemma_slot_unique(keys@, order@, x, lo as int);
    }
    lo
}

/// The places of `keys` in ascending order of their keys; equal keys keep their
/// order. A key that is not a number counts as equal to every other.
pub fn stable_order(keys: &[Real]) -> (r: Vec<usize>)
    ensures
        r@ == stable_order_of(keys@, keys@.len()),
        r@.len() == keys@.len(),
        forall|i: int| 0 <= i < r@.len() ==> (#[trigger] r@[i]) < keys@.len(),
        all_numbers(keys@) ==> in_order(keys@, r@, keys@.len()),
{
    let clean = has_only_numbers(keys);
    let mut order: Vec<usize> = Vec::new();
    let mut n: usize = 0;
    while n < keys.len()
        invariant
            n <= keys@.len(),
            clean == all_numbers(keys@),
            order@ == stable_order_of(keys@, n as nat),
            order@.len() == n,
            forall|i: int| 0 <= i < n ==> (#[trigger] order@[i]) < n,
            clean ==> in_order(keys@, order@, n as nat),
        decreases keys@.len() - n,
    {
        let at: usize = if clean {
            slot_binary(keys, &order, n)
        } else {
            slot_linear(keys, &order, keys[n])
        };
        proof {
            lemma_stable_order_places(keys@, (n + 1) as nat);
            if clean {
                lemma_stable_order(keys@, (n + 1) as nat);
            }
        }
        order.insert(at, n);
        n += 1;
    }
    order
}

/// The sequence in ascending order; equal elements keep their order.
pub open spec fn sorted_of(s: Seq<Real>) -> Seq<Real> {
    stable_order_of(s, s.len()).map_values(|i: usize| s[i as int])
}

/// The sequence in ascending order; equal elements keep their order.
pub fn sorted(v: &[Real]) -> (r: Vec<Real>)
    ensures
        r@ == sorted_of(v@),
        r@.len() == v@.len(),
{
    let order = stable_order(v);
    let mut out: Vec<Real> = Vec::new();
    let mut i: usize = 0;
    while i < order.len()
        invariant
            i <= order@.len(),
            forall|i: int| 0 <= i < order@.len() ==> (#[trigger] order@[i]) < v@.len(),
            out@ =~= order@.map_values(|i: usize| v@[i as int]).take(i as int),
        decreases order@.len() - i,
    {
        out.push(v[order[i]]);
        i += 1;
    }
    assert(out@ =~= sorted_of(v@));
    out
}

} // verus!
