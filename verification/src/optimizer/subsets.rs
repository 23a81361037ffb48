//! Enumeration of subsets of a fixed size.
use vstd::prelude::*;

verus! {

/// All sequences of `k` ascending places in `start .. n`, in lexicographic
/// order.
pub open spec fn subsets(start: nat, n: nat, k: nat) -> Seq<Seq<usize>>
    decreases n - start,
{
    if k == 0 {
        seq![Seq::empty()]
    } else if start >= n {
        Seq::empty()
    } else {
        prefixed(seq![start as usize], subsets(start + 1, n, (k - 1) as nat)) + subsets(
            start + 1,
            n,
            k,
        )
    }
}

/// Every sequence of a list behind the same prefix.
pub open spec fn prefixed(p: Seq<usize>, s: Seq<Seq<usize>>) -> Seq<Seq<usize>> {
    s.map_values(|x: Seq<usize>| p + x)
}

/// What the sequences of a list of vectors are.
pub open spec fn views(v: Seq<Vec<usize>>) -> Seq<Seq<usize>> {
    v.map_values(|x: Vec<usize>| x@)
}

/// `s` is a sequence of `k` ascending places in `start .. n`.
pub open spec fn ascending_in(s: Seq<usize>, start: nat, n: nat, k: nat) -> bool {
    &&& s.len() == k
    &&& forall|i: int| 0 <= i < k ==> start <= #[trigger] s[i] && s[i] < n
    &&& forall|i: int, j: int| 0 <= i < j < k ==> #[trigger] s[i] < #[trigger] s[j]
}

/// Too few places hold no subset of the size.
proof fn lemma_no_subsets(start: nat, n: nat, k: nat)
    requires
        k > 0,
        start + k > n,
    ensures
        subsets(start, n, k).len() == 0,
    decreases n - start,
{
    if start < n {
        lemma_no_subsets(start + 1, n, k);
        if k > 1 {
            lemma_no_subsets(start + 1, n, (k - 1) as nat);
        } else {
            assert(start + 1 > n);
        }
    }
}

/// The enumeration holds sequences of ascending places only.
pub proof fn subsets_are_ascending(start: nat, n: nat, k: nat)
    requires
        n <= usize::MAX,
    ensures
        forall|i: int|
            0 <= i < subsets(start, n, k).len() ==> ascending_in(
                #[trigger] subsets(start, n, k)[i],
                start,
                n,
                k,
            ),
    decreases n - start,
{
    if k > 0 && start < n {
        subsets_are_ascending(start + 1, n, (k - 1) as nat);
        subsets_are_ascending(start + 1, n, k);
        let p = seq![start as usize];
        let a = subsets(start + 1, n, (k - 1) as nat);
        let b = subsets(start + 1, n, k);
        assert forall|i: int| 0 <= i < subsets(start, n, k).len() implies ascending_in(
            #[trigger] subsets(start, n, k)[i],
            start,
            n,
            k,
        ) by {
            let s = subsets(start, n, k)[i];
            if i < a.len() {
                assert(s == p + a[i]);
                assert(ascending_in(a[i], start + 1, n, (k - 1) as nat));
                assert forall|x: int, y: int| 0 <= x < y < k implies #[trigger] s[x] < #[trigger] s[y] by {
                    if x > 0 {
                        assert(s[x] == a[i][x - 1] && s[y] == a[i][y - 1]);
                    }
                }
                assert forall|x: int| 0 <= x < k implies start <= #[trigger] s[x] && s[x] < n by {
                    if x > 0 {
                        assert(s[x] == a[i][x - 1]);
                    }
                }
            } else {
                assert(s == b[i - a.len()]);
                assert(ascending_in(s, start + 1, n, k));
            }
        }
    }
}

/// Every sequence of ascending places is in the enumeration.
pub proof fn subsets_are_complete(start: nat, n: nat, k: nat, s: Seq<usize>) -> (at: int)
    requires
        n <= usize::MAX,
        ascending_in(s, start, n, k),
    ensures
        0 <= at < subsets(start, n, k).len(),
        subsets(start, n, k)[at] == s,
    decreases n - start,
{
    if k == 0 {
        assert(s =~= Seq::empty());
        0
    } else {
        assert(start <= s[0] && s[0] < n);
        let p = seq![start as usize];
        let a = subsets(start + 1, n, (k - 1) as nat);
        if s[0] == start {
            let t = s.drop_first();
            assert forall|i: int| 0 <= i < k - 1 implies start + 1 <= #[trigger] t[i] && t[i] < n by {
                assert(s[0] < s[i + 1]);
            }
            assert forall|i: int, j: int| 0 <= i < j < k - 1 implies #[trigger] t[i] < #[trigger] t[j] by {
                assert(s[i + 1] < s[j + 1]);
            }
            let at = subsets_are_complete(start + 1, n, (k - 1) as nat, t);
            assert(p + t =~= s);
            at
        } else {
            assert forall|i: int| 0 <= i < k implies start + 1 <= #[trigger] s[i] && s[i] < n by {
                if i > 0 {
                    assert(s[0] < s[i]);
                }
            }
            let at = subsets_are_complete(start + 1, n, k, s);
            a.len() + at
        }
    }
}

/// No sequence is in the enumeration twice.
pub proof fn subsets_are_distinct(start: nat, n: nat, k: nat, i: int, j: int)
    requires
        n <= usize::MAX,
        0 <= i < j < subsets(start, n, k).len(),
    ensures
        subsets(start, n, k)[i] != subsets(start, n, k)[j],
    decreases n - start,
{
    if k > 0 && start < n {
        let p = seq![start as usize];
        let a = subsets(start + 1, n, (k - 1) as nat);
        let b = subsets(start + 1, n, k);
        if j < a.len() {
            subsets_are_distinct(start + 1, n, (k - 1) as nat, i, j);
            if p + a[i] == p + a[j] {
                assert((p + a[i]).skip(1) =~= a[i]);
                assert((p + a[j]).skip(1) =~= a[j]);
            }
        } else if i < a.len() {
            subsets_are_ascending(start + 1, n, k);
            let t = b[j - a.len()];
            assert(ascending_in(t, start + 1, n, k));
            assert(start + 1 <= t[0]);
            assert((p + a[i])[0] == start);
        } else {
            subsets_are_distinct(start + 1, n, k, i - a.len(), j - a.len());
        }
    }
}

/// How many ways there are to choose `k` of `n`.
pub open spec fn choices(n: nat, k: nat) -> nat
    decreases n,
{
    if k == 0 {
        1
    } else if n == 0 {
        0
    } else {
        choices((n - 1) as nat, (k - 1) as nat) + choices((n - 1) as nat, k)
    }
}

/// The enumeration holds as many sequences as there are choices.
pub proof fn subsets_are_counted(start: nat, n: nat, k: nat)
    requires
        start <= n,
    ensures
        subsets(start, n, k).len() == choices((n - start) as nat, k),
    decreases n - start,
{
    if k > 0 && start < n {
        subsets_are_counted(start + 1, n, (k - 1) as nat);
        subsets_are_counted(start + 1, n, k);
    }
}

/// A copy of a list of places.
pub fn copy_places(v: &Vec<usize>) -> (r: Vec<usize>)
    ensures
        r@ == v@,
{
    let mut out: Vec<usize> = Vec::new();
    let mut i: usize = 0;
    while i < v.len()
        invariant
            i <= v@.len(),
            out@ =~= v@.take(i as int),
        decreases v@.len() - i,
    {
        out.push(v[i]);
        i += 1;
    }
    assert(out@ =~= v@);
    out
}

/// All sets of `k` places below `n`, each in ascending order, in lexicographic
/// order.
pub fn enumerate_combinations(n: usize, k: usize) -> (r: Vec<Vec<usize>>)
    ensures
        views(r@) == subsets(0, n as nat, k as nat),
{
    let mut result: Vec<Vec<usize>> = Vec::new();
    let mut combo: Vec<usize> = Vec::new();
    comb_helper(0, n, k, &mut combo, &mut result);
    proof {
        let s = subsets(0, n as nat, k as nat);
        assert forall|i: int| 0 <= i < s.len() implies prefixed(Seq::empty(), s)[i] == s[i] by {
            assert(Seq::<usize>::empty() + s[i] =~= s[i]);
        }
        assert(views(result@) =~= s);
    }
    result
}

/// Appends every way to complete `combo` to `k` ascending places with places in
/// `start .. n`.
fn comb_helper(
    start: usize,
    n: usize,
    k: usize,
    combo: &mut Vec<usize>,
    result: &mut Vec<Vec<usize>>,
)
    requires
        old(combo)@.len() <= k,
        start <= n,
    ensures
        final(combo)@ == old(combo)@,
        views(final(result)@) == views(old(result)@) + prefixed(
            old(combo)@,
            subsets(start as nat, n as nat, (k - old(combo)@.len()) as nat),
        ),
    decreases k - old(combo)@.len(),
{
    let ghost c0 = combo@;
    let ghost r0 = views(result@);
    if combo.len() == k {
        let copy = copy_places(combo);
        let ghost before = result@;
        result.push(copy);
        proof {
            assert(c0 + Seq::<usize>::empty() =~= c0);
            assert(views(result@) =~= r0 + prefixed(
                c0,
                subsets(start as nat, n as nat, 0),
            ));
        }
        return;
    }
    let remaining: usize = k - combo.len();
    let ghost all = prefixed(c0, subsets(start as nat, n as nat, remaining as nat));
    let mut i: usize = start;
    assert(r0 + all =~= views(result@) + all);
    while i < n && remaining <= n - i
        invariant
            start <= i <= n,
            c0.len() < k,
            remaining == k - c0.len(),
            combo@ == c0,
            r0 == views(old(result)@),
            c0 == old(combo)@,
            all == prefixed(c0, subsets(start as nat, n as nat, remaining as nat)),
            r0 + all == views(result@) + prefixed(
                c0,
                subsets(i as nat, n as nat, remaining as nat),
            ),
        decreases n - i,
    {
        let ghost r1 = views(result@);
        combo.push(i);
        let ghost c1 = combo@;
        comb_helper(i + 1, n, k, combo, result);
        let _ = combo.pop();
        proof {
            assert(combo@ =~= c0);
            let a = subsets((i + 1) as nat, n as nat, (remaining - 1) as nat);
            let b = subsets((i + 1) as nat, n as nat, remaining as nat);
            let p = seq![i];
            assert(c1 =~= c0 + p);
            assert forall|j: int| 0 <= j < a.len() implies c1 + a[j] == c0 + (p + a[j]) by {
                assert(c1 + a[j] =~= c0 + (p + a[j]));
            }
            assert(prefixed(c0, prefixed(p, a) + b) =~= prefixed(c1, a) + prefixed(c0, b));
            assert(r1 + (prefixed(c1, a) + prefixed(c0, b)) =~= (r1 + prefixed(c1, a)) + prefixed(
                c0,
                b,
            ));
        }
        i += 1;
    }
    proof {
        lemma_no_subsets(i as nat, n as nat, remaining as nat);
        assert(views(result@) + prefixed(c0, subsets(i as nat, n as nat, remaining as nat))
            =~= views(result@));
    }
}

} // verus!
