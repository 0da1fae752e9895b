//! Verified in-place sorts over `u32` vectors: insertion sort, quicksort
//! with last-element pivoting, and a variant that draws its pivots from a
//! seeded random generator.

use vstd::prelude::*;
use vstd::pervasive::VecAdditionalExecFns;
use rand::rngs::StdRng;

verus! {

/// The elements of `s` are in non-decreasing order between `lo` and `hi`.
pub open spec fn sorted_between(s: Seq<u32>, lo: int, hi: int) -> bool {
    forall|p: int, q: int| lo <= p < q < hi ==> s[p] <= s[q]
}

/// Swaps two positions of the array, preserving its contents as a multiset.
fn uswap(a: &mut Vec<u32>, i: usize, j: usize)
    requires
        i < old(a).len(),
        j < old(a).len(),
    ensures
        final(a)@ == old(a)@.update(i as int, old(a)@[j as int]).update(
            j as int,
            old(a)@[i as int],
        ),
        final(a)@.to_multiset() == old(a)@.to_multiset(),
        final(a).len() == old(a).len(),
{
    let x = a[i];
    let y = a[j];
    a.set(i, y);
    a.set(j, x);
    proof {
        broadcast use vstd::seq_lib::to_multiset_update;
        broadcast use vstd::seq_lib::group_to_multiset_ensures;
        broadcast use vstd::multiset::group_multiset_axioms;

        let s = old(a)@;
        assert(s.contains(s[i as int]) && s.contains(s[j as int]));
        assert(a@.to_multiset() =~= old(a)@.to_multiset());
    }
}

/// Sorts the vector by repeatedly inserting the next element into the sorted
/// prefix before it.
pub fn insertion_sort(a: &mut Vec<u32>)
    ensures
        final(a)@.to_multiset() == old(a)@.to_multiset(),
        final(a).len() == old(a).len(),
        sorted_between(final(a)@, 0, final(a).len() as int),
{
    let ghost orig = old(a)@.to_multiset();
    let n = a.len();
    let mut j: usize = 1;
    while j < n
        invariant
            1 <= j,
            j <= n || (n == 0 && j == 1),
            n == a.len(),
            a@.to_multiset() == orig,
            sorted_between(a@, 0, j as int),
        decreases n - j,
    {
        let key = a[j];
        let mut i = j;
        proof {
            assert(a@.update(j as int, key) =~= a@);
        }
        while i > 0 && a[i - 1] > key
            invariant
                i <= j < n,
                n == a.len(),
                a@.update(i as int, key).to_multiset() == orig,
                a@[j as int] == key || i < j,
                forall|p: int, q: int|
                    0 <= p < q <= j && p != i && q != i ==> a@[p] <= a@[q],
                forall|q: int| i < q <= j ==> a@[q] > key,
            decreases i,
        {
            proof {
                broadcast use vstd::seq_lib::to_multiset_update;
                broadcast use vstd::multiset::group_multiset_axioms;
                broadcast use vstd::seq_lib::group_to_multiset_ensures;

                let s = a@;
                assert(s.contains(s[i as int]) && s.contains(s[i as int - 1]));
                assert(s.update(i as int, s[i as int - 1]).update(
                    i as int - 1,
                    key,
                ).to_multiset() =~= s.update(i as int, key).to_multiset());
            }
            let x = a[i - 1];
            a.set(i, x);
            i = i - 1;
        }
        a.set(i, key);
        proof {
            assert(a@.to_multiset() == orig);
            assert forall|p: int, q: int| 0 <= p < q <= j implies a@[p] <= a@[q] by {
                if q == i {
                    assert(a@[p] <= key);
                } else if p == i {
                    assert(a@[q] >= key);
                }
            }
        }
        j = j + 1;
    }
    proof {
        if n == 0 {
            assert(sorted_between(a@, 0, n as int));
        }
    }
}

/// Two ranges with the same contents keep a strict upper bound.
proof fn lemma_perm_bound_lt(s: Seq<u32>, t: Seq<u32>, x: u32)
    requires
        s.to_multiset() == t.to_multiset(),
        forall|k: int| 0 <= k < s.len() ==> s[k] < x,
    ensures
        forall|k: int| 0 <= k < t.len() ==> t[k] < x,
{
    broadcast use vstd::seq_lib::group_to_multiset_ensures;

    assert forall|k: int| 0 <= k < t.len() implies t[k] < x by {
        assert(t.contains(t[k]));
        assert(s.to_multiset().count(t[k]) > 0);
        assert(s.contains(t[k]));
        let j = choose|j: int| 0 <= j < s.len() && s[j] == t[k];
        assert(s[j] < x);
    }
}

/// Two ranges with the same contents keep a lower bound.
proof fn lemma_perm_bound_ge(s: Seq<u32>, t: Seq<u32>, x: u32)
    requires
        s.to_multiset() == t.to_multiset(),
        forall|k: int| 0 <= k < s.len() ==> s[k] >= x,
    ensures
        forall|k: int| 0 <= k < t.len() ==> t[k] >= x,
{
    broadcast use vstd::seq_lib::group_to_multiset_ensures;

    assert forall|k: int| 0 <= k < t.len() implies t[k] >= x by {
        assert(t.contains(t[k]));
        assert(s.to_multiset().count(t[k]) > 0);
        assert(s.contains(t[k]));
        let j = choose|j: int| 0 <= j < s.len() && s[j] == t[k];
        assert(s[j] >= x);
    }
}

/// Sequences equal outside a window and permutations of each other are
/// permutations of each other inside the window too.
proof fn lemma_window_ms(s: Seq<u32>, t: Seq<u32>, lo: int, hi: int)
    requires
        s.len() == t.len(),
        0 <= lo <= hi <= s.len(),
        s.to_multiset() == t.to_multiset(),
        forall|k: int| 0 <= k < lo ==> s[k] == t[k],
        forall|k: int| hi <= k < s.len() ==> s[k] == t[k],
    ensures
        s.subrange(lo, hi).to_multiset() == t.subrange(lo, hi).to_multiset(),
{
    broadcast use vstd::multiset::group_multiset_axioms;

    let sp = s.subrange(0, lo);
    let sm = s.subrange(lo, hi);
    let ss = s.subrange(hi, s.len() as int);
    let tp = t.subrange(0, lo);
    let tm = t.subrange(lo, hi);
    let ts = t.subrange(hi, t.len() as int);
    assert(sp =~= tp);
    assert(ss =~= ts);
    assert(s =~= sp + sm + ss);
    assert(t =~= tp + tm + ts);
    vstd::seq_lib::lemma_multiset_commutative(sp + sm, ss);
    vstd::seq_lib::lemma_multiset_commutative(sp, sm);
    vstd::seq_lib::lemma_multiset_commutative(tp + tm, ts);
    vstd::seq_lib::lemma_multiset_commutative(tp, tm);
    assert forall|x: u32| true implies sm.to_multiset().count(x) == tm.to_multiset().count(x) by {
        assert(s.to_multiset().count(x) == sp.to_multiset().count(x) + sm.to_multiset().count(x)
            + ss.to_multiset().count(x));
        assert(t.to_multiset().count(x) == tp.to_multiset().count(x) + tm.to_multiset().count(x)
            + ts.to_multiset().count(x));
    }
    assert(sm.to_multiset() =~= tm.to_multiset());
}

/// Partitions `a[lo..hi]` around its last element: afterwards the pivot sits
/// at the returned index, everything before it in the window is strictly
/// smaller and everything after it is at least as large.
fn partition(a: &mut Vec<u32>, lo: usize, hi: usize) -> (i: usize)
    requires
        lo + 2 <= hi <= old(a).len(),
    ensures
        lo <= i < hi,
        final(a).len() == old(a).len(),
        final(a)@.to_multiset() == old(a)@.to_multiset(),
        forall|k: int| 0 <= k < lo ==> final(a)@[k] == old(a)@[k],
        forall|k: int| hi <= k < old(a).len() ==> final(a)@[k] == old(a)@[k],
        forall|k: int| lo <= k < i ==> final(a)@[k] < final(a)@[i as int],
        forall|k: int| i <= k < hi ==> final(a)@[k] >= final(a)@[i as int],
{
    let x = a[hi - 1];
    let mut i = lo;
    let mut j = lo;
    while j < hi - 1
        invariant
            lo <= i <= j <= hi - 1,
            lo + 2 <= hi <= a.len(),
            a.len() == old(a).len(),
            a@.to_multiset() == old(a)@.to_multiset(),
            a@[hi - 1] == x,
            forall|k: int| 0 <= k < lo ==> a@[k] == old(a)@[k],
            forall|k: int| hi <= k < a@.len() ==> a@[k] == old(a)@[k],
            forall|k: int| lo <= k < i ==> a@[k] < x,
            forall|k: int| i <= k < j ==> a@[k] >= x,
        decreases hi - 1 - j,
    {
        if a[j] < x {
            uswap(a, i, j);
            i += 1;
        }
        j += 1;
    }
    uswap(a, i, hi - 1);
    i
}

/// Quicksort over the window `a[lo..hi]`, leaving the rest untouched.
fn quick_sort_range(a: &mut Vec<u32>, lo: usize, hi: usize)
    requires
        lo <= hi <= old(a).len(),
    ensures
        final(a).len() == old(a).len(),
        final(a)@.to_multiset() == old(a)@.to_multiset(),
        forall|k: int| 0 <= k < lo ==> final(a)@[k] == old(a)@[k],
        forall|k: int| hi <= k < old(a).len() ==> final(a)@[k] == old(a)@[k],
        sorted_between(final(a)@, lo as int, hi as int),
    decreases hi - lo,
{
    if hi - lo >= 2 {
        let i = partition(a, lo, hi);
        let ghost ap = a@;
        let ghost piv = a@[i as int];
        quick_sort_range(a, lo, i);
        let ghost amid = a@;
        quick_sort_range(a, i + 1, hi);
        proof {
            assert(amid[i as int] == piv);
            assert(a@[i as int] == piv);
            lemma_window_ms(ap, amid, lo as int, i as int);
            lemma_perm_bound_lt(
                ap.subrange(lo as int, i as int),
                amid.subrange(lo as int, i as int),
                piv,
            );
            lemma_window_ms(amid, a@, i as int + 1, hi as int);
            lemma_perm_bound_ge(
                amid.subrange(i as int + 1, hi as int),
                a@.subrange(i as int + 1, hi as int),
                piv,
            );
            assert forall|p: int, q: int| lo <= p < q < hi implies a@[p] <= a@[q] by {
                if q < i {
                } else if p > i {
                } else if p < i && q == i {
                    assert(a@.subrange(lo as int, i as int)[p - lo] == a@[p]);
                    assert(amid.subrange(lo as int, i as int)[p - lo] == amid[p]);
                } else if p == i && q > i {
                    assert(a@.subrange(i as int + 1, hi as int)[q - i - 1] == a@[q]);
                } else if p < i && q > i {
                    assert(a@.subrange(lo as int, i as int)[p - lo] == a@[p]);
                    assert(amid.subrange(lo as int, i as int)[p - lo] == amid[p]);
                    assert(a@.subrange(i as int + 1, hi as int)[q - i - 1] == a@[q]);
                }
            }
        }
    }
}

/// In-place quicksort with the window's last element as the pivot.
pub fn quick_sort(a: &mut Vec<u32>)
    ensures
        final(a).len() == old(a).len(),
        final(a)@.to_multiset() == old(a)@.to_multiset(),
        sorted_between(final(a)@, 0, final(a).len() as int),
{
    let n = a.len();
    quick_sort_range(a, 0, n);
}

#[verifier::external_type_specification]
#[verifier::external_body]
pub struct ExStdRng(StdRng);

/// Relies on rand's `SeedableRng::seed_from_u64`: builds a generator from
/// the seed.  Nothing is assumed about the values it will produce.
#[verifier::external_body]
fn rng_from_seed(seed: u64) -> StdRng {
    <StdRng as rand::SeedableRng>::seed_from_u64(seed)
}

/// Relies on rand's `Rng::gen_range`: returns a value drawn from
/// `[low, high)`; it panics when the range is empty, which the precondition
/// rules out.
#[verifier::external_body]
fn rng_below(rng: &mut StdRng, low: usize, high: usize) -> (r: usize)
    requires
        low < high,
    ensures
        low <= r < high,
{
    rand::Rng::gen_range(rng, low, high)
}

/// Quicksort drawing its pivot positions from a generator seeded with a
/// fixed value; the result is sorted whatever the generator produced.
pub fn randomized_quick_sort(a: &mut Vec<u32>)
    ensures
        final(a).len() == old(a).len(),
        final(a)@.to_multiset() == old(a)@.to_multiset(),
        sorted_between(final(a)@, 0, final(a).len() as int),
{
    let mut rng = rng_from_seed(42);
    let n = a.len();
    randomized_quick_sort_range(a, 0, n, &mut rng);
}

/// Quicksort over the window `a[lo..hi]` with randomly chosen pivots.
fn randomized_quick_sort_range(a: &mut Vec<u32>, lo: usize, hi: usize, rng: &mut StdRng)
    requires
        lo <= hi <= old(a).len(),
    ensures
        final(a).len() == old(a).len(),
        final(a)@.to_multiset() == old(a)@.to_multiset(),
        forall|k: int| 0 <= k < lo ==> final(a)@[k] == old(a)@[k],
        forall|k: int| hi <= k < old(a).len() ==> final(a)@[k] == old(a)@[k],
        sorted_between(final(a)@, lo as int, hi as int),
    decreases hi - lo,
{
    if hi - lo >= 2 {
        let p = rng_below(rng, lo, hi);
        uswap(a, p, hi - 1);
        let i = partition(a, lo, hi);
        let ghost ap = a@;
        let ghost piv = a@[i as int];
        randomized_quick_sort_range(a, lo, i, rng);
        let ghost amid = a@;
        randomized_quick_sort_range(a, i + 1, hi, rng);
        proof {
            assert(amid[i as int] == piv);
            assert(a@[i as int] == piv);
            lemma_window_ms(ap, amid, lo as int, i as int);
            lemma_perm_bound_lt(
                ap.subrange(lo as int, i as int),
                amid.subrange(lo as int, i as int),
                piv,
            );
            lemma_window_ms(amid, a@, i as int + 1, hi as int);
            lemma_perm_bound_ge(
                amid.subrange(i as int + 1, hi as int),
                a@.subrange(i as int + 1, hi as int),
                piv,
            );
            assert forall|p: int, q: int| lo <= p < q < hi implies a@[p] <= a@[q] by {
                if q < i {
                } else if p > i {
                } else if p < i && q == i {
                    assert(a@.subrange(lo as int, i as int)[p - lo] == a@[p]);
                    assert(amid.subrange(lo as int, i as int)[p - lo] == amid[p]);
                } else if p == i && q > i {
                    assert(a@.subrange(i as int + 1, hi as int)[q - i - 1] == a@[q]);
                } else if p < i && q > i {
                    assert(a@.subrange(lo as int, i as int)[p - lo] == a@[p]);
                    assert(amid.subrange(lo as int, i as int)[p - lo] == amid[p]);
                    assert(a@.subrange(i as int + 1, hi as int)[q - i - 1] == a@[q]);
                }
            }
        }
    }
}

/// Number of occurrences of `v` in the sequence.
pub open spec fn occ(s: Seq<u32>, v: u32) -> nat
    decreases s.len(),
{
    if s.len() == 0 {
        0
    } else {
        occ(s.drop_last(), v) + if s.last() == v {
            1nat
        } else {
            0nat
        }
    }
}

proof fn lemma_occ_push(s: Seq<u32>, x: u32, v: u32)
    ensures
        occ(s.push(x), v) == occ(s, v) + if x == v {
            1nat
        } else {
            0nat
        },
{
    assert(s.push(x).drop_last() =~= s);
    assert(s.push(x).last() == x);
}

/// Occurrence counts agree with the multiset view.
proof fn lemma_occ_multiset(s: Seq<u32>, v: u32)
    ensures
        occ(s, v) == s.to_multiset().count(v),
    decreases s.len(),
{
    broadcast use vstd::seq_lib::group_to_multiset_ensures;
    broadcast use vstd::multiset::group_multiset_axioms;

    if s.len() == 0 {
        assert(s.to_multiset() =~= vstd::multiset::Multiset::<u32>::empty());
    } else {
        lemma_occ_multiset(s.drop_last(), v);
        assert(s.drop_last().push(s.last()) =~= s);
        assert(s.drop_last().push(s.last()).to_multiset() == s.drop_last().to_multiset().insert(
            s.last(),
        ));
    }
}

/// Sorts by counting: tallies how often each value below the limit occurs,
/// then writes every value out as many times as it was seen.
pub fn counting_sort(a: &mut Vec<u32>, lim: u32)
    requires
        forall|k: int| 0 <= k < old(a).len() ==> (#[trigger] old(a)@[k]) < lim,
    ensures
        final(a)@.to_multiset() == old(a)@.to_multiset(),
        final(a).len() == old(a).len(),
        sorted_between(final(a)@, 0, final(a).len() as int),
{
    let n = a.len();
    let mut c: Vec<usize> = Vec::new();
    let mut v: usize = 0;
    while v < lim as usize
        invariant
            c@.len() == v <= lim as usize,
            forall|u: int| 0 <= u < v ==> c@[u] == 0,
        decreases lim as usize - v,
    {
        c.push(0);
        v += 1;
    }
    let mut k: usize = 0;
    while k < n
        invariant
            k <= n == a.len(),
            c@.len() == lim as usize,
            forall|j: int| 0 <= j < a@.len() ==> (#[trigger] a@[j]) < lim,
            forall|u: u32| u < lim ==> c@[u as int] == occ(a@.subrange(0, k as int), u),
            forall|u: int| 0 <= u < lim ==> #[trigger] c@[u] <= k,
        decreases n - k,
    {
        proof {
            assert(occ(a@.subrange(0, 0), a@[k as int]) == 0);
            assert forall|u: u32| u < lim implies occ(a@.subrange(0, k + 1 as int), u) == occ(
                a@.subrange(0, k as int),
                u,
            ) + if a@[k as int] == u {
                1nat
            } else {
                0nat
            } by {
                assert(a@.subrange(0, k as int).push(a@[k as int]) =~= a@.subrange(0, k + 1));
                lemma_occ_push(a@.subrange(0, k as int), a@[k as int], u);
            }
        }
        let x = a[k] as usize;
        let cnt = c[x];
        c.set(x, cnt + 1);
        k += 1;
    }
    proof {
        assert(a@.subrange(0, n as int) =~= a@);
    }
    let mut out: Vec<u32> = Vec::new();
    let mut v: usize = 0;
    while v < lim as usize
        invariant
            v <= lim as usize,
            c@.len() == lim as usize,
            n == a.len(),
            forall|u: u32| u < lim ==> c@[u as int] == occ(a@, u),
            forall|u: u32| u < v ==> occ(out@, u) == occ(a@, u),
            forall|u: u32| v <= u as int && u < lim ==> occ(out@, u) == 0,
            forall|i: int| 0 <= i < out@.len() ==> (#[trigger] out@[i]) < v,
            sorted_between(out@, 0, out@.len() as int),
        decreases lim as usize - v,
    {
        let cnt = c[v];
        let mut j: usize = 0;
        while j < cnt
            invariant
                j <= cnt,
                v < lim as usize,
                c@.len() == lim as usize,
                cnt == c@[v as int],
                forall|u: u32| u < lim ==> c@[u as int] == occ(a@, u),
                forall|u: u32| (u as int) < v ==> occ(out@, u) == occ(a@, u),
                occ(out@, v as u32) == j,
                forall|u: u32| v < u as int && u < lim ==> occ(out@, u) == 0,
                forall|i: int| 0 <= i < out@.len() ==> (#[trigger] out@[i]) <= v,
                sorted_between(out@, 0, out@.len() as int),
            decreases cnt - j,
        {
            let ghost gpre = out@;
            out.push(v as u32);
            proof {
                assert(out@ == gpre.push(v as u32));
                lemma_occ_push(gpre, v as u32, v as u32);
                assert forall|u: u32| (u as int) < v implies occ(out@, u) == occ(a@, u) by {
                    lemma_occ_push(gpre, v as u32, u);
                    assert(v as u32 != u);
                }
                assert forall|u: u32| v < u as int && u < lim implies occ(out@, u) == 0 by {
                    lemma_occ_push(gpre, v as u32, u);
                    assert(v as u32 != u);
                }
            }
            j += 1;
        }
        v += 1;
    }
    proof {
        broadcast use vstd::seq_lib::group_to_multiset_ensures;
        broadcast use vstd::multiset::group_multiset_axioms;

        assert forall|u: u32| true implies out@.to_multiset().count(u) == a@.to_multiset().count(
            u,
        ) by {
            lemma_occ_multiset(out@, u);
            lemma_occ_multiset(a@, u);
            if u >= lim {
                if a@.to_multiset().count(u) > 0 {
                    assert(a@.contains(u));
                    let i = choose|i: int| 0 <= i < a@.len() && a@[i] == u;
                    assert(false);
                }
                if out@.to_multiset().count(u) > 0 {
                    assert(out@.contains(u));
                    let i = choose|i: int| 0 <= i < out@.len() && out@[i] == u;
                    assert(false);
                }
            }
        }
        assert(out@.to_multiset() =~= a@.to_multiset());
        assert(out@.to_multiset().len() == a@.to_multiset().len());
        assert(out@.len() == a@.len());
    }
    *a = out;
}

} // verus!
