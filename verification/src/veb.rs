//! A van Emde Boas tree over the fixed integer universe `0 .. 2^lg`: a
//! recursive decomposition into `2^(lg-lower)` clusters of `2^lower` values
//! each, with a summary structure over the non-empty clusters and the
//! minimum and maximum held outside the clusters.
//!
//! The membership model is [`stores`]; [`veb_wf`] ties the split widths
//! together and keeps every cluster value strictly between the extremes and
//! the summary in step with the non-empty clusters.  On well-formed values
//! every operation carries an exact contract over the stored set.

use vstd::prelude::*;
use vstd::arithmetic::power2::pow2;

verus! {

/// A van Emde Boas structure: a two-value base case or a recursive node.
pub enum Veb {
    Base(Base),
    Rec(Rec),
}

/// The base case: a universe of two values stored as two bits.
pub struct Base {
    pub b0: bool,
    pub b1: bool,
}

/// A recursive node over the universe `0 .. 2^lg`.
pub struct Rec {
    pub lg: u32,
    pub lower: u32,
    pub minmax: Option<(usize, usize)>,
    pub summary: Box<Veb>,
    pub cluster: Vec<Veb>,
}

/// Base-2 logarithm of the universe size.
pub open spec fn logsize(v: Veb) -> nat {
    match v {
        Veb::Base(_) => 1,
        Veb::Rec(r) => r.lg as nat,
    }
}

/// Membership: the value `x` is stored in the structure.
pub open spec fn stores(v: Veb, x: int) -> bool
    decreases v,
{
    match v {
        Veb::Base(b) => (x == 0 && b.b0) || (x == 1 && b.b1),
        Veb::Rec(r) => match r.minmax {
            None => false,
            Some((mn, mx)) => {
                ||| x == mn
                ||| x == mx
                ||| ({
                    let p = pow2(r.lower as nat) as int;
                    &&& 0 <= x / p < r.cluster.len()
                    &&& stores(r.cluster@[x / p], x % p)
                })
            },
        },
    }
}

/// No value is stored.
pub open spec fn none_set(v: Veb) -> bool {
    forall|x: int| !stores(v, x)
}

/// Structural well-formedness: the split widths, the cluster count and the
/// recursive universe sizes all agree; the extremes are ordered and inside
/// the universe; every value held in a cluster lies strictly between the
/// extremes; and the summary stores exactly the indices of the non-empty
/// clusters.
pub open spec fn veb_wf(v: Veb) -> bool
    decreases v,
{
    match v {
        Veb::Base(_) => true,
        Veb::Rec(r) => {
            &&& 2 <= r.lg <= 30
            &&& r.lower == r.lg / 2
            &&& logsize(*r.summary) == (r.lg - r.lower) as nat
            &&& veb_wf(*r.summary)
            &&& r.cluster.len() == pow2((r.lg - r.lower) as nat)
            &&& (forall|h: int|
                0 <= h < r.cluster.len() ==> logsize(#[trigger] r.cluster@[h]) == r.lower as nat)
            &&& (forall|h: int| 0 <= h < r.cluster.len() ==> veb_wf(#[trigger] r.cluster@[h]))
            &&& match r.minmax {
                None => none_set(*r.summary) && (forall|h: int|
                    0 <= h < r.cluster.len() ==> none_set(#[trigger] r.cluster@[h])),
                Some((mn, mx)) => {
                    &&& mn <= mx < pow2(r.lg as nat)
                    &&& (forall|h: int, l: int|
                        0 <= h < r.cluster.len() && 0 <= l < pow2(r.lower as nat) && #[trigger] stores(
                            r.cluster@[h],
                            l,
                        ) ==> mn < h * (pow2(r.lower as nat) as int) + l < mx)
                    &&& (forall|h: int|
                        0 <= h < r.cluster.len() ==> (stores(*r.summary, h) <==> !none_set(
                            #[trigger] r.cluster@[h],
                        )))
                },
            }
        },
    }
}

/// Computes `2^e` as a machine word.
fn pow2_usize(e: u32) -> (r: usize)
    requires
        e <= 30,
    ensures
        r == pow2(e as nat),
        1 <= r,
{
    proof {
        vstd::arithmetic::power2::lemma2_to64();
    }
    let mut r: usize = 1;
    let mut k: u32 = 0;
    while k < e
        invariant
            k <= e <= 30,
            r == pow2(k as nat),
            r <= pow2(30),
        decreases e - k,
    {
        proof {
            vstd::arithmetic::power2::lemma_pow2_unfold((k + 1) as nat);
            vstd::arithmetic::power2::lemma_pow2_strictly_increases(k as nat + 1, 31);
            vstd::arithmetic::power2::lemma2_to64();
        }
        r = r * 2;
        k = k + 1;
    }
    proof {
        vstd::arithmetic::power2::lemma_pow2_pos(e as nat);
    }
    r
}

/// The whole universe fits comfortably in a machine word.
proof fn lemma_universe_fits(lg: nat)
    requires
        lg <= 30,
    ensures
        pow2(lg) <= 0x4000_0000,
{
    vstd::arithmetic::power2::lemma2_to64();
    if lg < 30 {
        vstd::arithmetic::power2::lemma_pow2_strictly_increases(lg, 30);
    }
}

/// Splitting a universe value at the lower width stays inside the cluster
/// grid.
proof fn lemma_split(x: int, lower: nat, upper: nat)
    requires
        0 <= x < pow2(lower + upper),
    ensures
        0 <= x / (pow2(lower) as int) < pow2(upper),
        0 <= x % (pow2(lower) as int) < pow2(lower),
        x == (x / (pow2(lower) as int)) * (pow2(lower) as int) + x % (pow2(lower) as int),
        (x / (pow2(lower) as int)) * (pow2(lower) as int) <= x,
        x < (x / (pow2(lower) as int) + 1) * (pow2(lower) as int),
{
    vstd::arithmetic::power2::lemma_pow2_adds(lower, upper);
    vstd::arithmetic::power2::lemma_pow2_pos(lower);
    vstd::arithmetic::power2::lemma_pow2_pos(upper);
    let p = pow2(lower) as int;
    vstd::arithmetic::div_mod::lemma_mod_bound(x, p);
    vstd::arithmetic::div_mod::lemma_div_pos_is_pos(x, p);
    vstd::arithmetic::div_mod::lemma_multiply_divide_lt(x, p, pow2(upper) as int);
    vstd::arithmetic::div_mod::lemma_fundamental_div_mod(x, p);
    let q = x / p;
    assert((q + 1) * p == q * p + p) by (nonlinear_arith);
}

/// Joining a cluster index and an offset lands inside the universe, and the
/// split of the joined value gives the parts back.
proof fn lemma_join(h: int, l: int, lower: nat, upper: nat)
    requires
        0 <= h < pow2(upper),
        0 <= l < pow2(lower),
    ensures
        0 <= h * (pow2(lower) as int) + l < pow2(lower + upper),
        (h * (pow2(lower) as int) + l) / (pow2(lower) as int) == h,
        (h * (pow2(lower) as int) + l) % (pow2(lower) as int) == l,
        h * (pow2(lower) as int) <= h * (pow2(lower) as int) + l,
        h * (pow2(lower) as int) + l < (h + 1) * (pow2(lower) as int),
{
    vstd::arithmetic::power2::lemma_pow2_adds(lower, upper);
    vstd::arithmetic::power2::lemma_pow2_pos(lower);
    vstd::arithmetic::power2::lemma_pow2_pos(upper);
    let p = pow2(lower) as int;
    vstd::arithmetic::mul::lemma_mul_is_distributive_add(p, h, 1);
    vstd::arithmetic::mul::lemma_mul_inequality(h + 1, pow2(upper) as int, p);
    assert(h * p + l < (h + 1) * p) by (nonlinear_arith)
        requires
            l < p,
    ;
    assert((h + 1) * p <= pow2(upper) as int * p) by (nonlinear_arith)
        requires
            h + 1 <= pow2(upper) as int && p >= 0,
    ;
    assert(h * p >= 0) by (nonlinear_arith)
        requires
            h >= 0 && p >= 0,
    ;
    vstd::arithmetic::div_mod::lemma_fundamental_div_mod_converse_div(h * p + l, p, h, l);
    vstd::arithmetic::div_mod::lemma_fundamental_div_mod_converse_mod(h * p + l, p, h, l);
}

/// Every stored value of a well-formed structure lies inside its universe.
proof fn lemma_stores_in_range(v: Veb, z: int)
    requires
        veb_wf(v),
        stores(v, z),
    ensures
        0 <= z < pow2(logsize(v)),
    decreases v,
{
    vstd::arithmetic::power2::lemma2_to64();
    match v {
        Veb::Base(_) => {},
        Veb::Rec(r) => {
            let (mn, mx) = r.minmax.unwrap();
            if z != mn && z != mx {
                let p = pow2(r.lower as nat) as int;
                vstd::arithmetic::power2::lemma_pow2_pos(r.lower as nat);
                lemma_stores_in_range(r.cluster@[z / p], z % p);
                vstd::arithmetic::div_mod::lemma_fundamental_div_mod(z, p);
                lemma_join(z / p, z % p, r.lower as nat, (r.lg - r.lower) as nat);
            }
        },
    }
}

/// Decomposes a cluster-held value of a well-formed node: its cluster index
/// and offset are its division parts, and it lies strictly between the
/// extremes.
proof fn lemma_member_between(r: Rec, z: int)
    requires
        veb_wf(Veb::Rec(r)),
        r.minmax is Some,
        stores(Veb::Rec(r), z),
        z != r.minmax.unwrap().0 as int,
        z != r.minmax.unwrap().1 as int,
    ensures
        0 <= z / (pow2(r.lower as nat) as int) < r.cluster.len(),
        0 <= z % (pow2(r.lower as nat) as int) < pow2(r.lower as nat),
        stores(
            r.cluster@[z / (pow2(r.lower as nat) as int)],
            z % (pow2(r.lower as nat) as int),
        ),
        r.minmax.unwrap().0 < z < r.minmax.unwrap().1,
        z == (z / (pow2(r.lower as nat) as int)) * (pow2(r.lower as nat) as int) + z % (pow2(
            r.lower as nat,
        ) as int),
{
    let p = pow2(r.lower as nat) as int;
    vstd::arithmetic::power2::lemma_pow2_pos(r.lower as nat);
    vstd::arithmetic::div_mod::lemma_mod_bound(z, p);
    vstd::arithmetic::div_mod::lemma_fundamental_div_mod(z, p);
    vstd::arithmetic::mul::lemma_mul_is_commutative(p, z / p);
}

/// Any integer sits inside its own grid cell.
proof fn lemma_cell(z: int, lower: nat)
    ensures
        (z / (pow2(lower) as int)) * (pow2(lower) as int) <= z,
        z < (z / (pow2(lower) as int) + 1) * (pow2(lower) as int),
{
    let p = pow2(lower) as int;
    vstd::arithmetic::power2::lemma_pow2_pos(lower);
    vstd::arithmetic::div_mod::lemma_mod_bound(z, p);
    vstd::arithmetic::div_mod::lemma_fundamental_div_mod(z, p);
    let q = z / p;
    vstd::arithmetic::mul::lemma_mul_is_commutative(p, q);
    assert((q + 1) * p == q * p + p) by (nonlinear_arith);
}

/// A well-formed node whose extremes coincide stores nothing anywhere else:
/// its clusters and summary are all empty.
proof fn lemma_degenerate(r: Rec)
    requires
        veb_wf(Veb::Rec(r)),
        r.minmax is Some,
        r.minmax.unwrap().0 == r.minmax.unwrap().1,
    ensures
        forall|h: int| 0 <= h < r.cluster.len() ==> none_set(#[trigger] r.cluster@[h]),
        none_set(*r.summary),
{
    let p = pow2(r.lower as nat) as int;
    assert forall|h: int| 0 <= h < r.cluster.len() implies none_set(#[trigger] r.cluster@[h]) by {
        assert forall|l: int| !stores(r.cluster@[h], l) by {
            if stores(r.cluster@[h], l) {
                lemma_stores_in_range(r.cluster@[h], l);
                assert(false);
            }
        }
    }
    assert forall|w: int| !stores(*r.summary, w) by {
        if stores(*r.summary, w) {
            lemma_stores_in_range(*r.summary, w);
            assert(!none_set(r.cluster@[w]));
        }
    }
}

/// A value bracketed by a cluster's grid cell divides back onto it.
proof fn lemma_same_cell(z: int, h: int, lower: nat)
    requires
        h * (pow2(lower) as int) <= z < (h + 1) * (pow2(lower) as int),
        0 <= h,
    ensures
        z / (pow2(lower) as int) == h,
        z % (pow2(lower) as int) == z - h * (pow2(lower) as int),
{
    let p = pow2(lower) as int;
    vstd::arithmetic::power2::lemma_pow2_pos(lower);
    assert((h + 1) * p == h * p + p) by (nonlinear_arith);
    vstd::arithmetic::div_mod::lemma_fundamental_div_mod_converse_div(z, p, h, z - h * p);
    vstd::arithmetic::div_mod::lemma_fundamental_div_mod_converse_mod(z, p, h, z - h * p);
}

impl Veb {
    /// Creates an empty structure over the universe `0 .. 2^lg`.  Universes
    /// are capped at `2^30`: the tree eagerly allocates a bit per universe
    /// value, so larger logarithms exhaust memory long before any contract
    /// is at stake, and the cap also keeps every index inside a 32-bit
    /// machine word.
    pub fn new(lg: u32) -> (v: Self)
        requires
            1 <= lg <= 30,
        ensures
            veb_wf(v),
            logsize(v) == lg as nat,
            none_set(v),
        decreases lg, 1int,
    {
        proof {
            vstd::arithmetic::power2::lemma2_to64();
        }
        if lg == 1 {
            Veb::Base(Base::new())
        } else {
            Veb::Rec(Rec::new(lg))
        }
    }

    /// No value is stored.
    pub fn is_empty(&self) -> (b: bool)
        requires
            veb_wf(*self),
        ensures
            b <==> none_set(*self),
    {
        match self {
            Veb::Base(base) => base.is_empty(),
            Veb::Rec(rec) => rec.is_empty(),
        }
    }

    /// The universe size `2^lg`.
    pub fn len(&self) -> (n: usize)
        requires
            veb_wf(*self),
        ensures
            n == pow2(logsize(*self)),
    {
        proof {
            vstd::arithmetic::power2::lemma2_to64();
        }
        match self {
            Veb::Base(_) => 2,
            Veb::Rec(rec) => rec.len(),
        }
    }

    /// Whether `x` is stored.
    pub fn contains(&self, x: usize) -> (b: bool)
        requires
            veb_wf(*self),
            x < pow2(logsize(*self)),
        ensures
            b == stores(*self, x as int),
        decreases *self, 1int,
    {
        proof {
            vstd::arithmetic::power2::lemma2_to64();
        }
        match self {
            Veb::Base(base) => base.contains(x),
            Veb::Rec(rec) => rec.contains(x),
        }
    }

    /// The least stored value, or `None` when nothing is stored.
    pub fn min(&self) -> (r: Option<usize>)
        requires
            veb_wf(*self),
        ensures
            r is None <==> none_set(*self),
            r is Some ==> stores(*self, r.unwrap() as int) && r.unwrap() < pow2(logsize(*self)),
            r is Some ==> forall|z: int| stores(*self, z) ==> r.unwrap() <= z,
    {
        proof {
            vstd::arithmetic::power2::lemma2_to64();
        }
        match self {
            Veb::Base(base) => base.min(),
            Veb::Rec(rec) => rec.min(),
        }
    }

    /// The greatest stored value, or `None` when nothing is stored.
    pub fn max(&self) -> (r: Option<usize>)
        requires
            veb_wf(*self),
        ensures
            r is None <==> none_set(*self),
            r is Some ==> stores(*self, r.unwrap() as int) && r.unwrap() < pow2(logsize(*self)),
            r is Some ==> forall|z: int| stores(*self, z) ==> z <= r.unwrap(),
    {
        proof {
            vstd::arithmetic::power2::lemma2_to64();
        }
        match self {
            Veb::Base(base) => base.max(),
            Veb::Rec(rec) => rec.max(),
        }
    }

    /// The greatest stored value strictly below `x`, or `None` when there is
    /// none.
    pub fn prev(&self, x: usize) -> (r: Option<usize>)
        requires
            veb_wf(*self),
            x < pow2(logsize(*self)),
        ensures
            r is Some ==> stores(*self, r.unwrap() as int) && r.unwrap() < x,
            r is Some ==> forall|z: int| r.unwrap() < z < x ==> !stores(*self, z),
            r is None ==> forall|z: int| z < x ==> !stores(*self, z),
        decreases *self, 1int,
    {
        proof {
            vstd::arithmetic::power2::lemma2_to64();
        }
        match self {
            Veb::Base(base) => base.prev(x),
            Veb::Rec(rec) => rec.prev(x),
        }
    }

    /// The least stored value strictly above `x`, or `None` when there is
    /// none.
    pub fn succ(&self, x: usize) -> (r: Option<usize>)
        requires
            veb_wf(*self),
            x < pow2(logsize(*self)),
        ensures
            r is Some ==> stores(*self, r.unwrap() as int) && x < r.unwrap() && r.unwrap() < pow2(
                logsize(*self),
            ),
            r is Some ==> forall|z: int| x < z < r.unwrap() ==> !stores(*self, z),
            r is None ==> forall|z: int| z > x ==> !stores(*self, z),
        decreases *self, 1int,
    {
        proof {
            vstd::arithmetic::power2::lemma2_to64();
        }
        match self {
            Veb::Base(base) => base.succ(x),
            Veb::Rec(rec) => rec.succ(x),
        }
    }

    /// Stores `x`: afterwards the stored set is the old one plus `x`.
    pub fn insert(&mut self, x: usize)
        requires
            veb_wf(*old(self)),
            x < pow2(logsize(*old(self))),
        ensures
            veb_wf(*final(self)),
            logsize(*final(self)) == logsize(*old(self)),
            stores(*final(self), x as int),
            forall|z: int| stores(*old(self), z) ==> stores(*final(self), z),
            forall|z: int| stores(*final(self), z) ==> stores(*old(self), z) || z == x as int,
        decreases *old(self), 1int,
    {
        proof {
            vstd::arithmetic::power2::lemma2_to64();
        }
        let mut tmp = Veb::Base(Base { b0: false, b1: false });
        core::mem::swap(self, &mut tmp);
        match tmp {
            Veb::Base(mut base) => {
                base.insert(x);
                *self = Veb::Base(base);
            },
            Veb::Rec(mut rec) => {
                rec.insert(x);
                *self = Veb::Rec(rec);
            },
        }
    }

    /// Removes `x`: afterwards the stored set is the old one minus `x`, and
    /// the result reports whether `x` had been stored.
    pub fn delete(&mut self, x: usize) -> (r: bool)
        requires
            veb_wf(*old(self)),
            x < pow2(logsize(*old(self))),
        ensures
            veb_wf(*final(self)),
            logsize(*final(self)) == logsize(*old(self)),
            r == stores(*old(self), x as int),
            !stores(*final(self), x as int),
            forall|z: int| stores(*old(self), z) && z != x as int ==> stores(*final(self), z),
            forall|z: int| stores(*final(self), z) ==> stores(*old(self), z),
        decreases *old(self), 1int,
    {
        proof {
            vstd::arithmetic::power2::lemma2_to64();
        }
        let mut tmp = Veb::Base(Base { b0: false, b1: false });
        core::mem::swap(self, &mut tmp);
        match tmp {
            Veb::Base(mut base) => {
                let r = base.delete(x);
                *self = Veb::Base(base);
                r
            },
            Veb::Rec(mut rec) => {
                let r = rec.delete(x);
                *self = Veb::Rec(rec);
                r
            },
        }
    }

    /// Exactly the stored values, in increasing order, read off with `min`
    /// and `succ`.
    pub fn collect_vec(&self) -> (res: Vec<usize>)
        requires
            veb_wf(*self),
        ensures
            forall|i: int| 0 <= i < res@.len() ==> stores(*self, (#[trigger] res@[i]) as int),
            forall|i: int, j: int| 0 <= i < j < res@.len() ==> res@[i] < res@[j],
            forall|z: int|
                stores(*self, z) ==> exists|i: int| 0 <= i < res@.len() && (#[trigger] res@[i]) as int == z,
    {
        let mut vec: Vec<usize> = Vec::new();
        let first = self.min();
        match first {
            None => {
                proof {
                    assert forall|z: int| stores(*self, z) implies exists|i: int|
                        0 <= i < vec@.len() && (#[trigger] vec@[i]) as int == z by {
                        assert(none_set(*self));
                        assert(false);
                    }
                }
                vec
            },
            Some(mut x) => {
                vec.push(x);
                proof {
                    assert forall|z: int|
                        stores(*self, z) && z <= x implies exists|i: int|
                        0 <= i < vec@.len() && (#[trigger] vec@[i]) as int == z by {
                        assert(x as int <= z);
                        assert((vec@[0]) as int == z);
                    }
                }
                loop
                    invariant
                        veb_wf(*self),
                        x < pow2(logsize(*self)),
                        stores(*self, x as int),
                        vec@.len() >= 1,
                        vec@[vec@.len() - 1] == x,
                        forall|i: int|
                            0 <= i < vec@.len() ==> stores(*self, (#[trigger] vec@[i]) as int),
                        forall|i: int, j: int| 0 <= i < j < vec@.len() ==> vec@[i] < vec@[j],
                        forall|z: int|
                            stores(*self, z) && z <= x ==> exists|i: int|
                                0 <= i < vec@.len() && (#[trigger] vec@[i]) as int == z,
                    ensures
                        forall|i: int|
                            0 <= i < vec@.len() ==> stores(*self, (#[trigger] vec@[i]) as int),
                        forall|i: int, j: int| 0 <= i < j < vec@.len() ==> vec@[i] < vec@[j],
                        forall|z: int|
                            stores(*self, z) ==> exists|i: int|
                                0 <= i < vec@.len() && (#[trigger] vec@[i]) as int == z,
                    decreases pow2(logsize(*self)) - x,
                {
                    match self.succ(x) {
                        None => {
                            proof {
                                assert forall|z: int| stores(*self, z) implies exists|i: int|
                                    0 <= i < vec@.len() && (#[trigger] vec@[i]) as int == z by {
                                    if z > x {
                                        assert(!stores(*self, z));
                                        assert(false);
                                    }
                                }
                            }
                            break ;
                        },
                        Some(y) => {
                            let ghost pre = vec@;
                            vec.push(y);
                            proof {
                                assert forall|z: int|
                                    stores(*self, z) && z <= y implies exists|i: int|
                                    0 <= i < vec@.len() && (#[trigger] vec@[i]) as int == z by {
                                    if z == y {
                                        assert((vec@[vec@.len() - 1]) as int == z);
                                    } else if z > x {
                                        assert(!stores(*self, z));
                                        assert(false);
                                    } else {
                                        let i = choose|i: int|
                                            0 <= i < pre.len() && (#[trigger] pre[i]) as int == z;
                                        assert((vec@[i]) as int == z);
                                    }
                                }
                            }
                            x = y;
                        },
                    }
                }
                vec
            },
        }
    }

    /// A bit for every universe value, set exactly for the stored ones.
    pub fn collect_bitvec(&self) -> (res: Vec<bool>)
        requires
            veb_wf(*self),
        ensures
            res@.len() == pow2(logsize(*self)),
            forall|i: int| 0 <= i < res@.len() ==> res@[i] == stores(*self, i),
    {
        let n = self.len();
        let mut vec: Vec<bool> = Vec::new();
        let mut i: usize = 0;
        while i < n
            invariant
                veb_wf(*self),
                n == pow2(logsize(*self)),
                i <= n,
                vec@.len() == i,
                forall|k: int| 0 <= k < i ==> vec@[k] == stores(*self, k),
            decreases n - i,
        {
            vec.push(self.contains(i));
            i += 1;
        }
        vec
    }
}

impl Base {
    /// Creates an empty two-value structure.
    pub fn new() -> (b: Self)
        ensures
            veb_wf(Veb::Base(b)),
            none_set(Veb::Base(b)),
    {
        Base { b0: false, b1: false }
    }

    /// The universe size, always 2.
    pub fn len(&self) -> (n: usize)
        ensures
            n == 2,
    {
        2
    }

    /// No value is stored.
    pub fn is_empty(&self) -> (b: bool)
        ensures
            b <==> none_set(Veb::Base(*self)),
    {
        proof {
            if !self.b0 && !self.b1 {
                assert forall|x: int| !stores(Veb::Base(*self), x) by {}
            } else if self.b0 {
                assert(stores(Veb::Base(*self), 0));
            } else {
                assert(stores(Veb::Base(*self), 1));
            }
        }
        !self.b0 && !self.b1
    }

    /// Whether `x` is stored.
    pub fn contains(&self, x: usize) -> (b: bool)
        requires
            x < 2,
        ensures
            b == stores(Veb::Base(*self), x as int),
    {
        if x == 0 {
            self.b0
        } else {
            self.b1
        }
    }

    /// The least stored value.
    pub fn min(&self) -> (r: Option<usize>)
        ensures
            r is None <==> none_set(Veb::Base(*self)),
            r is Some ==> stores(Veb::Base(*self), r.unwrap() as int) && r.unwrap() < 2,
            r is Some ==> forall|z: int| stores(Veb::Base(*self), z) ==> r.unwrap() <= z,
    {
        if self.b0 {
            proof {
                assert(stores(Veb::Base(*self), 0));
            }
            Some(0)
        } else if self.b1 {
            proof {
                assert(stores(Veb::Base(*self), 1));
            }
            Some(1)
        } else {
            proof {
                assert forall|x: int| !stores(Veb::Base(*self), x) by {}
            }
            None
        }
    }

    /// The greatest stored value.
    pub fn max(&self) -> (r: Option<usize>)
        ensures
            r is None <==> none_set(Veb::Base(*self)),
            r is Some ==> stores(Veb::Base(*self), r.unwrap() as int) && r.unwrap() < 2,
            r is Some ==> forall|z: int| stores(Veb::Base(*self), z) ==> z <= r.unwrap(),
    {
        if self.b1 {
            proof {
                assert(stores(Veb::Base(*self), 1));
            }
            Some(1)
        } else if self.b0 {
            proof {
                assert(stores(Veb::Base(*self), 0));
            }
            Some(0)
        } else {
            proof {
                assert forall|x: int| !stores(Veb::Base(*self), x) by {}
            }
            None
        }
    }

    /// The greatest stored value strictly below `x`.
    pub fn prev(&self, x: usize) -> (r: Option<usize>)
        requires
            x < 2,
        ensures
            r is Some ==> stores(Veb::Base(*self), r.unwrap() as int) && r.unwrap() < x,
            r is Some ==> forall|z: int| r.unwrap() < z < x ==> !stores(Veb::Base(*self), z),
            r is None ==> forall|z: int| z < x ==> !stores(Veb::Base(*self), z),
    {
        if x == 1 && self.b0 {
            Some(0)
        } else {
            None
        }
    }

    /// The least stored value strictly above `x`.
    pub fn succ(&self, x: usize) -> (r: Option<usize>)
        requires
            x < 2,
        ensures
            r is Some ==> stores(Veb::Base(*self), r.unwrap() as int) && x < r.unwrap()
                && r.unwrap() < 2,
            r is Some ==> forall|z: int| x < z < r.unwrap() ==> !stores(Veb::Base(*self), z),
            r is None ==> forall|z: int| z > x ==> !stores(Veb::Base(*self), z),
    {
        if x == 0 && self.b1 {
            Some(1)
        } else {
            None
        }
    }

    /// Stores `x`.
    pub fn insert(&mut self, x: usize)
        requires
            x < 2,
        ensures
            stores(Veb::Base(*final(self)), x as int),
            forall|z: int| stores(Veb::Base(*old(self)), z) ==> stores(Veb::Base(*final(self)), z),
            forall|z: int|
                stores(Veb::Base(*final(self)), z) ==> stores(Veb::Base(*old(self)), z) || z
                    == x as int,
    {
        if x == 0 {
            self.b0 = true;
        } else {
            self.b1 = true;
        }
    }

    /// Removes `x`, reporting whether it was stored.
    pub fn delete(&mut self, x: usize) -> (r: bool)
        requires
            x < 2,
        ensures
            !stores(Veb::Base(*final(self)), x as int),
            r == stores(Veb::Base(*old(self)), x as int),
            forall|z: int|
                stores(Veb::Base(*old(self)), z) && z != x as int ==> stores(
                    Veb::Base(*final(self)),
                    z,
                ),
            forall|z: int| stores(Veb::Base(*final(self)), z) ==> stores(Veb::Base(*old(self)), z),
    {
        if x == 0 {
            let r = self.b0;
            self.b0 = false;
            r
        } else {
            let r = self.b1;
            self.b1 = false;
            r
        }
    }

    /// A bit for each of the two universe values.
    pub fn collect_bitvec(&self) -> (res: Vec<bool>)
        ensures
            res@.len() == 2,
            forall|i: int| 0 <= i < 2 ==> res@[i] == stores(Veb::Base(*self), i),
    {
        let mut vec: Vec<bool> = Vec::new();
        vec.push(self.b0);
        vec.push(self.b1);
        vec
    }

    /// Ors the two bits into `out` at `offset`.
    pub fn copy_bitvec(&self, out: &mut Vec<bool>, offset: usize)
        requires
            offset + 2 <= old(out).len(),
        ensures
            final(out).len() == old(out).len(),
            forall|i: int|
                0 <= i < final(out).len() ==> final(out)@[i] == (old(out)@[i] || (offset <= i
                    < offset + 2 && stores(Veb::Base(*self), i - offset))),
    {
        let b0 = out[offset] || self.b0;
        out.set(offset, b0);
        let b1 = out[offset + 1] || self.b1;
        out.set(offset + 1, b1);
    }
}

impl Rec {
    /// Creates an empty recursive node over the universe `0 .. 2^lg`.
    pub fn new(lg: u32) -> (r: Self)
        requires
            2 <= lg <= 30,
        ensures
            veb_wf(Veb::Rec(r)),
            r.lg == lg,
            none_set(Veb::Rec(r)),
        decreases lg, 0int,
    {
        let lower = lg / 2;
        let upper = lg - lower;
        let count = pow2_usize(upper);
        let summary = Box::new(Veb::new(upper));
        let mut cluster: Vec<Veb> = Vec::new();
        let mut k: usize = 0;
        while k < count
            invariant
                k <= count,
                2 <= lg <= 30,
                lower == lg / 2,
                1 <= lower <= 15,
                cluster@.len() == k,
                forall|h: int|
                    0 <= h < k ==> logsize(#[trigger] cluster@[h]) == lower as nat && veb_wf(
                        cluster@[h],
                    ) && none_set(cluster@[h]),
            decreases count - k,
        {
            cluster.push(Veb::new(lower));
            k += 1;
        }
        Rec { lg, lower, minmax: None, summary, cluster }
    }

    /// No value is stored.
    pub fn is_empty(&self) -> (b: bool)
        requires
            veb_wf(Veb::Rec(*self)),
        ensures
            b <==> none_set(Veb::Rec(*self)),
    {
        proof {
            if self.minmax is Some {
                let (mn, mx) = self.minmax.unwrap();
                assert(stores(Veb::Rec(*self), mn as int));
            }
        }
        self.minmax.is_none()
    }

    /// The universe size `2^lg`.
    pub fn len(&self) -> (n: usize)
        requires
            veb_wf(Veb::Rec(*self)),
        ensures
            n == pow2(self.lg as nat),
    {
        pow2_usize(self.lg)
    }

    /// Whether `x` is stored.
    pub fn contains(&self, x: usize) -> (b: bool)
        requires
            veb_wf(Veb::Rec(*self)),
            x < pow2(self.lg as nat),
        ensures
            b == stores(Veb::Rec(*self), x as int),
        decreases Veb::Rec(*self), 0int,
    {
        match self.minmax {
            None => false,
            Some((mn, mx)) => {
                if x == mn || x == mx {
                    return true;
                }
                let p = pow2_usize(self.lower);
                let h = x / p;
                let l = x % p;
                proof {
                    lemma_split(x as int, self.lower as nat, (self.lg - self.lower) as nat);
                }
                self.cluster[h].contains(l)
            },
        }
    }

    /// The least stored value: the cached minimum.
    pub fn min(&self) -> (r: Option<usize>)
        requires
            veb_wf(Veb::Rec(*self)),
        ensures
            r is None <==> none_set(Veb::Rec(*self)),
            r is Some ==> stores(Veb::Rec(*self), r.unwrap() as int) && r.unwrap() < pow2(
                self.lg as nat,
            ),
            r is Some ==> forall|z: int| stores(Veb::Rec(*self), z) ==> r.unwrap() <= z,
    {
        proof {
            if self.minmax is Some {
                let (mn, mx) = self.minmax.unwrap();
                assert(stores(Veb::Rec(*self), mn as int));
                assert forall|z: int| stores(Veb::Rec(*self), z) implies mn <= z by {
                    if z != mn && z != mx {
                        lemma_member_between(*self, z);
                    }
                }
            }
        }
        match self.minmax {
            None => None,
            Some((mn, _)) => Some(mn),
        }
    }

    /// The greatest stored value: the cached maximum.
    pub fn max(&self) -> (r: Option<usize>)
        requires
            veb_wf(Veb::Rec(*self)),
        ensures
            r is None <==> none_set(Veb::Rec(*self)),
            r is Some ==> stores(Veb::Rec(*self), r.unwrap() as int) && r.unwrap() < pow2(
                self.lg as nat,
            ),
            r is Some ==> forall|z: int| stores(Veb::Rec(*self), z) ==> z <= r.unwrap(),
    {
        proof {
            if self.minmax is Some {
                let (mn, mx) = self.minmax.unwrap();
                assert(stores(Veb::Rec(*self), mx as int));
                assert forall|z: int| stores(Veb::Rec(*self), z) implies z <= mx by {
                    if z != mn && z != mx {
                        lemma_member_between(*self, z);
                    }
                }
            }
        }
        match self.minmax {
            None => None,
            Some((_, mx)) => Some(mx),
        }
    }

    /// The greatest stored value strictly below `x`: in this value's own
    /// cluster, at the back of the nearest non-empty cluster before it, or
    /// among the extremes.
    #[verifier::rlimit(100)]
    pub fn prev(&self, x: usize) -> (r: Option<usize>)
        requires
            veb_wf(Veb::Rec(*self)),
            x < pow2(self.lg as nat),
        ensures
            r is Some ==> stores(Veb::Rec(*self), r.unwrap() as int) && r.unwrap() < x,
            r is Some ==> forall|z: int| r.unwrap() < z < x ==> !stores(Veb::Rec(*self), z),
            r is None ==> forall|z: int| z < x ==> !stores(Veb::Rec(*self), z),
        decreases Veb::Rec(*self), 0int,
    {
        let ghost gv = Veb::Rec(*self);
        let (mn, mx) = match self.minmax {
            None => {
                return None;
            },
            Some(pair) => pair,
        };
        if mx < x {
            proof {
                assert forall|z: int| (mx as int) < z < x implies !stores(gv, z) by {
                    if stores(gv, z) && z != mn && z != mx {
                        lemma_member_between(*self, z);
                    }
                }
            }
            return Some(mx);
        }
        let p = pow2_usize(self.lower);
        let h = x / p;
        let l = x % p;
        let ghost zp = pow2(self.lower as nat) as int;
        proof {
            lemma_split(x as int, self.lower as nat, (self.lg - self.lower) as nat);
            lemma_universe_fits(self.lg as nat);
        }
        let cmin = self.cluster[h].min();
        if cmin.is_some() && cmin.unwrap() < l {
            let low = match self.cluster[h].prev(l) {
                Some(low) => low,
                None => {
                    proof {
                        assert(stores(self.cluster@[h as int], cmin.unwrap() as int));
                        assert(false);
                    }
                    vstd::pervasive::unreached()
                },
            };
            proof {
                lemma_join(h as int, low as int, self.lower as nat, (self.lg - self.lower) as nat);
                let res = h as int * zp + low;
                assert(stores(gv, res));
                assert forall|z: int| res < z < x implies !stores(gv, z) by {
                    if stores(gv, z) {
                        assert(mn < res) by {
                            lemma_member_between(*self, res);
                        }
                        if z != mn && z != mx {
                            lemma_member_between(*self, z);
                            lemma_same_cell(z, h as int, self.lower as nat);
                            assert(!stores(self.cluster@[h as int], z - h as int * zp));
                            assert(false);
                        }
                        assert(false);
                    }
                }
            }
            return Some(h * p + low);
        }
        proof {
            // nothing in this cluster lies below the offset `l`
            assert forall|z: int|
                stores(gv, z) && z != mn && z != mx && z / zp == h implies z >= x by {
                lemma_member_between(*self, z);
                if cmin is None {
                    assert(!stores(self.cluster@[h as int], z % zp));
                } else {
                    assert(cmin.unwrap() <= z % zp);
                }
            }
        }
        match self.summary.prev(h) {
            Some(h2) => {
                proof {
                    assert(stores(*self.summary, h2 as int));
                    lemma_stores_in_range(*self.summary, h2 as int);
                    assert(!none_set(self.cluster@[h2 as int]));
                }
                let low = match self.cluster[h2].max() {
                    Some(low) => low,
                    None => {
                        proof {
                            assert(false);
                        }
                        vstd::pervasive::unreached()
                    },
                };
                proof {
                    lemma_join(
                        h2 as int,
                        low as int,
                        self.lower as nat,
                        (self.lg - self.lower) as nat,
                    );
                    vstd::arithmetic::mul::lemma_mul_inequality(h2 as int + 1, h as int, zp);
                    let res = h2 as int * zp + low;
                    assert(stores(gv, res));
                    assert(res < x);
                    assert forall|z: int| res < z < x implies !stores(gv, z) by {
                        if stores(gv, z) {
                            assert(mn < res) by {
                                lemma_member_between(*self, res);
                            }
                            if z != mn && z != mx {
                                lemma_member_between(*self, z);
                                let zh = z / zp;
                                let zl = z % zp;
                                vstd::arithmetic::div_mod::lemma_multiply_divide_lt(
                                    z,
                                    zp,
                                    h as int + 1,
                                );
                                if zh == h as int {
                                    assert(z >= x);
                                } else if zh == h2 as int {
                                    assert(zl <= low);
                                    vstd::arithmetic::mul::lemma_mul_is_commutative(zp, zh);
                                    assert(z <= res);
                                } else if h2 < zh && zh < h as int {
                                    assert(!stores(*self.summary, zh));
                                    assert(none_set(self.cluster@[zh]));
                                    assert(false);
                                } else {
                                    assert(zh < h2 as int);
                                    vstd::arithmetic::mul::lemma_mul_inequality(
                                        zh + 1,
                                        h2 as int,
                                        zp,
                                    );
                                    lemma_cell(z, self.lower as nat);
                                    assert(z <= res);
                                }
                            }
                            assert(false);
                        }
                    }
                }
                return Some(h2 * p + low);
            },
            None => {},
        }
        proof {
            // no cluster before this one holds anything either
            assert forall|z: int|
                stores(gv, z) && z != mn && z != mx implies z >= x by {
                lemma_member_between(*self, z);
                let zh = z / zp;
                lemma_cell(z, self.lower as nat);
                if zh < h as int {
                    assert(!stores(*self.summary, zh));
                    assert(none_set(self.cluster@[zh]));
                    assert(false);
                } else if zh > h as int {
                    vstd::arithmetic::mul::lemma_mul_inequality(h as int + 1, zh, zp);
                }
            }
        }
        if mn < x {
            proof {
                assert forall|z: int| (mn as int) < z < x implies !stores(gv, z) by {}
            }
            Some(mn)
        } else {
            proof {
                assert forall|z: int| z < x implies !stores(gv, z) by {}
            }
            None
        }
    }

    /// The least stored value strictly above `x`: in this value's own
    /// cluster, at the front of the nearest non-empty cluster after it, or
    /// among the extremes.
    #[verifier::rlimit(100)]
    pub fn succ(&self, x: usize) -> (r: Option<usize>)
        requires
            veb_wf(Veb::Rec(*self)),
            x < pow2(self.lg as nat),
        ensures
            r is Some ==> stores(Veb::Rec(*self), r.unwrap() as int) && x < r.unwrap()
                && r.unwrap() < pow2(self.lg as nat),
            r is Some ==> forall|z: int| x < z < r.unwrap() ==> !stores(Veb::Rec(*self), z),
            r is None ==> forall|z: int| z > x ==> !stores(Veb::Rec(*self), z),
        decreases Veb::Rec(*self), 0int,
    {
        let ghost gv = Veb::Rec(*self);
        let (mn, mx) = match self.minmax {
            None => {
                return None;
            },
            Some(pair) => pair,
        };
        if x < mn {
            proof {
                assert forall|z: int| x < z < (mn as int) implies !stores(gv, z) by {
                    if stores(gv, z) && z != mn && z != mx {
                        lemma_member_between(*self, z);
                    }
                }
            }
            return Some(mn);
        }
        let p = pow2_usize(self.lower);
        let h = x / p;
        let l = x % p;
        let ghost zp = pow2(self.lower as nat) as int;
        proof {
            lemma_split(x as int, self.lower as nat, (self.lg - self.lower) as nat);
            lemma_universe_fits(self.lg as nat);
        }
        let cmax = self.cluster[h].max();
        if cmax.is_some() && l < cmax.unwrap() {
            let low = match self.cluster[h].succ(l) {
                Some(low) => low,
                None => {
                    proof {
                        assert(stores(self.cluster@[h as int], cmax.unwrap() as int));
                        assert(false);
                    }
                    vstd::pervasive::unreached()
                },
            };
            proof {
                lemma_join(h as int, low as int, self.lower as nat, (self.lg - self.lower) as nat);
                let res = h as int * zp + low;
                assert(stores(gv, res));
                assert forall|z: int| x < z < res implies !stores(gv, z) by {
                    if stores(gv, z) {
                        assert(res < mx) by {
                            lemma_member_between(*self, res);
                        }
                        if z != mn && z != mx {
                            lemma_member_between(*self, z);
                            lemma_same_cell(z, h as int, self.lower as nat);
                            assert(!stores(self.cluster@[h as int], z - h as int * zp));
                            assert(false);
                        }
                        assert(false);
                    }
                }
            }
            return Some(h * p + low);
        }
        proof {
            // nothing in this cluster lies above the offset `l`
            assert forall|z: int|
                stores(gv, z) && z != mn && z != mx && z / zp == h implies z <= x by {
                lemma_member_between(*self, z);
                if cmax is None {
                    assert(!stores(self.cluster@[h as int], z % zp));
                } else {
                    assert(z % zp <= cmax.unwrap());
                }
            }
        }
        match self.summary.succ(h) {
            Some(h2) => {
                proof {
                    assert(stores(*self.summary, h2 as int));
                    lemma_stores_in_range(*self.summary, h2 as int);
                    assert(!none_set(self.cluster@[h2 as int]));
                }
                let low = match self.cluster[h2].min() {
                    Some(low) => low,
                    None => {
                        proof {
                            assert(false);
                        }
                        vstd::pervasive::unreached()
                    },
                };
                proof {
                    lemma_join(
                        h2 as int,
                        low as int,
                        self.lower as nat,
                        (self.lg - self.lower) as nat,
                    );
                    vstd::arithmetic::mul::lemma_mul_inequality(h as int + 1, h2 as int, zp);
                    let res = h2 as int * zp + low;
                    assert(stores(gv, res));
                    assert(x < res);
                    assert forall|z: int| x < z < res implies !stores(gv, z) by {
                        if stores(gv, z) {
                            assert(res < mx) by {
                                lemma_member_between(*self, res);
                            }
                            if z != mn && z != mx {
                                lemma_member_between(*self, z);
                                let zh = z / zp;
                                let zl = z % zp;
                                vstd::arithmetic::div_mod::lemma_multiply_divide_lt(
                                    z,
                                    zp,
                                    h2 as int + 1,
                                );
                                if zh == h as int {
                                    assert(z <= x);
                                } else if zh == h2 as int {
                                    assert(low <= zl);
                                    vstd::arithmetic::mul::lemma_mul_is_commutative(zp, zh);
                                    assert(res <= z);
                                } else if h < zh && zh < h2 as int {
                                    assert(!stores(*self.summary, zh));
                                    assert(none_set(self.cluster@[zh]));
                                    assert(false);
                                } else {
                                    assert(zh < h as int);
                                    vstd::arithmetic::mul::lemma_mul_inequality(
                                        zh + 1,
                                        h as int,
                                        zp,
                                    );
                                    lemma_cell(z, self.lower as nat);
                                    assert(z <= x);
                                }
                            }
                            assert(false);
                        }
                    }
                }
                return Some(h2 * p + low);
            },
            None => {},
        }
        proof {
            // no cluster after this one holds anything either
            assert forall|z: int|
                stores(gv, z) && z != mn && z != mx implies z <= x by {
                lemma_member_between(*self, z);
                let zh = z / zp;
                lemma_cell(z, self.lower as nat);
                if zh > h as int {
                    assert(!stores(*self.summary, zh));
                    assert(none_set(self.cluster@[zh]));
                    assert(false);
                } else if zh < h as int {
                    vstd::arithmetic::mul::lemma_mul_inequality(zh + 1, h as int, zp);
                }
            }
        }
        if x < mx {
            proof {
                assert forall|z: int| x < z < (mx as int) implies !stores(gv, z) by {}
            }
            Some(mx)
        } else {
            proof {
                assert forall|z: int| z > x implies !stores(gv, z) by {}
            }
            None
        }
    }

    /// A bit for every universe value, set exactly for the stored ones.
    pub fn collect_bitvec(&self) -> (res: Vec<bool>)
        requires
            veb_wf(Veb::Rec(*self)),
        ensures
            res@.len() == pow2(self.lg as nat),
            forall|i: int| 0 <= i < res@.len() ==> res@[i] == stores(Veb::Rec(*self), i),
    {
        let n = self.len();
        let mut vec: Vec<bool> = Vec::new();
        let mut i: usize = 0;
        while i < n
            invariant
                veb_wf(Veb::Rec(*self)),
                n == pow2(self.lg as nat),
                i <= n,
                vec@.len() == i,
                forall|k: int| 0 <= k < i ==> vec@[k] == stores(Veb::Rec(*self), k),
            decreases n - i,
        {
            vec.push(self.contains(i));
            i += 1;
        }
        vec
    }

    /// Sets the bit `offset + v` for every stored value `v`, leaving all
    /// other bits as they were.
    pub fn copy_bitvec(&self, out: &mut Vec<bool>, offset: usize)
        requires
            veb_wf(Veb::Rec(*self)),
            offset + pow2(self.lg as nat) <= old(out).len(),
        ensures
            final(out).len() == old(out).len(),
            forall|i: int|
                0 <= i < final(out).len() ==> final(out)@[i] == (old(out)@[i] || (offset <= i < offset
                    + pow2(self.lg as nat) && stores(Veb::Rec(*self), i - offset))),
    {
        let n = self.len();
        let mut i: usize = 0;
        while i < n
            invariant
                veb_wf(Veb::Rec(*self)),
                n == pow2(self.lg as nat),
                i <= n,
                offset + n <= out.len(),
                out@.len() == old(out)@.len(),
                forall|k: int|
                    0 <= k < out@.len() ==> out@[k] == (old(out)@[k] || (offset <= k < offset
                        + i && stores(Veb::Rec(*self), k - offset))),
            decreases n - i,
        {
            let b = out[offset + i] || self.contains(i);
            out.set(offset + i, b);
            i += 1;
        }
    }
}

impl Rec {
    /// Stores `x`: a value outside the extremes displaces one of them into
    /// its cluster, marking the cluster in the summary when it was empty.
    #[verifier::rlimit(100)]
    pub fn insert(&mut self, x: usize)
        requires
            veb_wf(Veb::Rec(*old(self))),
            x < pow2(old(self).lg as nat),
        ensures
            veb_wf(Veb::Rec(*final(self))),
            final(self).lg == old(self).lg,
            stores(Veb::Rec(*final(self)), x as int),
            forall|z: int| stores(Veb::Rec(*old(self)), z) ==> stores(Veb::Rec(*final(self)), z),
            forall|z: int|
                stores(Veb::Rec(*final(self)), z) ==> stores(Veb::Rec(*old(self)), z) || z
                    == x as int,
        decreases Veb::Rec(*old(self)), 0int,
    {
        let ghost gv = Veb::Rec(*old(self));
        match self.minmax {
            None => {
                self.minmax = Some((x, x));
                proof {
                    assert(veb_wf(Veb::Rec(*self)));
                    assert(stores(Veb::Rec(*self), x as int));
                    let zp = pow2(self.lower as nat) as int;
                    assert forall|z: int|
                        stores(Veb::Rec(*self), z) implies stores(gv, z) || z == x as int by {
                        if z != x as int {
                            assert(stores(self.cluster@[z / zp], z % zp));
                            assert(none_set(old(self).cluster@[z / zp]));
                            assert(false);
                        }
                    }
                }
            },
            Some((mn, mx)) => {
                let ghost zp = pow2(self.lower as nat) as int;
                if mn == mx {
                    proof {
                        lemma_degenerate(*old(self));
                    }
                    if x < mn {
                        self.minmax = Some((x, mn));
                    } else if mn < x {
                        self.minmax = Some((mn, x));
                    }
                    proof {
                        assert(stores(Veb::Rec(*self), x as int));
                        assert(stores(Veb::Rec(*self), mn as int));
                        assert(veb_wf(Veb::Rec(*self)));
                        assert forall|z: int| stores(gv, z) implies stores(Veb::Rec(*self), z) by {
                            if z != mn && z != mx {
                                assert(stores(old(self).cluster@[z / zp], z % zp));
                                assert(none_set(old(self).cluster@[z / zp]));
                                assert(false);
                            }
                        }
                        assert forall|z: int|
                            stores(Veb::Rec(*self), z) implies stores(gv, z) || z == x as int by {
                            if z != mn as int && z != x as int {
                                assert(stores(self.cluster@[z / zp], z % zp));
                                assert(none_set(old(self).cluster@[z / zp]));
                                assert(false);
                            }
                        }
                    }
                } else if x != mn && x != mx {
                    let mut y = x;
                    let mut nmn = mn;
                    let mut nmx = mx;
                    if x < mn {
                        // the new value becomes the minimum; the old minimum
                        // moves down into its cluster
                        nmn = x;
                        y = mn;
                    } else if mx < x {
                        nmx = x;
                        y = mx;
                    }
                    self.minmax = Some((nmn, nmx));
                    let p = pow2_usize(self.lower);
                    let h = y / p;
                    let l = y % p;
                    let ghost zp = pow2(self.lower as nat) as int;
                    proof {
                        lemma_split(y as int, self.lower as nat, (self.lg - self.lower) as nat);
                    }
                    let mut c = self.cluster.remove(h);
                    let was_empty = c.is_empty();
                    c.insert(l);
                    self.cluster.insert(h, c);
                    proof {
                        assert(self.cluster@ =~= old(self).cluster@.update(h as int, c));
                    }
                    let ghost gc = c;
                    if was_empty {
                        let ghost gs = *self;
                        let s: &mut Box<Veb> = &mut self.summary;
                        s.insert(h);
                        proof {
                            assert(self.cluster@ == gs.cluster@);
                            assert(self.minmax == gs.minmax);
                        }
                    }
                    proof {
                        assert(self.cluster@[h as int] == gc);
                        assert(stores(gc, l as int));
                        assert(stores(Veb::Rec(*self), y as int));
                        if x != y {
                            assert(x as int == nmn || x as int == nmx);
                        }
                        assert(stores(Veb::Rec(*self), x as int));
                        // old members stay
                        assert forall|z: int| stores(gv, z) implies stores(Veb::Rec(*self), z) by {
                            if z == mn || z == mx {
                                assert(stores(Veb::Rec(*self), z));
                            } else {
                                lemma_member_between(*old(self), z);
                                if z / zp == h as int {
                                    assert(stores(gc, z % zp));
                                } else {
                                    assert(self.cluster@[z / zp] == old(self).cluster@[z / zp]);
                                }
                                assert(stores(Veb::Rec(*self), z));
                            }
                        }
                        // nothing else appears
                        assert forall|z: int|
                            stores(Veb::Rec(*self), z) implies stores(gv, z) || z == x as int by {
                            if z != nmn && z != nmx {
                                let zh = z / zp;
                                let zl = z % zp;
                                vstd::arithmetic::power2::lemma_pow2_pos(self.lower as nat);
                                vstd::arithmetic::div_mod::lemma_mod_bound(z, zp);
                                vstd::arithmetic::div_mod::lemma_fundamental_div_mod(z, zp);
                                vstd::arithmetic::mul::lemma_mul_is_commutative(zp, zh);
                                if zh == h as int {
                                    assert(stores(gc, zl));
                                    if zl == l as int {
                                        assert(z == y as int);
                                    } else {
                                        assert(stores(old(self).cluster@[zh], zl));
                                        assert(stores(gv, z));
                                    }
                                } else {
                                    assert(self.cluster@[zh] == old(self).cluster@[zh]);
                                    assert(stores(gv, z));
                                }
                            } else {
                                assert(z == mn as int || z == mx as int || z == x as int);
                            }
                        }
                        // every cluster value stays strictly between the extremes
                        assert forall|h2: int, l2: int|
                            0 <= h2 < self.cluster.len() && 0 <= l2 < pow2(self.lower as nat)
                                && #[trigger] stores(self.cluster@[h2], l2) implies nmn < h2 * zp
                            + l2 < nmx by {
                            if h2 == h as int {
                                if l2 == l as int {
                                    assert(h2 * zp + l2 == y as int);
                                } else {
                                    assert(stores(old(self).cluster@[h2], l2));
                                }
                            } else {
                                assert(stores(old(self).cluster@[h2], l2));
                            }
                        }
                        // the summary stays in step with the clusters
                        assert forall|h2: int|
                            0 <= h2 < self.cluster.len() implies (stores(*self.summary, h2)
                            <==> !none_set(#[trigger] self.cluster@[h2])) by {
                            if h2 == h as int {
                                assert(!none_set(gc));
                                if !was_empty {
                                    assert(!none_set(old(self).cluster@[h2]));
                                    assert(stores(*old(self).summary, h2));
                                }
                                assert(stores(*self.summary, h2));
                            } else {
                                assert(self.cluster@[h2] == old(self).cluster@[h2]);
                                if stores(*self.summary, h2) {
                                    assert(stores(*old(self).summary, h2));
                                }
                                if !none_set(self.cluster@[h2]) {
                                    assert(stores(*old(self).summary, h2));
                                }
                            }
                        }
                        assert(veb_wf(Veb::Rec(*self)));
                    }
                }
            },
        }
    }

    /// Removes `x`: an extreme is replaced by the nearest value pulled out
    /// of the clusters, or the structure collapses to its other extreme when
    /// the clusters are empty.
    #[verifier::rlimit(100)]
    pub fn delete(&mut self, x: usize) -> (r: bool)
        requires
            veb_wf(Veb::Rec(*old(self))),
            x < pow2(old(self).lg as nat),
        ensures
            veb_wf(Veb::Rec(*final(self))),
            final(self).lg == old(self).lg,
            r == stores(Veb::Rec(*old(self)), x as int),
            !stores(Veb::Rec(*final(self)), x as int),
            forall|z: int|
                stores(Veb::Rec(*old(self)), z) && z != x as int ==> stores(
                    Veb::Rec(*final(self)),
                    z,
                ),
            forall|z: int| stores(Veb::Rec(*final(self)), z) ==> stores(Veb::Rec(*old(self)), z),
        decreases Veb::Rec(*old(self)), 0int,
    {
        let ghost gv = Veb::Rec(*old(self));
        let (mn, mx) = match self.minmax {
            None => {
                return false;
            },
            Some(pair) => pair,
        };
        let ghost zp = pow2(self.lower as nat) as int;
        if mn == mx {
            proof {
                lemma_degenerate(*old(self));
            }
            if x == mn {
                self.minmax = None;
                proof {
                    assert(veb_wf(Veb::Rec(*self)));
                    assert forall|z: int| !stores(Veb::Rec(*self), z) by {}
                    assert forall|z: int|
                        stores(gv, z) && z != x as int implies stores(Veb::Rec(*self), z) by {
                        assert(stores(old(self).cluster@[z / zp], z % zp));
                        assert(none_set(old(self).cluster@[z / zp]));
                        assert(false);
                    }
                }
                return true;
            } else {
                proof {
                    assert(!stores(gv, x as int)) by {
                        if stores(gv, x as int) {
                            assert(stores(
                                old(self).cluster@[x as int / zp],
                                x as int % zp,
                            ));
                            assert(none_set(old(self).cluster@[x as int / zp]));
                            assert(false);
                        }
                    }
                }
                return false;
            }
        }
        let p = pow2_usize(self.lower);
        let mut y = x;
        proof {
            lemma_universe_fits(self.lg as nat);
        }
        if x == mn {
            match self.summary.min() {
                None => {
                    // the summary is empty, so every cluster is empty and
                    // only the other extreme remains
                    proof {
                        assert forall|h2: int|
                            0 <= h2 < self.cluster.len() implies none_set(
                            #[trigger] self.cluster@[h2],
                        ) by {
                            if !none_set(self.cluster@[h2]) {
                                assert(stores(*self.summary, h2));
                            }
                        }
                    }
                    self.minmax = Some((mx, mx));
                    proof {
                        assert(veb_wf(Veb::Rec(*self)));
                        assert forall|z: int|
                            stores(gv, z) && z != x as int implies stores(Veb::Rec(*self), z) by {
                            if z != mn && z != mx {
                                lemma_member_between(*old(self), z);
                                assert(false);
                            }
                        }
                        assert forall|z: int|
                            stores(Veb::Rec(*self), z) implies stores(gv, z) by {
                            if z != mn && z != mx {
                                let zh = z / zp;
                                assert(stores(self.cluster@[zh], z % zp));
                                assert(false);
                            }
                        }
                        assert(!stores(Veb::Rec(*self), x as int)) by {
                            if stores(Veb::Rec(*self), x as int) {
                                assert(stores(
                                    self.cluster@[x as int / zp],
                                    x as int % zp,
                                ));
                                assert(false);
                            }
                        }
                    }
                    return true;
                },
                Some(hh) => {
                    proof {
                        assert(stores(*self.summary, hh as int));
                        lemma_stores_in_range(*self.summary, hh as int);
                        assert(!none_set(self.cluster@[hh as int]));
                    }
                    let low = match self.cluster[hh].min() {
                        Some(low) => low,
                        None => {
                            proof {
                                assert(false);
                            }
                            vstd::pervasive::unreached()
                        },
                    };
                    proof {
                        lemma_join(
                            hh as int,
                            low as int,
                            self.lower as nat,
                            (self.lg - self.lower) as nat,
                        );
                        assert(stores(gv, hh as int * zp + low));
                        lemma_member_between(*old(self), hh as int * zp + low);
                    }
                    y = hh * p + low;
                    self.minmax = Some((y, mx));
                    proof {
                        // the pulled value is the least cluster value
                        assert forall|z: int|
                            stores(gv, z) && z != mn && z != mx && z != y implies (y as int) < z by {
                            lemma_member_between(*old(self), z);
                            let zh = z / zp;
                            let zl = z % zp;
                            lemma_cell(z, self.lower as nat);
                            assert(stores(*old(self).summary, zh));
                            assert(hh as int <= zh);
                            if zh == hh as int {
                                assert(low as int <= zl);
                                vstd::arithmetic::mul::lemma_mul_is_commutative(zp, zh);
                            } else {
                                vstd::arithmetic::mul::lemma_mul_inequality(
                                    hh as int + 1,
                                    zh,
                                    zp,
                                );
                            }
                        }
                    }
                },
            }
        } else if x == mx {
            match self.summary.max() {
                None => {
                    proof {
                        assert forall|h2: int|
                            0 <= h2 < self.cluster.len() implies none_set(
                            #[trigger] self.cluster@[h2],
                        ) by {
                            if !none_set(self.cluster@[h2]) {
                                assert(stores(*self.summary, h2));
                            }
                        }
                    }
                    self.minmax = Some((mn, mn));
                    proof {
                        assert(veb_wf(Veb::Rec(*self)));
                        assert forall|z: int|
                            stores(gv, z) && z != x as int implies stores(Veb::Rec(*self), z) by {
                            if z != mn && z != mx {
                                lemma_member_between(*old(self), z);
                                assert(false);
                            }
                        }
                        assert forall|z: int|
                            stores(Veb::Rec(*self), z) implies stores(gv, z) by {
                            if z != mn && z != mx {
                                let zh = z / zp;
                                assert(stores(self.cluster@[zh], z % zp));
                                assert(false);
                            }
                        }
                        assert(!stores(Veb::Rec(*self), x as int)) by {
                            if stores(Veb::Rec(*self), x as int) {
                                assert(stores(
                                    self.cluster@[x as int / zp],
                                    x as int % zp,
                                ));
                                assert(false);
                            }
                        }
                    }
                    return true;
                },
                Some(hh) => {
                    proof {
                        assert(stores(*self.summary, hh as int));
                        lemma_stores_in_range(*self.summary, hh as int);
                        assert(!none_set(self.cluster@[hh as int]));
                    }
                    let low = match self.cluster[hh].max() {
                        Some(low) => low,
                        None => {
                            proof {
                                assert(false);
                            }
                            vstd::pervasive::unreached()
                        },
                    };
                    proof {
                        lemma_join(
                            hh as int,
                            low as int,
                            self.lower as nat,
                            (self.lg - self.lower) as nat,
                        );
                        assert(stores(gv, hh as int * zp + low));
                        lemma_member_between(*old(self), hh as int * zp + low);
                    }
                    y = hh * p + low;
                    self.minmax = Some((mn, y));
                    proof {
                        // the pulled value is the greatest cluster value
                        assert forall|z: int|
                            stores(gv, z) && z != mn && z != mx && z != y implies z < (y as int) by {
                            lemma_member_between(*old(self), z);
                            let zh = z / zp;
                            let zl = z % zp;
                            lemma_cell(z, self.lower as nat);
                            assert(stores(*old(self).summary, zh));
                            assert(zh <= hh as int);
                            if zh == hh as int {
                                assert(zl <= low as int);
                                vstd::arithmetic::mul::lemma_mul_is_commutative(zp, zh);
                            } else {
                                vstd::arithmetic::mul::lemma_mul_inequality(
                                    zh + 1,
                                    hh as int,
                                    zp,
                                );
                            }
                        }
                    }
                },
            }
        }
        let ghost gmid = *self;
        let h = y / p;
        let l = y % p;
        proof {
            if y != x {
                lemma_member_between(*old(self), y as int);
            }
            lemma_split(y as int, self.lower as nat, (self.lg - self.lower) as nat);
        }
        let mut c = self.cluster.remove(h);
        let ghost gcold = c;
        let deleted = c.delete(l);
        let now_empty = c.is_empty();
        let ghost gc = c;
        self.cluster.insert(h, c);
        proof {
            assert(self.cluster@ =~= gmid.cluster@.update(h as int, c));
            assert(gmid.cluster@ == old(self).cluster@);
            assert(gcold == old(self).cluster@[h as int]);
        }
        if deleted && now_empty {
            let ghost gs = *self;
            let s: &mut Box<Veb> = &mut self.summary;
            s.delete(h);
            proof {
                assert(self.cluster@ == gs.cluster@);
                assert(self.minmax == gs.minmax);
            }
        }
        proof {
            let (nmn, nmx) = self.minmax.unwrap();
            assert(nmn == gmid.minmax.unwrap().0 && nmx == gmid.minmax.unwrap().1);
            if y != x {
                assert(stores(gcold, l as int)) by {
                    lemma_member_between(*old(self), y as int);
                }
                assert(deleted);
            } else {
                assert(deleted == stores(gv, x as int)) by {
                    if stores(gv, x as int) {
                        lemma_member_between(*old(self), x as int);
                    }
                    if stores(gcold, l as int) {
                        assert(stores(gv, x as int));
                    }
                }
            }
            // the summary stays in step with the clusters
            assert forall|h2: int|
                0 <= h2 < self.cluster.len() implies (stores(*self.summary, h2) <==> !none_set(
                #[trigger] self.cluster@[h2],
            )) by {
                if h2 == h as int {
                    if now_empty {
                        assert(none_set(gc));
                        if stores(*self.summary, h2) {
                            if deleted {
                                assert(false);
                            } else {
                                assert forall|w: int| !stores(gcold, w) by {
                                    if stores(gcold, w) && w != l as int {
                                        assert(stores(gc, w));
                                    }
                                    if stores(gcold, l as int) {
                                        assert(deleted);
                                    }
                                }
                                assert(!stores(*old(self).summary, h2));
                                assert(false);
                            }
                        }
                    } else {
                        let w = choose|w: int| stores(gc, w);
                        assert(stores(gcold, w));
                        assert(stores(*old(self).summary, h2));
                        assert(stores(*self.summary, h2));
                    }
                } else {
                    assert(self.cluster@[h2] == old(self).cluster@[h2]);
                    if stores(*self.summary, h2) {
                        assert(stores(*old(self).summary, h2));
                    }
                    if !none_set(self.cluster@[h2]) {
                        assert(stores(*old(self).summary, h2));
                        assert(stores(*self.summary, h2));
                    }
                }
            }
            // every remaining cluster value stays strictly between the
            // extremes
            assert forall|h2: int, l2: int|
                0 <= h2 < self.cluster.len() && 0 <= l2 < pow2(self.lower as nat)
                    && #[trigger] stores(self.cluster@[h2], l2) implies nmn < h2 * zp + l2
                < nmx by {
                let z = h2 * zp + l2;
                lemma_join(h2, l2, self.lower as nat, (self.lg - self.lower) as nat);
                if h2 == h as int {
                    assert(stores(gcold, l2));
                    assert(l2 != l as int);
                } else {
                    assert(stores(old(self).cluster@[h2], l2));
                }
                assert(stores(gv, z));
                assert(mn < z && z < mx);
                assert(z != y as int);
            }
            assert(veb_wf(Veb::Rec(*self)));
            // nothing but `x` disappears
            assert forall|z: int|
                stores(gv, z) && z != x as int implies stores(Veb::Rec(*self), z) by {
                if z == y as int {
                    assert(stores(Veb::Rec(*self), z));
                } else if z != mn && z != mx {
                    lemma_member_between(*old(self), z);
                    let zh = z / zp;
                    let zl = z % zp;
                    if zh == h as int {
                        assert(zl != l as int) by {
                            vstd::arithmetic::mul::lemma_mul_is_commutative(zp, zh);
                        }
                        assert(stores(gc, zl));
                    } else {
                        assert(self.cluster@[zh] == old(self).cluster@[zh]);
                    }
                    assert(stores(Veb::Rec(*self), z));
                }
            }
            // nothing appears
            assert forall|z: int|
                stores(Veb::Rec(*self), z) implies stores(gv, z) by {
                if z != nmn && z != nmx {
                    let zh = z / zp;
                    let zl = z % zp;
                    assert(stores(self.cluster@[zh], zl));
                    if zh == h as int {
                        assert(stores(gcold, zl));
                    } else {
                        assert(stores(old(self).cluster@[zh], zl));
                    }
                    assert(stores(gv, z));
                }
            }
            // `x` is gone
            assert(!stores(Veb::Rec(*self), x as int)) by {
                if stores(Veb::Rec(*self), x as int) {
                    vstd::arithmetic::power2::lemma_pow2_pos(self.lower as nat);
                    vstd::arithmetic::div_mod::lemma_mod_bound(x as int, zp);
                    vstd::arithmetic::div_mod::lemma_fundamental_div_mod(x as int, zp);
                    vstd::arithmetic::mul::lemma_mul_is_commutative(zp, x as int / zp);
                    if x as int == nmn || x as int == nmx {
                        assert(false);
                    } else {
                        let xh = x as int / zp;
                        let xl = x as int % zp;
                        assert(stores(self.cluster@[xh], xl));
                        if xh == h as int {
                            assert(stores(gc, xl));
                            if y == x {
                                assert(xl == l as int);
                                assert(false);
                            } else {
                                assert(stores(gcold, xl));
                                assert(mn < x as int && (x as int) < mx);
                                assert(false);
                            }
                        } else {
                            assert(stores(old(self).cluster@[xh], xl));
                            assert(mn < x as int && (x as int) < mx);
                            assert(false);
                        }
                    }
                }
            }
        }
        deleted
    }
}

} // verus!
