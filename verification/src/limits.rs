use vstd::prelude::*;

use crate::geom::Axis;

verus! {

/// Relative preference of the two children of a split.
#[derive(Debug, Clone, Copy, PartialEq, Eq, Structural)]
pub struct WeightPair {
    pub a: u32,
    pub b: u32,
}

impl WeightPair {
    /// A pair is usable unless both weights are zero.
    pub open spec fn spec_valid(self) -> bool {
        self.a != 0 || self.b != 0
    }

    #[must_use]
    pub(crate) fn checked(self) -> (r: Option<Self>)
        ensures
            r == (if self.spec_valid() { Some(self) } else { None::<WeightPair> }),
    {
        if self.a != 0 || self.b != 0 {
            Some(self)
        } else {
            None
        }
    }
}

impl Default for WeightPair {
    fn default() -> (r: Self)
        ensures
            r == (WeightPair { a: 1, b: 1 }),
    {
        Self { a: 1, b: 1 }
    }
}

/// The pair `1:1`.
pub open spec fn equal_weights() -> WeightPair {
    WeightPair { a: 1, b: 1 }
}

/// Shrink and grow priorities of a leaf.
#[derive(Debug, Clone, Copy, PartialEq, Eq, Structural)]
pub struct Priority {
    pub shrink: u16,
    pub grow: u16,
}

impl Default for Priority {
    fn default() -> (r: Self)
        ensures
            r == (Priority { shrink: 1, grow: 1 }),
    {
        Self { shrink: 1, grow: 1 }
    }
}

/// Hard minimum and optional maximum size of a leaf.
#[derive(Debug, Clone, Copy, PartialEq, Eq, Structural)]
pub struct SizeLimits {
    pub min_w: u32,
    pub min_h: u32,
    pub max_w: Option<u32>,
    pub max_h: Option<u32>,
}

impl Default for SizeLimits {
    fn default() -> (r: Self)
        ensures
            r == (SizeLimits { min_w: 1, min_h: 1, max_w: None, max_h: None }),
    {
        Self { min_w: 1, min_h: 1, max_w: None, max_h: None }
    }
}

/// Per-leaf metadata: size limits and priorities.
#[derive(Debug, Clone, PartialEq, Eq, Structural)]
pub struct LeafMeta {
    pub limits: SizeLimits,
    pub priority: Priority,
}

impl LeafMeta {
    /// Limits are consistent (`min <= max`) and both priorities are non-zero.
    pub open spec fn spec_valid(self) -> bool {
        &&& (self.limits.max_w matches Some(m) ==> self.limits.min_w <= m)
        &&& (self.limits.max_h matches Some(m) ==> self.limits.min_h <= m)
        &&& self.priority.shrink != 0
        &&& self.priority.grow != 0
    }
}

impl Default for LeafMeta {
    fn default() -> (r: Self)
        ensures
            r == (LeafMeta {
                limits: SizeLimits { min_w: 1, min_h: 1, max_w: None, max_h: None },
                priority: Priority { shrink: 1, grow: 1 },
            }),
    {
        Self { limits: SizeLimits::default(), priority: Priority::default() }
    }
}

/// Aggregated constraints of a subtree.
#[derive(Debug, Clone, Copy, PartialEq, Eq, Structural)]
pub struct Summary {
    pub min_w: u32,
    pub min_h: u32,
    pub max_w: Option<u32>,
    pub max_h: Option<u32>,
    pub leaf_count: u32,
    pub shrink_cost: u64,
    pub grow_cost: u64,
}

impl Summary {
    pub open spec fn spec_axis_limits(self, axis: Axis) -> (u32, Option<u32>) {
        match axis {
            Axis::X => (self.min_w, self.max_w),
            Axis::Y => (self.min_h, self.max_h),
        }
    }

    #[must_use]
    pub fn axis_limits(self, axis: Axis) -> (r: (u32, Option<u32>))
        ensures
            r == self.spec_axis_limits(axis),
    {
        match axis {
            Axis::X => (self.min_w, self.max_w),
            Axis::Y => (self.min_h, self.max_h),
        }
    }
}

/// Greatest common divisor by Euclid's algorithm.
pub open spec fn spec_gcd(a: nat, b: nat) -> nat
    decreases b,
{
    if b == 0 {
        a
    } else {
        spec_gcd(b, a % b)
    }
}

/// The reduced form of the weight pair `a:b`.
pub open spec fn spec_canonical(a: u32, b: u32) -> WeightPair {
    if a == 0 {
        WeightPair { a: 0, b: 1 }
    } else if b == 0 {
        WeightPair { a: 1, b: 0 }
    } else {
        let g = spec_gcd(a as nat, b as nat);
        WeightPair { a: (a as nat / g) as u32, b: (b as nat / g) as u32 }
    }
}

/// The gcd of two numbers that are not both zero is positive and at most each
/// non-zero argument.
pub proof fn lemma_gcd_positive(a: nat, b: nat)
    requires
        a != 0 || b != 0,
    ensures
        spec_gcd(a, b) > 0,
        a != 0 ==> spec_gcd(a, b) <= a,
        b != 0 ==> spec_gcd(a, b) <= b,
    decreases b,
{
    if b != 0 {
        if a < b {
            assert(a % b == a) by (nonlinear_arith)
                requires
                    a < b,
            ;
        }
        lemma_gcd_positive(b, a % b);
    }
}

/// The gcd divides both of its arguments.
pub proof fn lemma_gcd_divides(a: nat, b: nat)
    requires
        a != 0 || b != 0,
    ensures
        a % spec_gcd(a, b) == 0,
        b % spec_gcd(a, b) == 0,
    decreases b,
{
    lemma_gcd_positive(a, b);
    if b != 0 {
        lemma_gcd_divides(b, a % b);
        let g = spec_gcd(a, b);
        let q = a / b;
        let r = a % b;
        assert(a == b * q + r) by (nonlinear_arith)
            requires
                b > 0,
                q == a / b,
                r == a % b,
        ;
        let kb = b / g;
        let kr = r / g;
        assert(b == g * kb) by (nonlinear_arith)
            requires
                g > 0,
                b % g == 0,
                kb == b / g,
        ;
        assert(r == g * kr) by (nonlinear_arith)
            requires
                g > 0,
                r % g == 0,
                kr == r / g,
        ;
        assert(a == g * (kb * q + kr)) by (nonlinear_arith)
            requires
                a == b * q + r,
                b == g * kb,
                r == g * kr,
        ;
        assert(a % g == 0) by (nonlinear_arith)
            requires
                g > 0,
                a == g * (kb * q + kr),
                kb * q + kr >= 0,
        ;
    }
}

/// Reduces the weight pair `a:b` to lowest terms; a zero side becomes `0:1` or `1:0`.
#[must_use]
pub fn canonicalize_weights(a: u32, b: u32) -> (r: WeightPair)
    requires
        a != 0 || b != 0,
    ensures
        r == spec_canonical(a, b),
        r.spec_valid(),
{
    if a == 0 {
        WeightPair { a: 0, b: 1 }
    } else if b == 0 {
        WeightPair { a: 1, b: 0 }
    } else {
        let g = gcd(a, b);
        proof {
            lemma_gcd_positive(a as nat, b as nat);
        }
        let r = WeightPair { a: a / g, b: b / g };
        assert(r.a > 0) by (nonlinear_arith)
            requires
                r.a == a / g,
                0 < g <= a,
        ;
        r
    }
}

/// Canonical weights describe the same proportion as the pair they came from:
/// `r.a * b == r.b * a`.
pub proof fn lemma_canonical_proportional(a: u32, b: u32)
    requires
        a != 0 || b != 0,
    ensures
        spec_canonical(a, b).a * b == spec_canonical(a, b).b * a,
{
    if a != 0 && b != 0 {
        lemma_gcd_positive(a as nat, b as nat);
        lemma_gcd_divides(a as nat, b as nat);
        let an = a as nat;
        let bn = b as nat;
        let g = spec_gcd(an, bn);
        let ka = an / g;
        let kb = bn / g;
        assert(ka * bn == kb * an) by (nonlinear_arith)
            requires
                g > 0,
                an % g == 0,
                bn % g == 0,
                ka == an / g,
                kb == bn / g,
        {
            assert(an == g * ka);
            assert(bn == g * kb);
        }
        assert(ka <= an && kb <= bn) by (nonlinear_arith)
            requires
                g > 0,
                ka == an / g,
                kb == bn / g,
        ;
    }
}

fn gcd(a: u32, b: u32) -> (r: u32)
    ensures
        r == spec_gcd(a as nat, b as nat),
{
    let ghost target = spec_gcd(a as nat, b as nat);
    let mut a = a;
    let mut b = b;
    while b != 0
        invariant
            spec_gcd(a as nat, b as nat) == target,
        decreases b,
    {
        let next = a % b;
        a = b;
        b = next;
    }
    a
}

} // verus!
