//! Workgroup sizing: how a problem dimension and a kernel's fixed workgroup
//! shape determine the dispatch grid and the padded extent of its buffers.
use vstd::prelude::*;

verus! {

/// Number of workgroups of extent `w` needed to cover `n` invocations:
/// the quotient `n / w` rounded up.
pub open spec fn workgroups(n: nat, w: nat) -> nat {
    ((n + w - 1) / (w as int)) as nat
}

/// The dimension `n` rounded up to the next multiple of `w`.
pub open spec fn padded(n: nat, w: nat) -> nat {
    workgroups(n, w) * w
}

/// `workgroups(n, w)` is the least count of groups of `w` that covers `n`.
pub proof fn lemma_workgroups_least_cover(n: nat, w: nat, c: nat)
    requires
        w > 0,
    ensures
        workgroups(n, w) * w >= n,
        c * w >= n ==> workgroups(n, w) <= c,
{
    let q = workgroups(n, w) as int;
    let wi = w as int;
    vstd::arithmetic::div_mod::lemma_fundamental_div_mod(n + w - 1, wi);
    vstd::arithmetic::div_mod::lemma_mod_bound(n + w - 1, wi);
    vstd::arithmetic::mul::lemma_mul_is_commutative(wi, q);
    assert(q * wi >= n);
    if c * w >= n && c < q {
        assert((c + 1) * wi <= q * wi) by (nonlinear_arith)
            requires
                c + 1 <= q,
                wi > 0,
        ;
        assert((c + 1) * wi == c * wi + wi) by (nonlinear_arith);
        assert(false);
    }
}

/// The padded extent is the least multiple of `w` that is not below `n`.
pub proof fn lemma_padded_bounds(n: nat, w: nat)
    requires
        w > 0,
    ensures
        n <= padded(n, w) < n + w,
        padded(n, w) % w == 0,
        n % w == 0 ==> padded(n, w) == n,
{
    let q = workgroups(n, w) as int;
    let wi = w as int;
    vstd::arithmetic::div_mod::lemma_fundamental_div_mod(n + w - 1, wi);
    vstd::arithmetic::div_mod::lemma_mod_bound(n + w - 1, wi);
    vstd::arithmetic::mul::lemma_mul_is_commutative(wi, q);
    vstd::arithmetic::div_mod::lemma_mod_multiples_basic(q, wi);
    if n % w == 0 {
        vstd::arithmetic::div_mod::lemma_fundamental_div_mod(n as int, wi);
        let d = (n as int) / wi;
        vstd::arithmetic::mul::lemma_mul_is_commutative(wi, d);
        assert(d * wi == n);
        lemma_workgroups_least_cover(n, w, d as nat);
        assert(q * wi <= d * wi) by (nonlinear_arith)
            requires
                q <= d,
                wi > 0,
        ;
    }
}

/// The dispatch geometry of a compute kernel: a fixed workgroup shape, and
/// from it the grid extents and padded strides for a problem of dimension `n`.
pub trait Kernel {
    /// Invocations per workgroup along x.
    const WORKGROUP_SIZE_X: usize;

    /// Invocations per workgroup along y.
    const WORKGROUP_SIZE_Y: usize;

    /// Invocations per workgroup along z.
    const WORKGROUP_SIZE_Z: usize;

    /// Every extent of the workgroup shape is at least one.
    proof fn lemma_workgroup_shape()
        ensures
            Self::WORKGROUP_SIZE_X > 0,
            Self::WORKGROUP_SIZE_Y > 0,
            Self::WORKGROUP_SIZE_Z > 0,
    ;

    /// Workgroups that a dispatch over `n` invocations needs along x.
    fn num_workgroups_x(n: usize) -> (count: usize)
        ensures
            count == workgroups(n as nat, Self::WORKGROUP_SIZE_X as nat),
    {
        proof {
            Self::lemma_workgroup_shape();
        }
        ceil_div(n, Self::WORKGROUP_SIZE_X)
    }

    /// Workgroups that a dispatch over `n` invocations needs along y.
    fn num_workgroups_y(n: usize) -> (count: usize)
        ensures
            count == workgroups(n as nat, Self::WORKGROUP_SIZE_Y as nat),
    {
        proof {
            Self::lemma_workgroup_shape();
        }
        ceil_div(n, Self::WORKGROUP_SIZE_Y)
    }

    /// Workgroups that a dispatch over `n` invocations needs along z.
    fn num_workgroups_z(n: usize) -> (count: usize)
        ensures
            count == workgroups(n as nat, Self::WORKGROUP_SIZE_Z as nat),
    {
        proof {
            Self::lemma_workgroup_shape();
        }
        ceil_div(n, Self::WORKGROUP_SIZE_Z)
    }

    /// Invocations that such a dispatch runs along x: `n` padded to whole
    /// workgroups. This is the row stride of a buffer it can fill.
    fn num_threads_x(n: usize) -> (extent: usize)
        requires
            padded(n as nat, Self::WORKGROUP_SIZE_X as nat) <= usize::MAX,
        ensures
            extent == padded(n as nat, Self::WORKGROUP_SIZE_X as nat),
    {
        Self::num_workgroups_x(n) * Self::WORKGROUP_SIZE_X
    }

    /// Invocations that such a dispatch runs along y.
    fn num_threads_y(n: usize) -> (extent: usize)
        requires
            padded(n as nat, Self::WORKGROUP_SIZE_Y as nat) <= usize::MAX,
        ensures
            extent == padded(n as nat, Self::WORKGROUP_SIZE_Y as nat),
    {
        Self::num_workgroups_y(n) * Self::WORKGROUP_SIZE_Y
    }

    /// Invocations that such a dispatch runs along z.
    fn num_threads_z(n: usize) -> (extent: usize)
        requires
            padded(n as nat, Self::WORKGROUP_SIZE_Z as nat) <= usize::MAX,
        ensures
            extent == padded(n as nat, Self::WORKGROUP_SIZE_Z as nat),
    {
        Self::num_workgroups_z(n) * Self::WORKGROUP_SIZE_Z
    }
}

/// `n / w` rounded up, computed without an intermediate sum that could
/// exceed the machine word.
pub fn ceil_div(n: usize, w: usize) -> (count: usize)
    requires
        w > 0,
    ensures
        count == workgroups(n as nat, w as nat),
{
    let q = n / w;
    let r = n % w;
    proof {
        let ni = n as int;
        let wi = w as int;
        vstd::arithmetic::div_mod::lemma_fundamental_div_mod(ni, wi);
        vstd::arithmetic::div_mod::lemma_mod_bound(ni, wi);
        vstd::arithmetic::mul::lemma_mul_is_commutative(wi, q as int);
        if r == 0 {
            vstd::arithmetic::div_mod::lemma_fundamental_div_mod_converse(
                ni + wi - 1,
                wi,
                q as int,
                wi - 1,
            );
        } else {
            assert((q + 1) * wi == q * wi + wi) by (nonlinear_arith);
            vstd::arithmetic::div_mod::lemma_fundamental_div_mod_converse(
                ni + wi - 1,
                wi,
                q + 1,
                r - 1,
            );
            assert(q * wi <= ni);
            assert(q < usize::MAX) by (nonlinear_arith)
                requires
                    q * wi <= ni,
                    ni <= usize::MAX,
                    wi > 0,
                    r > 0,
                    ni == q * wi + r,
            ;
        }
    }
    if r == 0 {
        q
    } else {
        q + 1
    }
}

/// `n` rounded up to the next multiple of `w`, or `None` where that
/// multiple exceeds the machine word.
pub fn checked_padded(n: usize, w: usize) -> (extent: Option<usize>)
    requires
        w > 0,
    ensures
        match extent {
            Some(extent) => extent == padded(n as nat, w as nat),
            None => padded(n as nat, w as nat) > usize::MAX,
        },
{
    ceil_div(n, w).checked_mul(w)
}

} // verus!
