use vstd::prelude::*;

verus! {

/// `2^n`, as a mathematical integer.
pub open spec fn pow2int(n: nat) -> int
    decreases n,
{
    if n == 0 {
        1
    } else {
        2 * pow2int((n - 1) as nat)
    }
}

pub proof fn lemma_pow2int_positive(n: nat)
    ensures
        pow2int(n) >= 1,
    decreases n,
{
    if n > 0 {
        lemma_pow2int_positive((n - 1) as nat);
    }
}

pub proof fn lemma_pow2int_increases(a: nat, b: nat)
    requires
        a <= b,
    ensures
        pow2int(a) <= pow2int(b),
    decreases b,
{
    lemma_pow2int_positive(a);
    if a < b {
        lemma_pow2int_increases(a, (b - 1) as nat);
    }
}

#[verifier::rlimit(60)]
pub proof fn lemma_pow2int_63()
    ensures
        pow2int(63) == 0x8000_0000_0000_0000,
{
    reveal_with_fuel(pow2int, 64);
}

/// `floor(log2(t))` for `t >= 1`; zero below 2.
pub open spec fn spec_log2_floor(t: int) -> int
    decreases t,
{
    if t < 2 {
        0
    } else {
        1 + spec_log2_floor(t / 2)
    }
}

pub proof fn lemma_log2_floor_bounds(t: int)
    requires
        t >= 1,
    ensures
        0 <= spec_log2_floor(t),
        pow2int(spec_log2_floor(t) as nat) <= t,
        t < 2 * pow2int(spec_log2_floor(t) as nat),
    decreases t,
{
    if t >= 2 {
        lemma_log2_floor_bounds(t / 2);
    }
}

/// The first `k` binary fraction digits of `log2(x / 65536)` for a
/// mantissa `x` in `[65536, 131072)`, produced by repeated squaring: each
/// squaring doubles the exponent, and a result at or above `131072`
/// contributes a one digit and is halved.
pub open spec fn spec_frac_bits(x: int, k: nat) -> int
    decreases k,
{
    if k == 0 {
        0
    } else {
        let sq = (x * x) / 65536;
        if sq >= 131072 {
            pow2int((k - 1) as nat) + spec_frac_bits(sq / 2, (k - 1) as nat)
        } else {
            spec_frac_bits(sq, (k - 1) as nat)
        }
    }
}

/// The natural logarithm of `t >= 1` in Q16 fixed point: `65536 * ln(t)`,
/// approximated as `(65536 * log2(t)) * ln(2)` with sixteen binary
/// fraction digits of `log2` and `ln(2) ~ 45426 / 65536`.
pub open spec fn spec_ln_fp(t: int) -> int {
    let il = spec_log2_floor(t);
    let norm = (t * 65536) / pow2int(il as nat);
    ((il * 65536 + spec_frac_bits(norm, 16)) * 45426) / 65536
}

/// The nonnegative integer square root: the unique `r >= 0` with
/// `r * r <= x < (r + 1) * (r + 1)`.
pub open spec fn spec_isqrt(x: int) -> int {
    choose|r: int| r >= 0 && #[trigger] (r * r) <= x && (r + 1) * (r + 1) > x
}

pub proof fn lemma_isqrt_unique(x: int, r: int)
    requires
        r >= 0,
        r * r <= x,
        (r + 1) * (r + 1) > x,
    ensures
        spec_isqrt(x) == r,
{
    assert(exists|q: int| q >= 0 && #[trigger] (q * q) <= x && (q + 1) * (q + 1) > x) by {
        assert(r >= 0 && r * r <= x && (r + 1) * (r + 1) > x);
    }
    let q = spec_isqrt(x);
    assert(q >= 0 && q * q <= x && (q + 1) * (q + 1) > x);
    assert(q == r) by (nonlinear_arith)
        requires
            r >= 0,
            q >= 0,
            r * r <= x,
            (r + 1) * (r + 1) > x,
            q * q <= x,
            (q + 1) * (q + 1) > x,
    ;
}

/// Integer square root by binary search.
pub fn isqrt(x: u64) -> (r: u64)
    ensures
        (r as int) * (r as int) <= x as int,
        (r as int + 1) * (r as int + 1) > x as int,
        r as int == spec_isqrt(x as int),
{
    let mut lo: u64 = 0;
    let mut hi: u64 = 4294967296;
    proof {
        assert((hi as int) * (hi as int) > x as int) by (nonlinear_arith)
            requires
                hi == 4294967296,
                x <= 0xFFFF_FFFF_FFFF_FFFFu64,
        ;
    }
    while lo + 1 < hi
        invariant
            lo < hi <= 4294967296,
            (lo as int) * (lo as int) <= x as int,
            (hi as int) * (hi as int) > x as int,
        decreases hi - lo,
    {
        let mid = lo + (hi - lo) / 2;
        proof {
            assert((mid as int) * (mid as int) < 0x1_0000_0000_0000_0000) by (nonlinear_arith)
                requires
                    mid < 4294967296,
            ;
        }
        let sq = mid * mid;
        if sq <= x {
            lo = mid;
        } else {
            hi = mid;
        }
    }
    proof {
        lemma_isqrt_unique(x as int, lo as int);
    }
    lo
}

/// The Q16 natural logarithm of `t >= 1`: `floor(log2 t)` by halving, the
/// mantissa normalized into `[65536, 131072)`, sixteen fraction digits by
/// repeated squaring, and a final multiplication by `ln(2)` in Q16.
pub fn ln_fp(t: u64) -> (r: u64)
    requires
        t >= 1,
    ensures
        r as int == spec_ln_fp(t as int),
        r < 4194304,
{
    let ghost ti = t as int;
    let mut il: u64 = 0;
    let mut v: u64 = t;
    while v >= 2
        invariant
            v >= 1,
            il <= 63,
            spec_log2_floor(ti) == il + spec_log2_floor(v as int),
            pow2int(il as nat) * (v as int) <= ti,
            ti <= u64::MAX,
            ti >= 1,
        decreases v,
    {
        proof {
            lemma_pow2int_positive(il as nat);
            assert(pow2int((il + 1) as nat) * ((v / 2) as int) <= pow2int(il as nat) * (v as int))
                by (nonlinear_arith)
                requires
                    pow2int((il + 1) as nat) == 2 * pow2int(il as nat),
                    pow2int(il as nat) >= 1,
                    v >= 2,
                    2 * ((v / 2) as int) <= v as int,
            ;
            if il == 63 {
                lemma_pow2int_63();
                assert(pow2int(il as nat) * (v as int) >= 0x8000_0000_0000_0000 * 2)
                    by (nonlinear_arith)
                    requires
                        pow2int(il as nat) == 0x8000_0000_0000_0000,
                        v >= 2,
                ;
                assert(false);
            }
        }
        v = v / 2;
        il = il + 1;
    }
    proof {
        assert(spec_log2_floor(v as int) == 0);
        assert(spec_log2_floor(ti) == il);
        lemma_log2_floor_bounds(ti);
        lemma_pow2int_positive(il as nat);
    }
    let mut p: u64 = 1;
    let mut j: u64 = 0;
    while j < il
        invariant
            j <= il <= 63,
            p as int == pow2int(j as nat),
            pow2int(il as nat) <= ti,
            ti == t as int,
            t >= 1,
        decreases il - j,
    {
        proof {
            lemma_pow2int_increases((j + 1) as nat, il as nat);
            assert(pow2int((j + 1) as nat) == 2 * pow2int(j as nat));
            assert(ti <= u64::MAX as int);
        }
        p = p * 2;
        j = j + 1;
    }
    proof {
        assert(p as int == pow2int(il as nat));
        lemma_log2_floor_bounds(ti);
        assert((ti * 65536) / (p as int) < 131072) by (nonlinear_arith)
            requires
                p as int == pow2int(il as nat),
                p >= 1,
                ti < 2 * (p as int),
                ti >= 1,
        ;
        assert((ti * 65536) / (p as int) >= 0) by (nonlinear_arith)
            requires
                p >= 1,
                ti >= 1,
        ;
    }
    let norm128: u128 = (t as u128) * 65536u128 / (p as u128);
    let norm: u64 = norm128 as u64;
    proof {
        assert(norm as int == (ti * 65536) / (p as int));
    }
    let ghost target = spec_frac_bits(norm as int, 16);
    proof {
        assert(pow2int(16) == 65536) by {
            reveal_with_fuel(pow2int, 17);
        }
    }
    let mut x: u64 = norm;
    let mut f: u64 = 0;
    let mut k: u64 = 0;
    while k < 16
        invariant
            k <= 16,
            x < 131072,
            pow2int(16) == 65536,
            (f as int) < pow2int(k as nat),
            f < 65536,
            target == (f as int) * pow2int((16 - k) as nat) + spec_frac_bits(
                x as int,
                (16 - k) as nat,
            ),
            target == spec_frac_bits(norm as int, 16),
        decreases 16 - k,
    {
        proof {
            assert((x as int) * (x as int) < 0x4_0000_0000) by (nonlinear_arith)
                requires
                    x < 131072,
            ;
        }
        let sq = x * x / 65536;
        proof {
            lemma_pow2int_positive((15 - k) as nat);
            assert(pow2int((16 - k) as nat) == 2 * pow2int((15 - k) as nat));
            let b: int = if sq >= 131072 {
                1
            } else {
                0
            };
            let xn: int = if sq >= 131072 {
                (sq / 2) as int
            } else {
                sq as int
            };
            assert(spec_frac_bits(x as int, (16 - k) as nat) == b * pow2int((15 - k) as nat)
                + spec_frac_bits(xn, (15 - k) as nat));
            assert((f as int) * pow2int((16 - k) as nat) == (2 * (f as int)) * pow2int(
                (15 - k) as nat,
            )) by (nonlinear_arith)
                requires
                    pow2int((16 - k) as nat) == 2 * pow2int((15 - k) as nat),
            ;
            assert((2 * (f as int) + b) * pow2int((15 - k) as nat) == (2 * (f as int)) * pow2int(
                (15 - k) as nat,
            ) + b * pow2int((15 - k) as nat)) by (nonlinear_arith);
        }
        if sq >= 131072 {
            x = sq / 2;
            f = f * 2 + 1;
        } else {
            x = sq;
            f = f * 2;
        }
        k = k + 1;
        proof {
            assert(pow2int(k as nat) == 2 * pow2int((k - 1) as nat));
            lemma_pow2int_increases(k as nat, 16);
        }
    }
    proof {
        assert(k == 16);
        assert(pow2int(0) == 1);
        assert(spec_frac_bits(x as int, 0) == 0);
        assert((f as int) * pow2int(0) == f as int) by (nonlinear_arith)
            requires
                pow2int(0) == 1,
        ;
        assert(f as int == target);
        assert(f < 65536);
    }
    let num = il * 65536 + f;
    let r = num * 45426 / 65536;
    proof {
        assert(num as int == spec_log2_floor(ti) * 65536 + spec_frac_bits(norm as int, 16));
        assert(r as int == spec_ln_fp(ti));
        assert(num < 0x40_0000);
        assert((num as int) * 45426 < 0x40_0000 * 65536) by (nonlinear_arith)
            requires
                num < 0x40_0000,
        ;
        assert(r < 4194304);
    }
    r
}

} // verus!
