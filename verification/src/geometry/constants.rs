use vstd::prelude::*;

verus! {

/// Number of colors (curves) in the diagram.
pub const NCOLORS: usize = 6;

/// Total number of faces in the diagram (2^NCOLORS), one per subset of the curves.
pub const NFACES: usize = 64;

/// Maximum number of colors in any facial cycle (equals NCOLORS).
pub const MAX_CYCLE_LENGTH: usize = 6;

/// Total number of possible facial cycles: the sum over k = 3..=NCOLORS of
/// C(NCOLORS, k) * (k-1)!. See `lemma_constant_formulas`.
pub const NCYCLES: usize = 394;

/// Number of u64 words needed for a bitset of NCYCLES cycles (NCYCLES / 64 rounded up).
pub const CYCLESET_LENGTH: usize = 7;

/// Number of possible vertices: 2^(NCOLORS-2) * NCOLORS * (NCOLORS-1).
pub const NPOINTS: usize = 480;

/// Total degree of the NCOLORS faces bordering the central face:
/// 2 * C(NCOLORS, NCOLORS-1) + C(NCOLORS, NCOLORS-2).
pub const TOTAL_CENTRAL_NEIGHBOR_DEGREE: usize = 27;

/// Factorial, as a mathematical function.
pub open spec fn spec_factorial(n: nat) -> nat
    decreases n,
{
    if n <= 1 {
        1
    } else {
        n * spec_factorial((n - 1) as nat)
    }
}

/// Factorial is monotone.
pub proof fn lemma_factorial_monotone(i: nat, j: nat)
    requires
        i <= j,
    ensures
        spec_factorial(i) <= spec_factorial(j),
        spec_factorial(i) >= 1,
    decreases j,
{
    if j > i {
        lemma_factorial_monotone(i, (j - 1) as nat);
        lemma_factorial_monotone((j - 1) as nat, (j - 1) as nat);
        if j > 1 {
            assert(j * spec_factorial((j - 1) as nat) >= spec_factorial((j - 1) as nat)) by (nonlinear_arith)
                requires j >= 1, spec_factorial((j - 1) as nat) >= 1;
        }
    } else if i > 1 {
        lemma_factorial_monotone((i - 1) as nat, (i - 1) as nat);
        assert(i * spec_factorial((i - 1) as nat) >= 1) by (nonlinear_arith)
            requires i >= 1, spec_factorial((i - 1) as nat) >= 1;
    }
}

/// Compute n! for n small enough to fit in a usize.
pub fn factorial(n: usize) -> (r: usize)
    requires
        n <= 12,
    ensures
        r == spec_factorial(n as nat),
    decreases n,
{
    if n <= 1 {
        1
    } else {
        let f = factorial(n - 1);
        proof {
            lemma_factorial_monotone(n as nat, 12);
            reveal_with_fuel(spec_factorial, 13);
            assert(spec_factorial(12) == 479001600);
        }
        n * f
    }
}

/// One step of the factorial recurrence.
pub proof fn lemma_factorial_unfold(m: nat)
    requires
        m >= 1,
    ensures
        spec_factorial(m) == m * spec_factorial((m - 1) as nat),
{
    if m == 1 {
        assert(spec_factorial(0) == 1);
    }
}

/// Binomial coefficient C(n, k), as a mathematical function.
pub open spec fn spec_choose(n: nat, k: nat) -> nat {
    if k > n {
        0
    } else if k == 0 || k == n {
        1
    } else {
        spec_factorial(n) / (spec_factorial(k) * spec_factorial((n - k) as nat))
    }
}

/// k! * (n-k)! never exceeds n!.
pub proof fn lemma_factorial_product_bound(n: nat, k: nat)
    requires
        k <= n,
    ensures
        spec_factorial(k) * spec_factorial((n - k) as nat) <= spec_factorial(n),
        spec_factorial(k) * spec_factorial((n - k) as nat) >= 1,
    decreases n,
{
    lemma_factorial_monotone(k, k);
    lemma_factorial_monotone((n - k) as nat, (n - k) as nat);
    lemma_factorial_monotone(n, n);
    let a = spec_factorial(k);
    let b = spec_factorial((n - k) as nat);
    assert(a * b >= 1) by (nonlinear_arith)
        requires a >= 1, b >= 1;
    if k == n {
        assert(spec_factorial(0) == 1);
        assert(b == 1);
        assert(a * b == a) by (nonlinear_arith)
            requires b == 1;
    } else {
        lemma_factorial_product_bound((n - 1) as nat, k);
        let c = spec_factorial((n - 1 - k) as nat);
        let d = spec_factorial((n - 1) as nat);
        lemma_factorial_monotone((n - 1 - k) as nat, (n - 1 - k) as nat);
        lemma_factorial_unfold((n - k) as nat);
        lemma_factorial_unfold(n);
        assert(b == (n - k) * c);
        assert(spec_factorial(n) == n * d);
        assert(a * b <= spec_factorial(n)) by (nonlinear_arith)
            requires a * c <= d, b == (n - k) * c, spec_factorial(n) == n * d, k < n, a >= 1, c >= 1;
    }
}

/// Compute the binomial coefficient C(n, k) for n small enough that n! fits in a usize.
pub fn n_choose_k(n: usize, k: usize) -> (r: usize)
    requires
        n <= 12,
    ensures
        r == spec_choose(n as nat, k as nat),
{
    if k > n {
        0
    } else if k == 0 || k == n {
        1
    } else {
        let fk = factorial(k);
        let fnk = factorial(n - k);
        let fnn = factorial(n);
        proof {
            lemma_factorial_product_bound(n as nat, k as nat);
        }
        fnn / (fk * fnk)
    }
}

/// The numeric constants agree with their defining formulas for NCOLORS = 6.
pub proof fn lemma_constant_formulas()
    ensures
        NFACES == pow2_6(),
        NCYCLES == spec_choose(6, 0) * spec_factorial(5) + spec_choose(6, 1) * spec_factorial(4)
            + spec_choose(6, 2) * spec_factorial(3) + spec_choose(6, 3) * spec_factorial(2),
        NCYCLES == spec_choose(6, 6) * spec_factorial(5) + spec_choose(6, 5) * spec_factorial(4)
            + spec_choose(6, 4) * spec_factorial(3) + spec_choose(6, 3) * spec_factorial(2),
        CYCLESET_LENGTH * 64 >= NCYCLES,
        CYCLESET_LENGTH * 64 - NCYCLES < 64,
        NPOINTS == 16 * NCOLORS * (NCOLORS - 1),
        TOTAL_CENTRAL_NEIGHBOR_DEGREE == 2 * spec_choose(6, 5) + spec_choose(6, 4),
{
    reveal_with_fuel(spec_factorial, 7);
    assert(spec_factorial(6) == 720);
    assert(spec_factorial(5) == 120);
    assert(spec_factorial(4) == 24);
    assert(spec_factorial(3) == 6);
    assert(spec_factorial(2) == 2);
    assert(spec_factorial(1) == 1);
    assert(spec_factorial(1) * spec_factorial(5) == 120);
    assert(spec_factorial(2) * spec_factorial(4) == 48);
    assert(spec_factorial(3) * spec_factorial(3) == 36);
    assert(spec_factorial(4) * spec_factorial(2) == 48);
    assert(spec_factorial(5) * spec_factorial(1) == 120);
    assert(720nat / 120nat == 6);
    assert(spec_choose(6, 1) == 6);
    assert(720nat / 48nat == 15);
    assert(spec_choose(6, 2) == 15);
    assert(720nat / 36nat == 20);
    assert(spec_choose(6, 3) == 20);
    assert(720nat / 48nat == 15);
    assert(spec_choose(6, 4) == 15);
    assert(720nat / 120nat == 6);
    assert(spec_choose(6, 5) == 6);
}

/// 2^NCOLORS for NCOLORS = 6.
pub open spec fn pow2_6() -> nat {
    2 * 2 * 2 * 2 * 2 * 2
}

/// The binomial coefficients C(6, k).
pub proof fn lemma_choose_six()
    ensures
        spec_choose(6, 0) == 1,
        spec_choose(6, 1) == 6,
        spec_choose(6, 2) == 15,
        spec_choose(6, 3) == 20,
        spec_choose(6, 4) == 15,
        spec_choose(6, 5) == 6,
        spec_choose(6, 6) == 1,
{
    reveal_with_fuel(spec_factorial, 7);
    assert(spec_factorial(6) == 720);
    assert(spec_factorial(5) == 120);
    assert(spec_factorial(4) == 24);
    assert(spec_factorial(3) == 6);
    assert(spec_factorial(2) == 2);
    assert(spec_factorial(1) == 1);
    assert(spec_factorial(1) * spec_factorial(5) == 120);
    assert(spec_factorial(2) * spec_factorial(4) == 48);
    assert(spec_factorial(3) * spec_factorial(3) == 36);
    assert(spec_factorial(4) * spec_factorial(2) == 48);
    assert(spec_factorial(5) * spec_factorial(1) == 120);
    assert(720nat / 120nat == 6);
    assert(720nat / 48nat == 15);
    assert(720nat / 36nat == 20);
}

} // verus!
