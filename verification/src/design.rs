//! Design checks shared by the estimators, and the coverage (`h`) rules and
//! breakdown points of the trimming estimators (LTS, MCD).

use vstd::prelude::*;

verus! {

/// Why a data set cannot be fitted as given.
#[derive(Debug, Clone, Copy, PartialEq, Eq)]
pub enum DesignError {
    /// No usable predictors / variables (`p = 0`), or no defined slope.
    SingularDesign,
    /// A length that must match another does not.
    DimensionMismatch { expected: usize, got: usize },
    /// Fewer observations than the fit needs.
    InsufficientData { needed: usize, got: usize },
}

/// At least `needed` observations are present (`n` of them).
pub fn require_observations(n: usize, needed: usize) -> (r: Result<(), DesignError>)
    ensures
        n >= needed ==> r == Ok::<(), DesignError>(()),
        n < needed ==> r == Err::<(), DesignError>(DesignError::InsufficientData { needed, got: n }),
{
    if n < needed {
        Err(DesignError::InsufficientData { needed, got: n })
    } else {
        Ok(())
    }
}

/// Paired samples `(x, y)` for a simple regression: equal lengths and at least
/// two points, checked in that order.
pub fn check_paired(n: usize, y_len: usize) -> (r: Result<(), DesignError>)
    ensures
        y_len != n ==> r == Err::<(), DesignError>(DesignError::DimensionMismatch { expected: n, got: y_len }),
        y_len == n && n < 2 ==> r == Err::<(), DesignError>(DesignError::InsufficientData { needed: 2, got: n }),
        y_len == n && n >= 2 ==> r == Ok::<(), DesignError>(()),
{
    if y_len != n {
        return Err(DesignError::DimensionMismatch { expected: n, got: y_len });
    }
    require_observations(n, 2)
}

/// A weighted least-squares problem with an `n × p` design, a response of
/// length `y_len` and weights of length `w_len`: lengths first (response, then
/// weights), then `p > 0`, then `n ≥ p`.
pub fn check_least_squares(n: usize, p: usize, y_len: usize, w_len: usize) -> (r: Result<(), DesignError>)
    ensures
        y_len != n ==> r == Err::<(), DesignError>(DesignError::DimensionMismatch { expected: n, got: y_len }),
        y_len == n && w_len != n ==> r == Err::<(), DesignError>(DesignError::DimensionMismatch { expected: n, got: w_len }),
        y_len == n && w_len == n && p == 0 ==> r == Err::<(), DesignError>(DesignError::SingularDesign),
        y_len == n && w_len == n && p > 0 && n < p ==> r == Err::<(), DesignError>(DesignError::InsufficientData { needed: p, got: n }),
        y_len == n && w_len == n && p > 0 && n >= p ==> r == Ok::<(), DesignError>(()),
{
    if y_len != n {
        return Err(DesignError::DimensionMismatch { expected: n, got: y_len });
    }
    if w_len != n {
        return Err(DesignError::DimensionMismatch { expected: n, got: w_len });
    }
    if p == 0 {
        return Err(DesignError::SingularDesign);
    }
    require_observations(n, p)
}

/// The design of a FAST resampling search: response length, then `p > 0`,
/// then `n ≥ p`.
pub fn check_resampling(n: usize, p: usize, y_len: usize) -> (r: Result<(), DesignError>)
    ensures
        y_len != n ==> r == Err::<(), DesignError>(DesignError::DimensionMismatch { expected: n, got: y_len }),
        y_len == n && p == 0 ==> r == Err::<(), DesignError>(DesignError::SingularDesign),
        y_len == n && p > 0 && n < p ==> r == Err::<(), DesignError>(DesignError::InsufficientData { needed: p, got: n }),
        y_len == n && p > 0 && n >= p ==> r == Ok::<(), DesignError>(()),
{
    if y_len != n {
        return Err(DesignError::DimensionMismatch { expected: n, got: y_len });
    }
    if p == 0 {
        return Err(DesignError::SingularDesign);
    }
    require_observations(n, p)
}

/// The design of an LTS fit: `p > 0` first, then the response length, then
/// `n ≥ p`.
pub fn check_trimmed_regression(n: usize, p: usize, y_len: usize) -> (r: Result<(), DesignError>)
    ensures
        p == 0 ==> r == Err::<(), DesignError>(DesignError::SingularDesign),
        p > 0 && y_len != n ==> r == Err::<(), DesignError>(DesignError::DimensionMismatch { expected: n, got: y_len }),
        p > 0 && y_len == n && n < p ==> r == Err::<(), DesignError>(DesignError::InsufficientData { needed: p, got: n }),
        p > 0 && y_len == n && n >= p ==> r == Ok::<(), DesignError>(()),
{
    if p == 0 {
        return Err(DesignError::SingularDesign);
    }
    if y_len != n {
        return Err(DesignError::DimensionMismatch { expected: n, got: y_len });
    }
    require_observations(n, p)
}

/// An `n × p` data matrix for a location/scatter fit that needs `p + extra`
/// observations (`extra = 1` for OGK, M-scatter and Tyler; `2` for MCD).
pub fn check_scatter(n: usize, p: usize, extra: usize) -> (r: Result<(), DesignError>)
    requires
        p + extra <= usize::MAX,
    ensures
        p == 0 ==> r == Err::<(), DesignError>(DesignError::SingularDesign),
        p > 0 && n < p + extra ==> r == Err::<(), DesignError>(DesignError::InsufficientData { needed: (p + extra) as usize, got: n }),
        p > 0 && n >= p + extra ==> r == Ok::<(), DesignError>(()),
{
    if p == 0 {
        return Err(DesignError::SingularDesign);
    }
    require_observations(n, p + extra)
}

/// A location of length `loc_len` and a `rows × cols` scatter for data with
/// `p` variables: the location first, then the scatter's shape.
pub fn check_location_scatter(p: usize, loc_len: usize, rows: usize, cols: usize) -> (r: Result<(), DesignError>)
    ensures
        loc_len != p ==> r == Err::<(), DesignError>(DesignError::DimensionMismatch { expected: p, got: loc_len }),
        loc_len == p && (rows != p || cols != p) ==> r == Err::<(), DesignError>(DesignError::DimensionMismatch { expected: p, got: rows }),
        loc_len == p && rows == p && cols == p ==> r == Ok::<(), DesignError>(()),
{
    if loc_len != p {
        return Err(DesignError::DimensionMismatch { expected: p, got: loc_len });
    }
    if rows != p || cols != p {
        return Err(DesignError::DimensionMismatch { expected: p, got: rows });
    }
    Ok(())
}

/// `⌈(n + p)/2⌉ = ⌊(n + p + 1)/2⌋`, the coverage of maximal breakdown.
pub open spec fn max_breakdown_coverage_of(n: nat, p: nat) -> nat {
    ((n + p + 1) / 2) as nat
}

/// `value` clamped into `[lo, hi]`.
pub open spec fn clamp_spec(value: nat, lo: nat, hi: nat) -> nat {
    if value < lo {
        lo
    } else if value > hi {
        hi
    } else {
        value
    }
}

/// The coverage of maximal breakdown for `n` observations and `p` parameters.
pub fn max_breakdown_coverage(n: usize, p: usize) -> (h: usize)
    ensures
        h == max_breakdown_coverage_of(n as nat, p as nat),
{
    n / 2 + p / 2 + (n % 2 + p % 2 + 1) / 2
}

fn clamp_into(value: usize, lo: usize, hi: usize) -> (c: usize)
    requires
        lo <= hi,
    ensures
        c == clamp_spec(value as nat, lo as nat, hi as nat),
        lo <= value <= hi ==> c == value,
        value < lo ==> c == lo,
        value > hi ==> c == hi,
{
    if value < lo {
        lo
    } else if value > hi {
        hi
    } else {
        value
    }
}

/// The LTS coverage `h` for `n` observations and `p` coefficients: a
/// requested count `⌊fraction · n⌋` clamped to `[p, n]`, or, when none is
/// requested, the maximal-breakdown coverage.
pub fn lts_coverage(n: usize, p: usize, requested: Option<usize>) -> (h: usize)
    requires
        p <= n,
    ensures
        h == match requested {
            Some(c) => clamp_spec(c as nat, p as nat, n as nat),
            None => max_breakdown_coverage_of(n as nat, p as nat),
        },
        p <= h <= n,
        requested matches Some(c) ==> (p <= c <= n ==> h == c),
        requested matches Some(c) ==> (c < p ==> h == p),
        requested matches Some(c) ==> (c > n ==> h == n),
{
    match requested {
        Some(c) => clamp_into(c, p, n),
        None => max_breakdown_coverage(n, p),
    }
}

/// The MCD coverage `h` for `n` observations of `p` variables: a requested
/// count clamped to `[p + 1, n]`, or, when none is requested, the
/// maximal-breakdown coverage (itself within `[p + 1, n]` since `n ≥ p + 2`).
pub fn mcd_coverage(n: usize, p: usize, requested: Option<usize>) -> (h: usize)
    requires
        p + 2 <= n,
    ensures
        h == match requested {
            Some(c) => clamp_spec(c as nat, (p + 1) as nat, n as nat),
            None => max_breakdown_coverage_of(n as nat, p as nat),
        },
        p + 1 <= h <= n,
        requested matches Some(c) ==> (p + 1 <= c <= n ==> h == c),
        requested matches Some(c) ==> (c < p + 1 ==> h == p + 1),
        requested matches Some(c) ==> (c > n ==> h == n),
{
    match requested {
        Some(c) => clamp_into(c, p + 1, n),
        None => max_breakdown_coverage(n, p),
    }
}

/// The breakdown point `(n − h + 1)/n` of a fit that trims to `h` of `n`
/// observations, as (numerator, denominator).
pub open spec fn trimmed_breakdown_of(n: nat, h: nat) -> (nat, nat) {
    ((n - h + 1) as nat, n)
}

/// The breakdown point `(n − h + 1)/n` of coverage `h`, as (numerator,
/// denominator).
pub fn trimmed_breakdown(n: usize, h: usize) -> (bp: (usize, usize))
    requires
        1 <= h <= n,
    ensures
        bp.0 == trimmed_breakdown_of(n as nat, h as nat).0,
        bp.1 == trimmed_breakdown_of(n as nat, h as nat).1,
        bp.0 + h == n + 1,
        bp.1 == n,
{
    (n - h + 1, n)
}

/// Coverage trades breakdown: a larger coverage of the same sample has a
/// strictly smaller breakdown point.
pub proof fn lemma_higher_coverage_lowers_breakdown(n: nat, h1: nat, h2: nat)
    requires
        h1 < h2 <= n,
    ensures
        trimmed_breakdown_of(n, h2).0 < trimmed_breakdown_of(n, h1).0,
        trimmed_breakdown_of(n, h2).1 == trimmed_breakdown_of(n, h1).1,
{
}

/// The maximal-breakdown coverage attains breakdown `(⌊(n − p)/2⌋ + 1)/n`,
/// so at least `(n − p + 1)/(2n)`: about one half when `p` is small next to `n`.
pub proof fn lemma_max_breakdown_coverage_breakdown(n: nat, p: nat)
    requires
        p <= n,
    ensures
        max_breakdown_coverage_of(n, p) <= n,
        p <= max_breakdown_coverage_of(n, p),
        trimmed_breakdown_of(n, max_breakdown_coverage_of(n, p)).0 == (n - p) / 2 + 1,
        2 * trimmed_breakdown_of(n, max_breakdown_coverage_of(n, p)).0 >= n - p + 1,
{
}

/// Clamping law: a value inside `[lo, hi]` is kept as it is; one below is
/// raised to `lo`, one above is lowered to `hi`.
pub proof fn lemma_clamp_moves_only_values_outside(value: nat, lo: nat, hi: nat)
    requires
        lo <= hi,
    ensures
        lo <= value <= hi ==> clamp_spec(value, lo, hi) == value,
        value < lo ==> clamp_spec(value, lo, hi) == lo,
        value > hi ==> clamp_spec(value, lo, hi) == hi,
{
}

/// Breakdown law: trimming to `h` of `n` observations breaks down once
/// `n − h + 1` of them are replaced, a fraction of all `n` observations.
pub proof fn lemma_trimmed_breakdown_counts_replaced_observations(n: nat, h: nat)
    requires
        1 <= h <= n,
    ensures
        trimmed_breakdown_of(n, h).0 + h == n + 1,
        trimmed_breakdown_of(n, h).1 == n,
{
}

} // verus!
