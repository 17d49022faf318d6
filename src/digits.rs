//! Positional numerals: a number written as a fixed count of digits in a
//! given base, most significant digit first.

use vstd::arithmetic::div_mod::{lemma_fundamental_div_mod, lemma_fundamental_div_mod_converse};
use vstd::arithmetic::power::pow;
use vstd::prelude::*;

verus! {

/// The number that digits `ds` write in base `base`, most significant first.
pub open spec fn from_digits(ds: Seq<nat>, base: nat) -> nat
    decreases ds.len(),
{
    if ds.len() == 0 {
        0
    } else {
        from_digits(ds.drop_last(), base) * base + ds.last()
    }
}

/// The `n` lowest digits of `v` in base `base`, most significant first.
pub open spec fn to_digits(v: nat, base: nat, n: nat) -> Seq<nat>
    decreases n,
{
    if n == 0 {
        seq![]
    } else {
        to_digits(v / base, base, (n - 1) as nat).push(v % base)
    }
}

/// Every digit of `ds` is below `base`.
pub open spec fn digits_below(ds: Seq<nat>, base: nat) -> bool {
    forall|i: int| 0 <= i < ds.len() ==> #[trigger] ds[i] < base
}

/// `to_digits` yields `n` digits, each below the base.
pub proof fn lemma_to_digits_shape(v: nat, base: nat, n: nat)
    requires
        base > 0,
    ensures
        to_digits(v, base, n).len() == n,
        digits_below(to_digits(v, base, n), base),
    decreases n,
{
    if n > 0 {
        lemma_to_digits_shape(v / base, base, (n - 1) as nat);
    }
}

/// A number written with `n` digits below the base is below `base^n`.
pub proof fn lemma_from_digits_bound(ds: Seq<nat>, base: nat)
    requires
        base > 0,
        digits_below(ds, base),
    ensures
        from_digits(ds, base) < pow(base as int, ds.len()),
    decreases ds.len(),
{
    reveal(pow);
    if ds.len() > 0 {
        let p = ds.drop_last();
        assert(digits_below(p, base)) by {
            assert forall|i: int| 0 <= i < p.len() implies #[trigger] p[i] < base by {
                assert(p[i] == ds[i]);
            }
        }
        lemma_from_digits_bound(p, base);
        let hi = from_digits(p, base) as int;
        let bound = pow(base as int, p.len());
        assert(ds.last() < base);
        assert(hi * base + ds.last() < bound * base) by (nonlinear_arith)
            requires
                hi < bound,
                ds.last() < base,
                0 <= hi,
                0 <= ds.last(),
        ;
        assert(pow(base as int, ds.len()) == base * bound);
        assert(bound * base == base * bound) by (nonlinear_arith);
    }
}

/// Writing a number below `base^n` with `n` digits and reading it back gives it.
pub proof fn lemma_from_to_digits(v: nat, base: nat, n: nat)
    requires
        base > 1,
        v < pow(base as int, n),
    ensures
        from_digits(to_digits(v, base, n), base) == v,
    decreases n,
{
    reveal(pow);
    if n > 0 {
        let q = v / base;
        lemma_fundamental_div_mod(v as int, base as int);
        assert(q < pow(base as int, (n - 1) as nat)) by (nonlinear_arith)
            requires
                v < base * pow(base as int, (n - 1) as nat),
                v == base * q + v % base,
                0 <= v % base,
                base > 0,
                q >= 0,
        ;
        lemma_from_to_digits(q, base, (n - 1) as nat);
        let td = to_digits(v, base, n);
        assert(td.drop_last() == to_digits(q, base, (n - 1) as nat));
        assert(from_digits(td, base) == q * base + v % base);
        assert(q * base == base * q) by (nonlinear_arith);
    }
}

/// Reading digits below the base and writing the number back gives the digits.
pub proof fn lemma_to_from_digits(ds: Seq<nat>, base: nat)
    requires
        base > 0,
        digits_below(ds, base),
    ensures
        to_digits(from_digits(ds, base), base, ds.len()) == ds,
    decreases ds.len(),
{
    if ds.len() > 0 {
        let p = ds.drop_last();
        assert(digits_below(p, base)) by {
            assert forall|i: int| 0 <= i < p.len() implies #[trigger] p[i] < base by {
                assert(p[i] == ds[i]);
            }
        }
        lemma_to_from_digits(p, base);
        let hi = from_digits(p, base);
        let v = from_digits(ds, base);
        assert(ds.last() < base);
        lemma_fundamental_div_mod_converse(v as int, base as int, hi as int, ds.last() as int);
        assert(to_digits(v, base, ds.len()) =~= ds);
    }
}

} // verus!
