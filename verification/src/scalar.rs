//! The scalar ring of the core: `i64` values combined with wrapping
//! addition and multiplication. Wrapping arithmetic is the ring of integers
//! modulo 2^64 (with signed representatives), so every algebraic identity
//! this library relies on — commutativity, associativity, distributivity,
//! and the zero and one laws — holds exactly, for every input.

use vstd::prelude::*;
use vstd::arithmetic::div_mod::{
    lemma_add_mod_noop,
    lemma_mod_multiples_vanish,
    lemma_mul_mod_noop_left,
    lemma_small_mod,
};

verus! {

/// The modulus of the scalar ring.
pub open spec fn ring_modulus() -> int {
    0x1_0000_0000_0000_0000
}

/// Reduces an unbounded integer to its signed 64-bit representative.
pub open spec fn wrap(x: int) -> i64 {
    if (x % ring_modulus()) > (i64::MAX as int) {
        ((x % ring_modulus()) - ring_modulus()) as i64
    } else {
        (x % ring_modulus()) as i64
    }
}

/// Wrapping sum of two scalars.
pub open spec fn wadd(a: i64, b: i64) -> i64 {
    wrap(a + b)
}

/// Wrapping product of two scalars.
pub open spec fn wmul(a: i64, b: i64) -> i64 {
    wrap(a * b)
}

/// A scalar already in range is its own representative.
pub broadcast proof fn lemma_wrap_id(x: int)
    requires
        i64::MIN <= x <= i64::MAX,
    ensures
        #[trigger] wrap(x) == x,
{
    if x >= 0 {
        lemma_small_mod(x as nat, ring_modulus() as nat);
    } else {
        lemma_mod_multiples_vanish(1, x, ring_modulus());
        lemma_small_mod((x + ring_modulus()) as nat, ring_modulus() as nat);
    }
}

/// Reducing an addend first does not change the wrapped sum.
pub broadcast proof fn lemma_wrap_add_noop(x: int, y: int)
    ensures
        #[trigger] wrap(wrap(x) + y) == wrap(x + y),
{
    let m = ring_modulus();
    lemma_add_mod_noop(wrap(x) as int, y, m);
    lemma_add_mod_noop(x, y, m);
    if (x % m) > (i64::MAX as int) {
        lemma_mod_multiples_vanish(1, (x % m) - m, m);
    }
    vstd::arithmetic::div_mod::lemma_mod_twice(x, m);
}

/// Reducing a factor first does not change the wrapped product.
pub broadcast proof fn lemma_wrap_mul_noop(x: int, y: int)
    ensures
        #[trigger] wrap(wrap(x) * y) == wrap(x * y),
{
    let m = ring_modulus();
    lemma_mul_mod_noop_left(wrap(x) as int, y, m);
    lemma_mul_mod_noop_left(x, y, m);
    if (x % m) > (i64::MAX as int) {
        assert((wrap(x) as int) % m == ((x % m) - m) % m);
        lemma_mod_multiples_vanish(1, (x % m) - m, m);
    }
    vstd::arithmetic::div_mod::lemma_mod_twice(x, m);
}

/// Zero is the additive identity.
pub broadcast proof fn lemma_wadd_zero(a: i64)
    ensures
        #![trigger wadd(a, 0)]
        #![trigger wadd(0, a)]
        wadd(a, 0) == a && wadd(0, a) == a,
{
    lemma_wrap_id(a as int);
}

/// One is the multiplicative identity and zero annihilates.
pub broadcast proof fn lemma_wmul_unit(a: i64)
    ensures
        #![trigger wmul(a, 1)]
        #![trigger wmul(1, a)]
        #![trigger wmul(a, 0)]
        #![trigger wmul(0, a)]
        wmul(a, 1) == a && wmul(1, a) == a && wmul(a, 0) == 0 && wmul(0, a) == 0,
{
    lemma_wrap_id(a as int);
    lemma_wrap_id(0);
}

/// Wrapping addition is commutative and associative.
pub broadcast proof fn lemma_wadd_assoc(a: i64, b: i64, c: i64)
    ensures
        #[trigger] wadd(wadd(a, b), c) == wadd(a, wadd(b, c)),
        wadd(a, b) == wadd(b, a),
{
    lemma_wrap_add_noop(a + b, c as int);
    lemma_wrap_add_noop(b + c, a as int);
    assert(wrap(wrap(b + c) + a) == wadd(a, wadd(b, c)));
}

/// Wrapping multiplication is commutative and associative.
pub broadcast proof fn lemma_wmul_assoc(a: i64, b: i64, c: i64)
    ensures
        #[trigger] wmul(wmul(a, b), c) == wmul(a, wmul(b, c)),
        wmul(a, b) == wmul(b, a),
{
    lemma_wrap_mul_noop(a * b, c as int);
    lemma_wrap_mul_noop(b * c, a as int);
    assert(a * b == b * a) by (nonlinear_arith);
    assert((a * b) * c == a * (b * c)) by (nonlinear_arith);
    assert((b * c) * a == a * (b * c)) by (nonlinear_arith);
    assert(wrap(b * c) * a == a * wrap(b * c)) by (nonlinear_arith);
    assert(wrap(wrap(b * c) * a) == wmul(a, wmul(b, c)));
}

/// Wrapping multiplication distributes over wrapping addition.
pub broadcast proof fn lemma_wmul_distrib(a: i64, b: i64, c: i64)
    ensures
        #[trigger] wmul(a, wadd(b, c)) == wadd(wmul(a, b), wmul(a, c)),
{
    lemma_wrap_mul_noop(b + c, a as int);
    assert(wrap(wrap(b + c) * a) == wrap((b + c) * a));
    assert((b + c) * a == b * a + c * a) by (nonlinear_arith);
    lemma_wrap_add_noop(a * b, wmul(a, c) as int);
    lemma_wrap_add_noop(a * c, (a * b) as int);
    assert(a * b == b * a) by (nonlinear_arith);
    assert(a * c == c * a) by (nonlinear_arith);
    assert(wmul(a, wadd(b, c)) == wrap(wrap(b + c) * a)) by {
        assert(a * wadd(b, c) == wadd(b, c) * a) by (nonlinear_arith);
    }
    assert(wadd(wmul(a, b), wmul(a, c)) == wrap(a * b + (wmul(a, c) as int)));
    assert(wrap(a * b + (wmul(a, c) as int)) == wrap((wmul(a, c) as int) + a * b));
    assert(wrap((wmul(a, c) as int) + a * b) == wrap(a * c + a * b)) by {
        lemma_wrap_add_noop(a * c, (a * b) as int);
    }
}

/// Four-term rearrangement of wrapping sums.
pub proof fn lemma_wadd4(x: i64, y: i64, z: i64, w: i64)
    ensures
        wadd(wadd(x, y), wadd(z, w)) == wadd(wadd(x, z), wadd(y, w)),
{
    lemma_wrap_add_noop(x + y, wadd(z, w) as int);
    lemma_wrap_add_noop(z + w, (x + y) as int);
    lemma_wrap_add_noop(x + z, wadd(y, w) as int);
    lemma_wrap_add_noop(y + w, (x + z) as int);
}

/// The bilinear combination rule for the product of two affine forms, in
/// the case this library uses it: at least one of the two linear parts is
/// zero, so no cross term arises.
pub proof fn lemma_bilinear(b: i64, qb: i64, da: i64, dq: i64)
    requires
        da == 0 || dq == 0,
    ensures
        wadd(wmul(b, qb), wadd(wmul(qb, da), wmul(b, dq))) == wmul(wadd(b, da), wadd(qb, dq)),
{
    lemma_wmul_unit(qb);
    lemma_wmul_unit(b);
    lemma_wadd_zero(b);
    lemma_wadd_zero(qb);
    lemma_wadd_zero(wmul(b, dq));
    lemma_wadd_zero(wmul(qb, da));
    if da == 0 {
        lemma_wmul_distrib(b, qb, dq);
    } else {
        lemma_wmul_distrib(qb, b, da);
        lemma_wmul_assoc(b, qb, 1);
        lemma_wmul_assoc(qb, b, 1);
        lemma_wmul_assoc(wadd(b, da), qb, 1);
        lemma_wmul_assoc(qb, wadd(b, da), 1);
    }
}

} // verus!
