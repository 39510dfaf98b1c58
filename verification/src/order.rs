//! Decisions that rest on how ray parameters compare.
//!
//! A ray parameter is a double. It is handled here as a key: a signed
//! integer made from the double's bit pattern by [`order_key`]. Of two
//! doubles that are numbers, the smaller has the smaller key, and both zeros
//! have the key 0. A bit pattern that is no number has a key beyond the keys
//! of the infinities, below them with the sign bit set and above them
//! without, so it lies in no range that numbers bound.

use vstd::prelude::*;
use vstd::arithmetic::div_mod::*;
use vstd::arithmetic::mul::*;
use vstd::arithmetic::power2::*;

verus! {

/// The bit that holds the sign of a double.
pub const SIGN_BIT: u64 = 0x8000_0000_0000_0000;

/// The key of the double with bit pattern `bits`: its magnitude bits, taken
/// as an integer, negated where the sign bit is set.
pub open spec fn key_of(bits: u64) -> int {
    if bits < SIGN_BIT {
        bits as int
    } else {
        -(bits - SIGN_BIT)
    }
}

/// Computes the key of the double with bit pattern `bits`.
pub fn order_key(bits: u64) -> (key: i64)
    ensures
        key == key_of(bits),
{
    if bits < SIGN_BIT {
        bits as i64
    } else {
        -((bits - SIGN_BIT) as i64)
    }
}

/// The bit pattern of the double with key `key`, the positive zero for the
/// key 0, if `key` is the key of a double.
pub open spec fn bits_of(key: int) -> Option<u64> {
    if 0 <= key <= i64::MAX {
        Some(key as u64)
    } else if -i64::MAX <= key < 0 {
        Some((SIGN_BIT - key) as u64)
    } else {
        None
    }
}

/// Computes the bit pattern of the double with key `key`.
pub fn key_bits(key: i64) -> (bits: Option<u64>)
    ensures
        bits == bits_of(key as int),
        bits is Some <==> key > i64::MIN,
{
    if key >= 0 {
        Some(key as u64)
    } else if key > i64::MIN {
        Some(SIGN_BIT + ((-key) as u64))
    } else {
        None
    }
}

/// The key of a double leads back to a double with that key; and the double
/// that a key leads to is the one the key came from, but for the negative
/// zero, whose key leads to the positive one.
pub proof fn lemma_key_round_trip(bits: u64)
    ensures
        bits_of(key_of(bits)) is Some,
        key_of(bits_of(key_of(bits))->0) == key_of(bits),
        bits != SIGN_BIT ==> bits_of(key_of(bits)) == Some(bits),
        bits_of(key_of(SIGN_BIT)) == Some(0u64),
{
}

/// Every key but the least integer is the key of the double it leads to.
pub proof fn lemma_bits_round_trip(key: int)
    requires
        -i64::MAX <= key <= i64::MAX,
    ensures
        bits_of(key) is Some,
        key_of(bits_of(key)->0) == key,
{
}

/// Flipping the sign bit of a double negates its key.
pub proof fn lemma_key_of_negation(bits: u64)
    ensures
        key_of(bits ^ SIGN_BIT) == -key_of(bits),
{
    assert(bits < 0x8000_0000_0000_0000u64 ==> bits ^ 0x8000_0000_0000_0000u64 == bits
        + 0x8000_0000_0000_0000u64) by (bit_vector);
    assert(bits >= 0x8000_0000_0000_0000u64 ==> bits ^ 0x8000_0000_0000_0000u64 == bits
        - 0x8000_0000_0000_0000u64) by (bit_vector);
}

/// Two bit patterns have the same key only if they are the same or are the
/// two zeros.
pub proof fn lemma_key_of_injective(a: u64, b: u64)
    requires
        key_of(a) == key_of(b),
    ensures
        a == b || (key_of(a) == 0 && key_of(b) == 0),
{
}

/// The least number that the exponent and sign fields leave to the fraction
/// field cannot hold: 2 to the power 52.
pub const FRACTION_SPAN: u64 = 0x10_0000_0000_0000;

/// The bit pattern of the positive infinity.
pub const INFINITY_BITS: u64 = 0x7FF0_0000_0000_0000;

/// What the bits after the sign bit hold.
pub open spec fn magnitude_bits(bits: u64) -> u64 {
    if bits < SIGN_BIT {
        bits
    } else {
        (bits - SIGN_BIT) as u64
    }
}

/// The double is a number, finite or infinite.
pub open spec fn is_number(bits: u64) -> bool {
    magnitude_bits(bits) <= INFINITY_BITS
}

/// The exponent field of a double.
pub open spec fn exponent_of(bits: u64) -> nat {
    (magnitude_bits(bits) / FRACTION_SPAN) as nat
}

/// The fraction field of a double.
pub open spec fn fraction_of(bits: u64) -> nat {
    (magnitude_bits(bits) % FRACTION_SPAN) as nat
}

/// The magnitude of a double that is a number, counted in units of 2 to the
/// power -1074, the least positive double: the fraction where the exponent
/// field is 0, else the fraction with the hidden bit before it, doubled once
/// for each step of the exponent above 1. An infinity counts as the power
/// of two that follows the greatest finite double.
pub open spec fn magnitude_of(bits: u64) -> nat {
    if exponent_of(bits) == 0 {
        fraction_of(bits)
    } else {
        ((FRACTION_SPAN + fraction_of(bits)) * pow2((exponent_of(bits) - 1) as nat)) as nat
    }
}

/// The value of a double that is a number, counted in units of 2 to the
/// power -1074.
pub open spec fn value_of(bits: u64) -> int {
    if bits < SIGN_BIT {
        magnitude_of(bits) as int
    } else {
        -(magnitude_of(bits) as int)
    }
}

/// More in the magnitude bits means more magnitude.
proof fn lemma_magnitude_grows(a: u64, b: u64)
    requires
        magnitude_bits(a) < magnitude_bits(b),
    ensures
        magnitude_of(a) < magnitude_of(b),
{
    let span = FRACTION_SPAN as int;
    let x = magnitude_bits(a) as int;
    let y = magnitude_bits(b) as int;
    let (e1, f1) = (exponent_of(a), fraction_of(a));
    let (e2, f2) = (exponent_of(b), fraction_of(b));
    lemma_fundamental_div_mod(x, span);
    lemma_fundamental_div_mod(y, span);
    lemma_div_is_ordered(x, y, span);
    assert(e1 <= e2);
    if e1 == e2 {
        assert(f1 < f2);
        if e1 > 0 {
            lemma_pow2_pos((e1 - 1) as nat);
            lemma_mul_strict_inequality(span + f1, span + f2, pow2((e1 - 1) as nat) as int);
        }
    } else {
        let low = pow2((e2 - 1) as nat) as int;
        lemma_pow2_pos((e2 - 1) as nat);
        lemma_mul_inequality(span, span + f2, low);
        assert(span * low <= magnitude_of(b));
        if e1 == 0 {
            lemma_mul_inequality(1, low, span);
            assert(magnitude_of(a) < span * low);
        } else {
            let under = pow2((e1 - 1) as nat) as int;
            lemma_pow2_pos((e1 - 1) as nat);
            lemma_mul_strict_inequality(span + f1, 2 * span, under);
            lemma_pow2_unfold(e1);
            assert(2 * span * under == span * (2 * under)) by (nonlinear_arith);
            assert(magnitude_of(a) < span * pow2(e1));
            if e1 < e2 - 1 {
                lemma_pow2_strictly_increases(e1, (e2 - 1) as nat);
            }
            lemma_mul_inequality(pow2(e1) as int, low, span);
            lemma_mul_is_commutative(span, low);
            lemma_mul_is_commutative(span, pow2(e1) as int);
        }
    }
}

/// Doubles with the same magnitude bits have the same magnitude, and those
/// without a set magnitude bit have none.
proof fn lemma_magnitude_of_bits(a: u64, b: u64)
    ensures
        magnitude_bits(a) == magnitude_bits(b) ==> magnitude_of(a) == magnitude_of(b),
        magnitude_bits(a) == 0 ==> magnitude_of(a) == 0,
{
}

/// Doubles that are numbers compare as their keys do: the smaller double
/// has the smaller key, and two doubles have the same key just when they
/// have the same value, as the two zeros do.
pub proof fn lemma_keys_compare_as_values(a: u64, b: u64)
    requires
        is_number(a),
        is_number(b),
    ensures
        key_of(a) < key_of(b) <==> value_of(a) < value_of(b),
        key_of(a) == key_of(b) <==> value_of(a) == value_of(b),
{
    lemma_magnitude_of_bits(a, b);
    lemma_magnitude_of_bits(b, a);
    if magnitude_bits(a) < magnitude_bits(b) {
        lemma_magnitude_grows(a, b);
    }
    if magnitude_bits(b) < magnitude_bits(a) {
        lemma_magnitude_grows(b, a);
    }
    if magnitude_bits(a) > 0 {
        lemma_magnitude_grows(0, a);
    }
    if magnitude_bits(b) > 0 {
        lemma_magnitude_grows(0, b);
    }
    assert(magnitude_of(0) == 0);
    assert(key_of(a) == if a < SIGN_BIT {
        magnitude_bits(a) as int
    } else {
        -(magnitude_bits(a) as int)
    });
    assert(key_of(b) == if b < SIGN_BIT {
        magnitude_bits(b) as int
    } else {
        -(magnitude_bits(b) as int)
    });
}

/// The bit pattern of the double 1.
pub const ONE_BITS: u64 = 0x3FF0_0000_0000_0000;

/// The value 1, counted in units of 2 to the power -1074.
pub open spec fn unit() -> int {
    pow2(1074) as int
}

/// The double with the bit pattern `ONE_BITS` has the value 1, and the
/// doubles without a set magnitude bit have the value 0.
pub proof fn lemma_values_of_zero_and_one()
    ensures
        value_of(ONE_BITS) == unit(),
        value_of(0) == 0,
        value_of(SIGN_BIT) == 0,
        key_of(0) == 0,
        key_of(SIGN_BIT) == 0,
{
    lemma2_to64_rest();
    lemma_pow2_adds(52, 1022);
    assert(exponent_of(ONE_BITS) == 1023);
    assert(fraction_of(ONE_BITS) == 0);
}

/// What is no number lies in no range that numbers bound: its key is
/// beyond the keys of both infinities.
pub proof fn lemma_no_number_is_out_of_range(bits: u64)
    requires
        !is_number(bits),
    ensures
        key_of(bits) > key_of(INFINITY_BITS) || key_of(bits) < -key_of(INFINITY_BITS),
        forall|other: u64| is_number(other) ==> -key_of(INFINITY_BITS) <= key_of(other) <= key_of(
            INFINITY_BITS,
        ),
{
}

/// The part of a ray on which hits count, by the keys of its two bounds.
#[derive(Clone, Copy, PartialEq, Eq, Debug)]
pub struct ClipRange {
    pub near: i64,
    pub far: i64,
}

impl ClipRange {
    /// `t` is not before the near bound and not beyond the far one.
    pub open spec fn holds(self, t: int) -> bool {
        self.near <= t <= self.far
    }

    /// Tells whether the parameter with key `t` lies in the range, bounds
    /// included.
    pub fn contains(&self, t: i64) -> (inside: bool)
        ensures
            inside == self.holds(t as int),
    {
        !(t < self.near || t > self.far)
    }
}

/// A parameter that is a number lies in a range that numbers bound just when
/// its value is not below the value of the near bound and not above the
/// value of the far one.
pub proof fn lemma_range_holds_by_value(t: u64, near: u64, far: u64)
    requires
        is_number(t),
        is_number(near),
        is_number(far),
    ensures
        (ClipRange { near: key_of(near) as i64, far: key_of(far) as i64 }).holds(key_of(t))
            <==> value_of(near) <= value_of(t) <= value_of(far),
{
    lemma_keys_compare_as_values(t, near);
    lemma_keys_compare_as_values(t, far);
}

/// The hit at index `i` is as near as any hit in the list.
pub open spec fn is_nearest(hits: Seq<Option<i64>>, i: int) -> bool {
    &&& 0 <= i < hits.len()
    &&& hits[i] is Some
    &&& forall|j: int| 0 <= j < hits.len() && hits[j] is Some ==> hits[i]->0 <= hits[j]->0
}

/// The index of the nearest hit among the scene's primitives, given for each
/// primitive the key of the parameter at which the ray hits it, if it does.
/// Of several nearest hits the first one wins. There is none only if nothing
/// is hit.
pub fn closest_hit(hits: &Vec<Option<i64>>) -> (closest: Option<usize>)
    ensures
        match closest {
            Some(i) => is_nearest(hits@, i as int) && forall|j: int|
                0 <= j < i ==> hits@[j] is Some ==> hits@[j]->0 > hits@[i as int]->0,
            None => forall|j: int| 0 <= j < hits@.len() ==> hits@[j] is None,
        },
{
    let mut closest: Option<usize> = None;
    let mut nearest: i64 = 0;
    let mut index: usize = 0;
    while index < hits.len()
        invariant
            index <= hits@.len(),
            match closest {
                Some(i) => {
                    &&& i < index
                    &&& hits@[i as int] == Some(nearest)
                    &&& forall|j: int|
                        0 <= j < index && hits@[j] is Some ==> nearest <= hits@[j]->0
                    &&& forall|j: int| 0 <= j < i ==> hits@[j] is Some ==> hits@[j]->0 > nearest
                },
                None => forall|j: int| 0 <= j < index ==> hits@[j] is None,
            },
        decreases hits@.len() - index,
    {
        match hits[index] {
            Some(t) => {
                if closest.is_none() || t < nearest {
                    closest = Some(index);
                    nearest = t;
                }
            },
            None => {},
        }
        index = index + 1;
    }
    closest
}

/// The keys of the parameters of a list of hits.
pub open spec fn keys_of(hits: Seq<Option<u64>>) -> Seq<Option<i64>> {
    hits.map_values(
        |hit: Option<u64>|
            match hit {
                Some(bits) => Some(key_of(bits) as i64),
                None => None,
            },
    )
}

/// Among hits whose parameters are numbers, a hit that is as near as any by
/// its key is as near as any by the value of its parameter.
pub proof fn lemma_nearest_by_value(hits: Seq<Option<u64>>, i: int)
    requires
        forall|j: int| 0 <= j < hits.len() && hits[j] is Some ==> is_number(hits[j]->0),
        is_nearest(keys_of(hits), i),
    ensures
        0 <= i < hits.len(),
        hits[i] is Some,
        forall|j: int|
            0 <= j < hits.len() && hits[j] is Some ==> value_of(hits[i]->0) <= value_of(
                hits[j]->0,
            ),
{
    let keys = keys_of(hits);
    assert(keys[i] is Some);
    assert forall|j: int| 0 <= j < hits.len() && hits[j] is Some implies value_of(hits[i]->0)
        <= value_of(hits[j]->0) by {
        assert(keys[j] is Some);
        assert(keys[i]->0 <= keys[j]->0);
        lemma_keys_compare_as_values(hits[i]->0, hits[j]->0);
        lemma_keys_compare_as_values(hits[j]->0, hits[i]->0);
    }
}

} // verus!
