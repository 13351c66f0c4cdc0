//! Arithmetic on generation numbers.
//!
//! A generation is a counter that wraps: its value is kept in the lower 63 bits of a word, and
//! the most significant bit is left free for flags. All operations here ignore that bit, so they
//! are the operations of the integers modulo 2^63.
use vstd::prelude::*;

verus! {

pub type NumericType = u64;

/// MSB set, all other bits clear.
pub const MSB: NumericType = 0x8000_0000_0000_0000;

/// The number of distinct generations, after which the counter starts again at zero.
pub open spec fn gen_period() -> int {
    0x8000_0000_0000_0000
}

/// A generation counts as ahead of another one up to this distance (a quarter of the word).
pub open spec fn gen_horizon() -> int {
    0x3fff_ffff_ffff_ffff
}

/// How many steps the counter takes from `b` until it next shows `a`.
pub open spec fn gen_dist(a: NumericType, b: NumericType) -> int {
    (a - b) % gen_period()
}

/// `b` steps after `a`.
pub open spec fn gen_add(a: NumericType, b: int) -> NumericType {
    ((a + b) % gen_period()) as NumericType
}

/// `a` is at or ahead of `b`.
pub open spec fn gen_gte(a: NumericType, b: NumericType) -> bool {
    gen_dist(a, b) <= gen_horizon()
}

/// `a` is at or ahead of `b`, and not the same word.
pub open spec fn gen_gt(a: NumericType, b: NumericType) -> bool {
    a != b && gen_gte(a, b)
}

/// What a counter that never wraps would show as generation once `v` steps have been taken.
pub open spec fn gen_of(v: int) -> NumericType {
    (v % gen_period()) as NumericType
}

pub(crate) proof fn lemma_clear_msb(x: u64)
    ensures
        x & !MSB == x % 0x8000_0000_0000_0000,
{
    assert(x & !0x8000_0000_0000_0000u64 == x % 0x8000_0000_0000_0000) by (bit_vector);
}

/// Wrapping-aware distance (a - b) between two numbers.
/// Handles the case where `a` has wrapped past MAX but `b` hasn't.
#[inline]
pub fn gen_dist_msb_masked(a: NumericType, b: NumericType) -> (d: NumericType)
    ensures
        d == gen_dist(a, b),
{
    proof {
        lemma_clear_msb(vstd::wrapping::u64_specs::wrapping_sub(a, b));
    }
    a.wrapping_sub(b) & !MSB
}

/// Wrapping-aware comparison: is `a` ahead of or equal to `b`?
/// Returns true if a >= b in the circular sense (distance < MAX/**4**).
#[inline]
pub fn gen_gte_msb_masked(a: NumericType, b: NumericType) -> (r: bool)
    ensures
        r == gen_gte(a, b),
{
    // If a == b, distance is 0.
    // If a is "ahead" of b (even across wrap), wrapping_sub gives a small positive number.
    // If a is "behind" b, wrapping_sub gives a huge number (> MAX/4).
    gen_dist_msb_masked(a, b) <= NumericType::MAX / 4
}

/// Wrapping-aware addition: add `a` and `b` together, ignoring the MSB of the result.
#[inline]
pub fn gen_add_msb_masked(a: NumericType, b: NumericType) -> (r: NumericType)
    ensures
        r == gen_add(a, b as int),
{
    proof {
        lemma_clear_msb(vstd::wrapping::u64_specs::wrapping_add(a, b));
    }
    a.wrapping_add(b) & !MSB
}

/// Wrapping-aware comparison: is `a` behind or equal to `b`?
/// Returns true if a <= b in the circular sense (distance < MAX/**4**).
#[inline]
pub fn gen_lte_msb_masked(a: NumericType, b: NumericType) -> (r: bool)
    ensures
        r == gen_gte(b, a),
{
    gen_gte_msb_masked(b, a)
}

/// Wrapping-aware comparison: is `a` strictly ahead of `b`?
#[inline]
pub fn gen_gt_msb_masked(a: NumericType, b: NumericType) -> (r: bool)
    ensures
        r == gen_gt(a, b),
{
    a != b && gen_gte_msb_masked(a, b)
}

/// Wrapping-aware comparison: is `a` strictly behind `b`?
#[inline]
pub fn gen_lt_msb_masked(a: NumericType, b: NumericType) -> (r: bool)
    ensures
        r == gen_gt(b, a),
{
    gen_gt_msb_masked(b, a)
}

/// Walking the distance from `b` to `a` leads from `b` to `a`.
pub proof fn law_add_distance(a: NumericType, b: NumericType)
    requires
        a < gen_period(),
    ensures
        gen_add(b, gen_dist(a, b)) == a,
{
}

/// After `n` steps the distance to where one started is `n`, for as long as the counter has not
/// come round once.
pub proof fn law_distance_after_add(a: NumericType, n: int)
    requires
        0 <= n < gen_period(),
    ensures
        gen_dist(gen_add(a, n), a) == n,
{
}

/// Adding in two portions is adding once.
pub proof fn law_add_in_portions(a: NumericType, m: int, n: int)
    ensures
        gen_add(gen_add(a, m), n) == gen_add(a, m + n),
{
}

/// The flag in the most significant bit has no influence on a distance or a sum.
pub proof fn law_msb_is_ignored(a: NumericType, b: NumericType, n: int)
    ensures
        gen_dist(gen_of(a as int), b) == gen_dist(a, b),
        gen_dist(a, gen_of(b as int)) == gen_dist(a, b),
        gen_add(gen_of(a as int), n) == gen_add(a, n),
{
}

/// Two generations are each at or ahead of the other only if they are the same one.
pub proof fn law_gte_antisymmetric(a: NumericType, b: NumericType)
    requires
        gen_gte(a, b),
        gen_gte(b, a),
    ensures
        gen_of(a as int) == gen_of(b as int),
{
}

/// The circular comparison agrees with the comparison of counters that never wrap, for as long
/// as the two are no further apart than a quarter of the word.
pub proof fn law_gte_is_the_order_of_counters(v: int, w: int)
    requires
        v - w <= gen_horizon(),
        w - v <= gen_horizon() + 1,
    ensures
        gen_gte(gen_of(v), gen_of(w)) <==> v >= w,
        gen_gt(gen_of(v), gen_of(w)) <==> v > w,
{
}

/// The circular distance is the difference of counters that never wrap, for as long as the first
/// is at most one period ahead.
pub proof fn law_distance_is_the_difference_of_counters(v: int, w: int)
    requires
        0 <= v - w < gen_period(),
    ensures
        gen_dist(gen_of(v), gen_of(w)) == v - w,
        gen_add(gen_of(w), v - w) == gen_of(v),
{
}

/// A distance is what is missing from the one to the other, up to full turns of the counter, and
/// less than a full turn.
pub proof fn law_a_distance_is_less_than_a_turn(a: NumericType, b: NumericType)
    ensures
        0 <= gen_dist(a, b) < 0x8000_0000_0000_0000,
        exists|turns: int| a - b == gen_dist(a, b) + #[trigger] (turns * 0x8000_0000_0000_0000),
{
    let turns = (a - b) / 0x8000_0000_0000_0000;
    assert(a - b == gen_dist(a, b) + turns * 0x8000_0000_0000_0000);
}

/// A generation some steps ahead is the sum, up to full turns of the counter, and has no flag.
pub proof fn law_a_sum_is_less_than_a_turn(a: NumericType, n: int)
    ensures
        0 <= gen_add(a, n) < 0x8000_0000_0000_0000,
        exists|turns: int| a + n == gen_add(a, n) + #[trigger] (turns * 0x8000_0000_0000_0000),
{
    let turns = (a + n) / 0x8000_0000_0000_0000;
    assert(a + n == gen_add(a, n) + turns * 0x8000_0000_0000_0000);
}

/// What a counter shows is its value, up to full turns.
pub proof fn law_a_counter_shows_its_value(v: int)
    ensures
        0 <= gen_of(v) < 0x8000_0000_0000_0000,
        0 <= v < 0x8000_0000_0000_0000 ==> gen_of(v) == v,
        gen_of(v + 0x8000_0000_0000_0000) == gen_of(v),
        gen_period() == 0x8000_0000_0000_0000,
        gen_horizon() == 0x4000_0000_0000_0000 - 1,
{
}

/// A generation is at or ahead of another one if and only if the distance is less than half a turn.
pub proof fn law_ahead_is_less_than_half_a_turn(a: NumericType, b: NumericType)
    ensures
        gen_gte(a, b) <==> gen_dist(a, b) < 0x4000_0000_0000_0000,
        gen_gt(a, b) <==> a != b && gen_dist(a, b) < 0x4000_0000_0000_0000,
{
}

/// A range is empty where its start is at or ahead of its end.
pub(crate) proof fn lemma_empty_range(start: NumericType, end: NumericType)
    ensures
        gen_gte(start, end) <==> gen_dist(end, start) == 0 || gen_dist(end, start)
            > 0x4000_0000_0000_0000,
        0 <= gen_dist(end, start),
{
}

} // verus!
