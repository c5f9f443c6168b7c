//! The touchpad page's haptic intensity: the allowed levels and how a saved value snaps to them.
use vstd::prelude::*;
use crate::text::{chars_of, parse_signed, parse_signed_chars, parse_unsigned, parse_unsigned_chars, trim, trim_chars};

verus! {

/// The intensity levels that the touchpad accepts.
pub open spec fn allowed_values() -> Seq<i32> {
    seq![0i32, 25i32, 50i32, 75i32, 100i32]
}

/// The distance between two intensities.
pub open spec fn distance(a: int, b: int) -> int {
    if a >= b {
        a - b
    } else {
        b - a
    }
}

/// The allowed level nearest to `v`, the lower one on a tie: a level is chosen when none
/// before it is as near and none after it is nearer.
pub open spec fn snap_spec(v: int) -> int {
    if distance(0, v) <= distance(25, v) && distance(0, v) <= distance(50, v) && distance(0, v)
        <= distance(75, v) && distance(0, v) <= distance(100, v) {
        0
    } else if distance(25, v) <= distance(50, v) && distance(25, v) <= distance(75, v)
        && distance(25, v) <= distance(100, v) {
        25
    } else if distance(50, v) <= distance(75, v) && distance(50, v) <= distance(100, v) {
        50
    } else if distance(75, v) <= distance(100, v) {
        75
    } else {
        100
    }
}

/// The smallest value `snap_value` accepts: nearer to `i32::MIN`, the distance to 100 does not
/// fit in an `i32`.
pub const MIN_SNAP_INPUT: i32 = -2147483547;

/// The allowed level nearest to `val`; the lower one on a tie.
pub fn snap_value(val: i32) -> (res: i32)
    requires
        val >= MIN_SNAP_INPUT,
    ensures
        res == snap_spec(val as int),
        allowed_values().contains(res),
        forall|i: int|
            0 <= i < 5 ==> distance(res as int, val as int) <= distance(
                #[trigger] allowed_values()[i] as int,
                val as int,
            ),
        forall|i: int|
            0 <= i < 5 && distance(allowed_values()[i] as int, val as int) == distance(
                res as int,
                val as int,
            ) ==> res <= #[trigger] allowed_values()[i],
{
    let allowed: [i32; 5] = [0, 25, 50, 75, 100];
    assert(allowed@ =~= allowed_values());
    let mut best: i32 = allowed[0];
    let mut bi: usize = 0;
    let mut best_d: i32 = if val <= 0 {
        0 - val
    } else {
        val
    };
    let mut i: usize = 1;
    while i < 5
        invariant
            allowed@ == allowed_values(),
            val >= MIN_SNAP_INPUT,
            1 <= i <= 5,
            bi < i,
            best == allowed@[bi as int],
            best_d as int == distance(best as int, val as int),
            forall|j: int| 0 <= j < i ==> best_d <= distance(#[trigger] allowed@[j] as int, val as int),
            forall|j: int|
                0 <= j < i && distance(allowed@[j] as int, val as int) == best_d ==> best
                    <= #[trigger] allowed@[j],
        decreases 5 - i,
    {
        let x = allowed[i];
        let d: i32 = if x >= val {
            x - val
        } else {
            val - x
        };
        if d < best_d {
            best = x;
            bi = i;
            best_d = d;
        }
        i = i + 1;
    }
    best
}

/// The intensity that the touchpad page starts with: the saved value snapped to an allowed
/// level, or 50 when nothing could be read.
pub fn initial_intensity(saved: Option<i32>) -> (res: i32)
    requires
        saved matches Some(v) ==> v >= MIN_SNAP_INPUT,
    ensures
        saved is None ==> res == 50,
        saved matches Some(v) ==> res == snap_spec(v as int),
{
    match saved {
        Some(v) => snap_value(v),
        None => 50,
    }
}

/// A saved intensity read as `i32`: the file's contents trimmed, then read as a number.
pub fn parse_saved_intensity(content: &str) -> (res: Option<i32>)
    ensures
        match res {
            Some(v) => parse_signed(trim(content@), i32::MIN as int, i32::MAX as int) == Some(
                v as int,
            ),
            None => parse_signed(trim(content@), i32::MIN as int, i32::MAX as int) is None,
        },
{
    let cs = chars_of(content);
    let t = trim_chars(cs.as_slice());
    match parse_signed_chars(t.as_slice(), i32::MIN as i64, i32::MAX as i64) {
        Some(v) => Some(v as i32),
        None => None,
    }
}

/// A saved intensity read as `u8`, as the daemon applies it: trimmed, then read as a number.
pub fn parse_saved_intensity_u8(content: &str) -> (res: Option<u8>)
    ensures
        match res {
            Some(v) => parse_unsigned(trim(content@), u8::MAX as nat) == Some(v as nat),
            None => parse_unsigned(trim(content@), u8::MAX as nat) is None,
        },
{
    let cs = chars_of(content);
    let t = trim_chars(cs.as_slice());
    match parse_unsigned_chars(t.as_slice(), 255) {
        Some(v) => Some(v as u8),
        None => None,
    }
}

} // verus!
