//! The choices that the presence settings page offers, and which entry of a list a saved
//! setting selects.
use vstd::prelude::*;
use crate::text::{chars_eq_str, chars_of};

verus! {

/// The away and not-looking delays that the settings page offers, in seconds.
pub open spec fn delay_choices() -> Seq<u32> {
    seq![0u32, 10u32, 30u32, 60u32, 300u32]
}

/// The entry of `vals` that the saved value `val` selects: its first position, or the first
/// entry when `val` is not among them.
pub fn val_idx(vals: &[&str], val: &str) -> (res: u32)
    requires
        vals@.len() <= u32::MAX,
    ensures
        forall|j: int| 0 <= j < res ==> (#[trigger] vals@[j])@ != val@,
        (exists|i: int| 0 <= i < vals@.len() && (#[trigger] vals@[i])@ == val@) ==> (res
            < vals@.len() && vals@[res as int]@ == val@),
        (forall|i: int| 0 <= i < vals@.len() ==> (#[trigger] vals@[i])@ != val@) ==> res == 0,
{
    let vc = chars_of(val);
    let mut i: usize = 0;
    while i < vals.len()
        invariant
            vc@ == val@,
            i <= vals@.len(),
            vals@.len() <= u32::MAX,
            forall|j: int| 0 <= j < i ==> (#[trigger] vals@[j])@ != val@,
        decreases vals@.len() - i,
    {
        if chars_eq_str(vc.as_slice(), vals[i]) {
            return i as u32;
        }
        i = i + 1;
    }
    0
}

/// The delay entry that `secs` selects: its position among `delay_choices()`, or the second
/// entry (ten seconds) when it is not one of them.
pub fn delay_idx(secs: u32) -> (res: u32)
    ensures
        res < 5,
        delay_choices().contains(secs) ==> delay_choices()[res as int] == secs,
        !delay_choices().contains(secs) ==> res == 1,
{
    let choices: [u32; 5] = [0, 10, 30, 60, 300];
    assert(choices@ =~= delay_choices());
    let mut i: usize = 0;
    while i < 5
        invariant
            choices@ == delay_choices(),
            i <= 5,
            forall|j: int| 0 <= j < i ==> choices@[j] != secs,
        decreases 5 - i,
    {
        if choices[i] == secs {
            return i as u32;
        }
        i = i + 1;
    }
    assert(!delay_choices().contains(secs)) by {
        assert(forall|j: int| 0 <= j < 5 ==> delay_choices()[j] != secs);
    }
    1
}

} // verus!
