//! The Synaptics haptic touchpad (vendor 06CB, product CFD2): finding its hidraw node among
//! the candidates, and the feature report that sets its intensity.
use vstd::prelude::*;
use crate::text::{
    chars_of, contains, contains_str, starts_with, starts_with_str, string_of, sub_chars,
};

verus! {

/// Report id of the intensity feature report.
pub const REPORT_ID_INTENSITY: u8 = 0x37;

/// A hidraw node and the contents of its `device/uevent` file, when that could be read.
pub struct HidrawCandidate {
    pub path: String,
    pub uevent: Option<String>,
}

/// The haptic touchpad, by the path of its hidraw node when one was found.
#[derive(Clone)]
pub struct HapticDevice {
    device_path: Option<String>,
}

/// A uevent that names the haptic touchpad: it holds both the vendor and the product id.
pub open spec fn is_haptic_uevent_view(contents: Seq<char>) -> bool {
    contains(contents, "06CB"@) && contains(contents, "CFD2"@)
}

/// Candidate `i` is the haptic touchpad.
pub open spec fn candidate_matches(c: HidrawCandidate) -> bool {
    c.uevent matches Some(u) && is_haptic_uevent_view(u@)
}

/// The path of the first candidate that is the haptic touchpad.
pub open spec fn first_match(cs: Seq<HidrawCandidate>) -> Option<Seq<char>>
    decreases cs.len(),
{
    if cs.len() == 0 {
        None
    } else if candidate_matches(cs[0]) {
        Some(cs[0].path@)
    } else {
        first_match(cs.drop_first())
    }
}

/// `s` with every leading repetition of `p` removed.
pub open spec fn strip_all_prefix(s: Seq<char>, p: Seq<char>) -> Seq<char>
    decreases s.len(),
{
    if p.len() > 0 && starts_with(s, p) {
        strip_all_prefix(s.skip(p.len() as int), p)
    } else {
        s
    }
}

/// Whether a uevent names the haptic touchpad (vendor 06CB, product CFD2).
pub fn is_haptic_uevent(contents: &str) -> (res: bool)
    ensures
        res == is_haptic_uevent_view(contents@),
{
    let cs = chars_of(contents);
    contains_str(cs.as_slice(), "06CB") && contains_str(cs.as_slice(), "CFD2")
}

/// The number of a hidraw node named `file_name`: the name with its leading `hidraw`
/// (repeated or not) removed; `None` when the name does not begin with `hidraw`.
pub fn hidraw_number(file_name: &str) -> (res: Option<String>)
    ensures
        !starts_with(file_name@, "hidraw"@) ==> res is None,
        starts_with(file_name@, "hidraw"@) ==> (res matches Some(n) && n@ == strip_all_prefix(
            file_name@,
            "hidraw"@,
        )),
{
    let cs = chars_of(file_name);
    if !starts_with_str(cs.as_slice(), "hidraw") {
        return None;
    }
    let p = chars_of("hidraw");
    proof {
        reveal_strlit("hidraw");
    }
    let mut pos: usize = 0;
    assert(cs@.skip(0) =~= cs@);
    while cs.len() - pos >= p.len() && starts_with_str(
        sub_chars(cs.as_slice(), pos, cs.len()).as_slice(),
        "hidraw",
    )
        invariant
            pos <= cs@.len(),
            p@ == "hidraw"@,
            p@.len() == 6,
            strip_all_prefix(cs@, p@) == strip_all_prefix(cs@.skip(pos as int), p@),
        decreases cs@.len() - pos,
    {
        assert(cs@.subrange(pos as int, cs@.len() as int) =~= cs@.skip(pos as int));
        assert(cs@.skip(pos as int).skip(6) =~= cs@.skip(pos + 6));
        pos = pos + p.len();
    }
    let rest = sub_chars(cs.as_slice(), pos, cs.len());
    assert(rest@ =~= cs@.skip(pos as int));
    Some(string_of(rest.as_slice()))
}

/// The uevent file of the hidraw node named `file_name`, when it is a hidraw node.
pub fn uevent_path(file_name: &str) -> (res: Option<String>)
    ensures
        !starts_with(file_name@, "hidraw"@) ==> res is None,
        starts_with(file_name@, "hidraw"@) ==> (res matches Some(p) && p@ == "/sys/class/hidraw/hidraw"@
            + strip_all_prefix(file_name@, "hidraw"@) + "/device/uevent"@),
{
    match hidraw_number(file_name) {
        Some(n) => {
            let mut s = String::from_str("/sys/class/hidraw/hidraw");
            s.append(n.as_str());
            s.append("/device/uevent");
            Some(s)
        },
        None => None,
    }
}

/// The feature report that sets the intensity: report id 0x37, the intensity, then zeros
/// (nine bytes in all).
pub fn intensity_report(intensity: u8) -> (res: Vec<u8>)
    ensures
        res@ == seq![REPORT_ID_INTENSITY, intensity, 0u8, 0u8, 0u8, 0u8, 0u8, 0u8, 0u8],
{
    let mut buf: Vec<u8> = Vec::new();
    buf.push(REPORT_ID_INTENSITY);
    buf.push(intensity);
    let mut i: usize = 0;
    while i < 7
        invariant
            i <= 7,
            buf@ == seq![REPORT_ID_INTENSITY, intensity] + Seq::new(i as nat, |j: int| 0u8),
        decreases 7 - i,
    {
        buf.push(0);
        i = i + 1;
        assert(buf@ =~= seq![REPORT_ID_INTENSITY, intensity] + Seq::new(i as nat, |j: int| 0u8));
    }
    assert(buf@ =~= seq![REPORT_ID_INTENSITY, intensity, 0u8, 0u8, 0u8, 0u8, 0u8, 0u8, 0u8]);
    buf
}

impl HapticDevice {
    /// The path of the touchpad's hidraw node, when one was found.
    pub closed spec fn path_view(&self) -> Option<Seq<char>> {
        match self.device_path {
            Some(p) => Some(p@),
            None => None,
        }
    }

    /// The touchpad found among the hidraw nodes `candidates` (in directory order).
    pub fn new(candidates: &[HidrawCandidate]) -> (dev: Self)
        ensures
            dev.path_view() == first_match(candidates@),
    {
        let mut dev = HapticDevice { device_path: None };
        dev.find_device(candidates);
        dev
    }

    /// Looks for the touchpad among the hidraw nodes `candidates`, in order: the first whose
    /// uevent names vendor 06CB and product CFD2. Returns whether one was found.
    pub fn find_device(&mut self, candidates: &[HidrawCandidate]) -> (found: bool)
        ensures
            final(self).path_view() == first_match(candidates@),
            found == (first_match(candidates@) is Some),
    {
        let mut i: usize = 0;
        assert(candidates@.skip(0) =~= candidates@);
        while i < candidates.len()
            invariant
                i <= candidates@.len(),
                first_match(candidates@) == first_match(candidates@.skip(i as int)),
            decreases candidates@.len() - i,
        {
            let c = &candidates[i];
            assert(candidates@.skip(i as int)[0] == candidates@[i as int]);
            assert(candidates@.skip(i as int).drop_first() =~= candidates@.skip(i + 1));
            let hit = match &c.uevent {
                Some(u) => is_haptic_uevent(u.as_str()),
                None => false,
            };
            if hit {
                self.device_path = Some(c.path.clone());
                return true;
            }
            i = i + 1;
        }
        assert(candidates@.skip(i as int) =~= Seq::<HidrawCandidate>::empty());
        self.device_path = None;
        false
    }

    /// The path of the touchpad's hidraw node, when one was found.
    pub fn get_device_path(&self) -> (res: Option<String>)
        ensures
            match res {
                Some(p) => self.path_view() == Some(p@),
                None => self.path_view() is None,
            },
    {
        match &self.device_path {
            Some(p) => Some(p.clone()),
            None => None,
        }
    }
}

/// The touchpad found is the first candidate whose uevent names both vendor 06CB and product
/// CFD2: that candidate's uevent holds both ids, and no earlier candidate's does; nothing is
/// found exactly when no candidate's does.
pub proof fn law_first_match(cs: Seq<HidrawCandidate>)
    ensures
        first_match(cs) matches Some(p) ==> exists|i: int|
            0 <= i < cs.len() && cs[i].path@ == p && (#[trigger] cs[i].uevent matches Some(u) && contains(
                u@,
                "06CB"@,
            ) && contains(u@, "CFD2"@)) && forall|j: int|
                0 <= j < i ==> !(#[trigger] cs[j].uevent matches Some(u) && contains(u@, "06CB"@)
                    && contains(u@, "CFD2"@)),
        first_match(cs) is None ==> forall|j: int|
            0 <= j < cs.len() ==> !(#[trigger] cs[j].uevent matches Some(u) && contains(u@, "06CB"@)
                && contains(u@, "CFD2"@)),
    decreases cs.len(),
{
    if cs.len() > 0 {
        let r = cs.drop_first();
        law_first_match(r);
        assert forall|j: int| 0 <= j < r.len() implies r[j] == cs[j + 1] by {}
        if !candidate_matches(cs[0]) {
            if let Some(p) = first_match(r) {
                let i = choose|i: int|
                    0 <= i < r.len() && r[i].path@ == p && (#[trigger] r[i].uevent matches Some(u)
                        && contains(u@, "06CB"@) && contains(u@, "CFD2"@)) && forall|j: int|
                        0 <= j < i ==> !(#[trigger] r[j].uevent matches Some(u) && contains(
                            u@,
                            "06CB"@,
                        ) && contains(u@, "CFD2"@));
                assert(cs[i + 1] == r[i]);
                assert forall|j: int| 0 <= j < i + 1 implies !(#[trigger] cs[j].uevent matches Some(
                    u,
                ) && contains(u@, "06CB"@) && contains(u@, "CFD2"@)) by {
                    if j > 0 {
                        assert(cs[j] == r[j - 1]);
                    }
                }
            } else {
                assert forall|j: int| 0 <= j < cs.len() implies !(#[trigger] cs[j].uevent matches Some(
                    u,
                ) && contains(u@, "06CB"@) && contains(u@, "CFD2"@)) by {
                    if j > 0 {
                        assert(cs[j] == r[j - 1]);
                    }
                }
            }
        }
    }
}

} // verus!
