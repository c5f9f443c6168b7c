//! The battery page's decisions: which power supply is the system battery, the charge text and
//! icon, the power profile, and which UPower history file belongs to the battery.
use vstd::prelude::*;
use crate::text::{
    chars_eq_str, chars_of, ends_with, ends_with_str, lowercase_view, parse_signed,
    parse_signed_chars, push_chars, starts_with, starts_with_str, string_of, sub_chars,
    to_lowercase, trim, trim_chars,
};

verus! {

/// What `char::to_uppercase` gives for `c`, as characters.
pub uninterp spec fn uppercase_view(c: char) -> Seq<char>;

/// `char::to_uppercase`: the uppercase form of `c` by the Unicode mapping (one or more
/// characters), collected into a string. Its result is named (`uppercase_view`), not stated.
#[verifier::external_body]
pub(crate) fn char_to_uppercase(c: char) -> (res: String)
    ensures
        res@ == uppercase_view(c),
{
    c.to_uppercase().collect()
}

/// `s` with its first character in uppercase.
pub open spec fn capitalize_view(s: Seq<char>) -> Seq<char> {
    if s.len() == 0 {
        s
    } else {
        uppercase_view(s[0]) + s.drop_first()
    }
}

/// `s` with its first character in uppercase.
pub fn capitalize(s: &str) -> (res: String)
    ensures
        res@ == capitalize_view(s@),
{
    let cs = chars_of(s);
    if cs.len() == 0 {
        return String::new();
    }
    let mut res = char_to_uppercase(cs[0]);
    let rest = sub_chars(cs.as_slice(), 1, cs.len());
    push_chars(&mut res, rest.as_slice());
    assert(rest@ =~= s@.drop_first());
    res
}

/// The view of an optional string.
pub open spec fn opt_view(o: Option<&str>) -> Option<Seq<char>> {
    match o {
        Some(s) => Some(s@),
        None => None,
    }
}

/// The charge text: "C%" or "C% - Status" (status capitalized, when not empty);
/// "Unknown" without a capacity.
pub open spec fn charge_text_view(capacity: Option<Seq<char>>, status: Option<Seq<char>>) -> Seq<
    char,
> {
    match capacity {
        Some(cap) => {
            let st = match status {
                Some(s) => capitalize_view(s),
                None => Seq::empty(),
            };
            if st.len() == 0 {
                cap + "%"@
            } else {
                cap + "% - "@ + st
            }
        },
        None => "Unknown"@,
    }
}

/// The charge text from the `capacity` and `status` attributes.
pub fn charge_text(capacity: Option<&str>, status: Option<&str>) -> (res: String)
    ensures
        res@ == charge_text_view(opt_view(capacity), opt_view(status)),
{
    match capacity {
        Some(cap) => {
            let st = match status {
                Some(s) => capitalize(s),
                None => String::new(),
            };
            let mut out = String::from_str(cap);
            if st.as_str().is_empty() {
                out.append("%");
            } else {
                out.append("% - ");
                out.append(st.as_str());
            }
            out
        },
        None => String::from_str("Unknown"),
    }
}

/// The icon's base name for a charge level.
pub open spec fn icon_base(level: int) -> Seq<char> {
    if level >= 90 {
        "battery-full"@
    } else if level >= 70 {
        "battery-good"@
    } else if level >= 40 {
        "battery-medium"@
    } else if level >= 15 {
        "battery-low"@
    } else {
        "battery-caution"@
    }
}

/// The battery icon: "battery-missing-symbolic" when the capacity does not read as an `i32`;
/// else the level's icon, with "-charging" when the status reads "charging" in any case.
pub open spec fn icon_view(capacity: Option<Seq<char>>, status: Option<Seq<char>>) -> Seq<char> {
    let level = match capacity {
        Some(c) => parse_signed(c, i32::MIN as int, i32::MAX as int),
        None => None,
    };
    match level {
        None => "battery-missing-symbolic"@,
        Some(l) => {
            let charging = match status {
                Some(s) => lowercase_view(s) == "charging"@,
                None => false,
            };
            if charging {
                icon_base(l) + "-charging-symbolic"@
            } else {
                icon_base(l) + "-symbolic"@
            }
        },
    }
}

/// The icon name for the battery's `capacity` and `status` attributes.
pub fn icon_for_level(capacity: Option<&str>, status: Option<&str>) -> (res: String)
    ensures
        res@ == icon_view(opt_view(capacity), opt_view(status)),
{
    let level = match capacity {
        Some(c) => {
            let cs = chars_of(c);
            parse_signed_chars(cs.as_slice(), i32::MIN as i64, i32::MAX as i64)
        },
        None => None,
    };
    let level = match level {
        Some(l) => l,
        None => return String::from_str("battery-missing-symbolic"),
    };
    let charging = match status {
        Some(s) => {
            let lower = to_lowercase(s);
            let lc = chars_of(lower.as_str());
            chars_eq_str(lc.as_slice(), "charging")
        },
        None => false,
    };
    let mut out = if level >= 90 {
        String::from_str("battery-full")
    } else if level >= 70 {
        String::from_str("battery-good")
    } else if level >= 40 {
        String::from_str("battery-medium")
    } else if level >= 15 {
        String::from_str("battery-low")
    } else {
        String::from_str("battery-caution")
    };
    if charging {
        out.append("-charging-symbolic");
    } else {
        out.append("-symbolic");
    }
    out
}

/// The power profile from `powerprofilesctl get` output (when it ran and gave text): the
/// output trimmed, or "balanced" when that is empty or missing.
pub fn power_profile(output: Option<&str>) -> (res: String)
    ensures
        match output {
            Some(o) => if trim(o@).len() > 0 {
                res@ == trim(o@)
            } else {
                res@ == "balanced"@
            },
            None => res@ == "balanced"@,
        },
{
    if let Some(o) = output {
        let cs = chars_of(o);
        let t = trim_chars(cs.as_slice());
        if t.len() > 0 {
            return string_of(t.as_slice());
        }
    }
    String::from_str("balanced")
}

// ───────────────────────────── power supplies ─────────────────────────────
/// A power supply: its directory, and its `type` and `scope` attributes when readable.
pub struct PowerSupply {
    pub path: String,
    pub kind: Option<String>,
    pub scope: Option<String>,
}

/// The attribute trimmed and in lowercase; empty when missing.
pub open spec fn attr_view(a: Option<String>) -> Seq<char> {
    match a {
        Some(s) => lowercase_view(trim(s@)),
        None => Seq::empty(),
    }
}

/// A battery: its type reads "battery".
pub open spec fn is_battery(p: PowerSupply) -> bool {
    p.kind is Some && attr_view(p.kind) == "battery"@
}

/// A battery of the system itself: scope "system" or "primary".
pub open spec fn is_system_battery(p: PowerSupply) -> bool {
    is_battery(p) && (attr_view(p.scope) == "system"@ || attr_view(p.scope) == "primary"@)
}

/// A battery that is not a peripheral's: scope not "device".
pub open spec fn is_non_device_battery(p: PowerSupply) -> bool {
    is_battery(p) && attr_view(p.scope) != "device"@
}

/// The first index whose supply meets `pred`.
pub open spec fn first_index(ps: Seq<PowerSupply>, pred: spec_fn(PowerSupply) -> bool) -> Option<
    int,
>
    decreases ps.len(),
{
    if ps.len() == 0 {
        None
    } else if pred(ps.last()) && first_index(ps.drop_last(), pred) is None {
        Some(ps.len() - 1)
    } else {
        first_index(ps.drop_last(), pred)
    }
}

/// The attribute trimmed and in lowercase; empty when missing.
fn attr(a: &Option<String>) -> (res: Vec<char>)
    ensures
        res@ == attr_view(*a),
{
    match a {
        Some(s) => {
            let cs = chars_of(s.as_str());
            let t = trim_chars(cs.as_slice());
            let ts = string_of(t.as_slice());
            let lower = to_lowercase(ts.as_str());
            chars_of(lower.as_str())
        },
        None => Vec::new(),
    }
}

/// The system battery among the power supplies: the first battery with scope "system" or
/// "primary", else the first battery whose scope is not "device".
pub fn choose_battery(supplies: &[PowerSupply]) -> (res: Option<String>)
    ensures
        match first_index(supplies@, |p: PowerSupply| is_system_battery(p)) {
            Some(i) => res matches Some(s) && s@ == supplies@[i].path@,
            None => match first_index(supplies@, |p: PowerSupply| is_non_device_battery(p)) {
                Some(i) => res matches Some(s) && s@ == supplies@[i].path@,
                None => res is None,
            },
        },
{
    let ghost sys = |p: PowerSupply| is_system_battery(p);
    let ghost nondev = |p: PowerSupply| is_non_device_battery(p);
    let mut first_sys: Option<usize> = None;
    let mut first_nondev: Option<usize> = None;
    let mut i: usize = 0;
    assert(supplies@.take(0) =~= Seq::<PowerSupply>::empty());
    while i < supplies.len()
        invariant
            i <= supplies@.len(),
            sys == (|p: PowerSupply| is_system_battery(p)),
            nondev == (|p: PowerSupply| is_non_device_battery(p)),
            match first_sys {
                Some(k) => first_index(supplies@.take(i as int), sys) == Some(k as int),
                None => first_index(supplies@.take(i as int), sys) is None,
            },
            match first_nondev {
                Some(k) => first_index(supplies@.take(i as int), nondev) == Some(k as int),
                None => first_index(supplies@.take(i as int), nondev) is None,
            },
            first_sys matches Some(k) ==> k < i,
            first_nondev matches Some(k) ==> k < i,
        decreases supplies@.len() - i,
    {
        let p = &supplies[i];
        assert(supplies@.take(i + 1).drop_last() =~= supplies@.take(i as int));
        assert(supplies@.take(i + 1).last() == *p);
        let kind = attr(&p.kind);
        let scope = attr(&p.scope);
        let battery = p.kind.is_some() && chars_eq_str(kind.as_slice(), "battery");
        let system = battery && (chars_eq_str(scope.as_slice(), "system") || chars_eq_str(
            scope.as_slice(),
            "primary",
        ));
        let non_device = battery && !chars_eq_str(scope.as_slice(), "device");
        if system && first_sys.is_none() {
            first_sys = Some(i);
        }
        if non_device && first_nondev.is_none() {
            first_nondev = Some(i);
        }
        i = i + 1;
    }
    assert(supplies@.take(supplies@.len() as int) =~= supplies@);
    match first_sys {
        Some(k) => Some(supplies[k].path.clone()),
        None => match first_nondev {
            Some(k) => Some(supplies[k].path.clone()),
            None => None,
        },
    }
}

} // verus!

verus! {

// ───────────────────────────── UPower history ─────────────────────────────
/// A UPower charge history file name: `history-charge-*.dat`.
pub open spec fn is_history_file_view(name: Seq<char>) -> bool {
    starts_with(name, "history-charge-"@) && ends_with(name, ".dat"@)
}

/// Whether `name` is a UPower charge history file name.
pub fn is_history_file(name: &str) -> (res: bool)
    ensures
        res == is_history_file_view(name@),
{
    let cs = chars_of(name);
    starts_with_str(cs.as_slice(), "history-charge-") && ends_with_str(cs.as_slice(), ".dat")
}

/// A model name as UPower writes it in file names: trimmed, spaces replaced by `'_'`.
pub open spec fn model_file_stem(model: Seq<char>) -> Seq<char> {
    trim(model).map_values(|c: char| if c == ' ' { '_' } else { c })
}

/// A history file name without its `history-charge-` prefix.
pub open spec fn history_stem(name: Seq<char>) -> Seq<char> {
    if starts_with(name, "history-charge-"@) {
        name.skip("history-charge-"@.len() as int)
    } else {
        name
    }
}

/// The first name in `names` whose stem begins with `stem`.
pub open spec fn first_model_match(names: Seq<String>, stem: Seq<char>) -> Option<int>
    decreases names.len(),
{
    if names.len() == 0 {
        None
    } else if first_model_match(names.drop_last(), stem) is Some {
        first_model_match(names.drop_last(), stem)
    } else if starts_with(history_stem(names.last()@), stem) {
        Some(names.len() - 1)
    } else {
        None
    }
}

/// The history file of the battery with model name `model` (as read from sysfs): the first of
/// `names` whose stem begins with the model's file stem.
pub fn history_for_model(names: &[String], model: &str) -> (res: Option<usize>)
    ensures
        match first_model_match(names@, model_file_stem(model@)) {
            Some(i) => res == Some(i as usize),
            None => res is None,
        },
{
    let mc = chars_of(model);
    let t = trim_chars(mc.as_slice());
    let mut stem: Vec<char> = Vec::new();
    let mut j: usize = 0;
    while j < t.len()
        invariant
            j <= t@.len(),
            stem@ == t@.take(j as int).map_values(|c: char| if c == ' ' { '_' } else { c }),
        decreases t@.len() - j,
    {
        let c = t[j];
        stem.push(if c == ' ' { '_' } else { c });
        j = j + 1;
        assert(stem@ =~= t@.take(j as int).map_values(|c: char| if c == ' ' { '_' } else { c }));
    }
    assert(t@.take(t@.len() as int) =~= t@);
    let prefix = chars_of("history-charge-");
    let mut i: usize = 0;
    assert(names@.take(0) =~= Seq::<String>::empty());
    while i < names.len()
        invariant
            i <= names@.len(),
            stem@ == model_file_stem(model@),
            prefix@ == "history-charge-"@,
            first_model_match(names@.take(i as int), stem@) is None,
        decreases names@.len() - i,
    {
        let nc = chars_of(names[i].as_str());
        let st = if starts_with_str(nc.as_slice(), "history-charge-") {
            sub_chars(nc.as_slice(), prefix.len(), nc.len())
        } else {
            nc
        };
        assert(st@ == history_stem(names@[i as int]@));
        assert(names@.take(i + 1).drop_last() =~= names@.take(i as int));
        assert(names@.take(i + 1).last() == names@[i as int]);
        let hit = stem.len() <= st.len() && crate::text::chars_eq(
            sub_chars(st.as_slice(), 0, stem.len()).as_slice(),
            stem.as_slice(),
        );
        if hit {
            proof {
                lemma_first_model_match_prefix(names@, stem@, i as int);
            }
            return Some(i);
        }
        i = i + 1;
    }
    assert(names@.take(names@.len() as int) =~= names@);
    None
}

/// A match within a prefix of the names is the first match of all.
proof fn lemma_first_model_match_prefix(names: Seq<String>, stem: Seq<char>, i: int)
    requires
        0 <= i < names.len(),
        first_model_match(names.take(i), stem) is None,
        starts_with(history_stem(names[i]@), stem),
    ensures
        first_model_match(names, stem) == Some(i),
    decreases names.len(),
{
    assert(names.take(i + 1).drop_last() =~= names.take(i));
    assert(first_model_match(names.take(i + 1), stem) == Some(i));
    if names.len() > i + 1 {
        assert(names.drop_last().take(i) =~= names.take(i));
        assert(names.drop_last()[i] == names[i]);
        lemma_first_model_match_prefix(names.drop_last(), stem, i);
    } else {
        assert(names.take(i + 1) =~= names);
    }
}

/// The index of the last largest count, as `Iterator::max_by_key` picks it.
pub open spec fn last_max_index_view(counts: Seq<usize>) -> Option<int>
    decreases counts.len(),
{
    if counts.len() == 0 {
        None
    } else {
        match last_max_index_view(counts.drop_last()) {
            Some(k) => if counts.last() >= counts[k] {
                Some(counts.len() - 1)
            } else {
                Some(k)
            },
            None => Some(counts.len() - 1),
        }
    }
}

/// The history file with the most usable entries, when no file matches the model: the index
/// of the last largest count.
pub fn last_max_index(counts: &[usize]) -> (res: Option<usize>)
    ensures
        match last_max_index_view(counts@) {
            Some(k) => res == Some(k as usize),
            None => res is None,
        },
{
    let mut best: Option<usize> = None;
    let mut i: usize = 0;
    assert(counts@.take(0) =~= Seq::<usize>::empty());
    while i < counts.len()
        invariant
            i <= counts@.len(),
            match best {
                Some(k) => last_max_index_view(counts@.take(i as int)) == Some(k as int) && k < i,
                None => last_max_index_view(counts@.take(i as int)) is None && i == 0,
            },
        decreases counts@.len() - i,
    {
        assert(counts@.take(i + 1).drop_last() =~= counts@.take(i as int));
        assert(counts@.take(i + 1).last() == counts@[i as int]);
        match best {
            Some(k) => {
                assert(counts@.take(i + 1)[k as int] == counts@[k as int]);
                if counts[i] >= counts[k] {
                    best = Some(i);
                }
            },
            None => {
                best = Some(i);
            },
        }
        i = i + 1;
    }
    assert(counts@.take(counts@.len() as int) =~= counts@);
    best
}

// ───────────────────────────── laws ─────────────────────────────
/// The history file chosen by count has the most usable entries, and it is the last of those
/// with that many (as `max_by_key` picks): every count is at most its count, and every later
/// count is smaller. There is a choice exactly when there is a file.
pub proof fn law_last_max_index(counts: Seq<usize>)
    ensures
        last_max_index_view(counts) is None <==> counts.len() == 0,
        last_max_index_view(counts) matches Some(k) ==> {
            &&& 0 <= k < counts.len()
            &&& forall|j: int| 0 <= j < counts.len() ==> #[trigger] counts[j] <= counts[k]
            &&& forall|j: int| k < j < counts.len() ==> #[trigger] counts[j] < counts[k]
        },
    decreases counts.len(),
{
    if counts.len() > 0 {
        let init = counts.drop_last();
        law_last_max_index(init);
        assert forall|j: int| 0 <= j < init.len() implies init[j] == counts[j] by {}
    }
}

/// The supply chosen by a test is the first that passes it: it passes, and none before it
/// does; without a choice, none passes.
pub proof fn law_first_index(ps: Seq<PowerSupply>, pred: spec_fn(PowerSupply) -> bool)
    ensures
        first_index(ps, pred) matches Some(i) ==> 0 <= i < ps.len() && pred(ps[i]) && forall|
            j: int,
        | 0 <= j < i ==> !pred(#[trigger] ps[j]),
        first_index(ps, pred) is None ==> forall|j: int| 0 <= j < ps.len() ==> !pred(#[trigger] ps[j]),
    decreases ps.len(),
{
    if ps.len() > 0 {
        let init = ps.drop_last();
        law_first_index(init, pred);
        assert forall|j: int| 0 <= j < init.len() implies init[j] == ps[j] by {}
    }
}

/// The battery shown is a supply whose type reads "battery" (trimmed, in any case): the first
/// whose scope reads "system" or "primary" when there is one, else the first whose scope does
/// not read "device"; none when no supply qualifies.
pub proof fn law_choose_battery(ps: Seq<PowerSupply>)
    ensures
        ({
            let sys = first_index(ps, |p: PowerSupply| is_system_battery(p));
            let any = first_index(ps, |p: PowerSupply| is_non_device_battery(p));
            &&& sys matches Some(i) ==> attr_view(ps[i].kind) == "battery"@ && (attr_view(
                ps[i].scope,
            ) == "system"@ || attr_view(ps[i].scope) == "primary"@) && forall|j: int|
                0 <= j < i ==> !is_system_battery(#[trigger] ps[j])
            &&& sys is None ==> forall|j: int|
                0 <= j < ps.len() ==> !is_system_battery(#[trigger] ps[j])
            &&& sys is None ==> (any matches Some(i) ==> attr_view(ps[i].kind) == "battery"@
                && attr_view(ps[i].scope) != "device"@ && forall|j: int|
                0 <= j < i ==> !is_non_device_battery(#[trigger] ps[j]))
        }),
{
    law_first_index(ps, |p: PowerSupply| is_system_battery(p));
    law_first_index(ps, |p: PowerSupply| is_non_device_battery(p));
}

/// The battery icon by charge level, for a capacity that reads as an integer `l`: full from
/// 90, good from 70, medium from 40, low from 15, caution below; "-charging" exactly when the
/// status reads "charging" in any case.
pub proof fn law_icon_levels(c: Seq<char>, status: Option<Seq<char>>, l: int)
    requires
        parse_signed(c, i32::MIN as int, i32::MAX as int) == Some(l),
    ensures
        ({
            let icon = icon_view(Some(c), status);
            let charging = status matches Some(st) && lowercase_view(st) == "charging"@;
            let base = if l >= 90 {
                "battery-full"@
            } else if l >= 70 {
                "battery-good"@
            } else if l >= 40 {
                "battery-medium"@
            } else if l >= 15 {
                "battery-low"@
            } else {
                "battery-caution"@
            };
            icon == base + (if charging {
                "-charging-symbolic"@
            } else {
                "-symbolic"@
            })
        }),
{
}

} // verus!
