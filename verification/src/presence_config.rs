//! The presence settings: what to do when the user moves away or comes back, and when the
//! user looks away or looks again; their `key=value` text form and how it is read back.
use vstd::prelude::*;
use crate::text::{
    chars_eq_str, chars_of, decimal, index_of, index_of_from, is_digit, is_ws, lemma_decimal,
    lemma_index_of, lemma_index_of_unique, lemma_lines_cons, lemma_parse_decimal, lemma_trimmed,
    lemma_lines_lack_newline, lemma_trim_clean, lines, lines_of, strip_cr,
    parse_unsigned, parse_unsigned_chars, push_decimal, string_of, sub_chars, trim, trim_chars,
};

verus! {

/// Presence settings, as the settings page edits them and the daemon applies them.
#[derive(Clone, Debug)]
pub struct PresenceConfig {
    /// Proximity state at which the user counts as away: "Very Near", "Near", "Far" or "Away".
    pub prox_away_threshold: String,
    /// Seconds away before the away action runs.
    pub prox_away_delay: u32,
    /// "none", "lock" or "custom".
    pub prox_away_action: String,
    pub prox_away_custom: String,
    /// "none", "wake" or "custom".
    pub prox_return_action: String,
    pub prox_return_custom: String,
    /// Seconds of not looking before the not-looking action runs.
    pub attn_notlooking_delay: u32,
    /// "none", "dim", "lock" or "custom".
    pub attn_notlooking_action: String,
    /// Brightness while dimmed, in percent.
    pub attn_notlooking_dim: u8,
    pub attn_notlooking_custom: String,
    /// "none", "brighten" or "custom".
    pub attn_looking_action: String,
    /// Brightness when looking again, in percent.
    pub attn_looking_bright: u8,
    pub attn_looking_custom: String,
}

/// The settings as plain values.
pub struct PresenceConfigView {
    pub prox_away_threshold: Seq<char>,
    pub prox_away_delay: u32,
    pub prox_away_action: Seq<char>,
    pub prox_away_custom: Seq<char>,
    pub prox_return_action: Seq<char>,
    pub prox_return_custom: Seq<char>,
    pub attn_notlooking_delay: u32,
    pub attn_notlooking_action: Seq<char>,
    pub attn_notlooking_dim: u8,
    pub attn_notlooking_custom: Seq<char>,
    pub attn_looking_action: Seq<char>,
    pub attn_looking_bright: u8,
    pub attn_looking_custom: Seq<char>,
}

impl View for PresenceConfig {
    type V = PresenceConfigView;

    open spec fn view(&self) -> PresenceConfigView {
        PresenceConfigView {
            prox_away_threshold: self.prox_away_threshold@,
            prox_away_delay: self.prox_away_delay,
            prox_away_action: self.prox_away_action@,
            prox_away_custom: self.prox_away_custom@,
            prox_return_action: self.prox_return_action@,
            prox_return_custom: self.prox_return_custom@,
            attn_notlooking_delay: self.attn_notlooking_delay,
            attn_notlooking_action: self.attn_notlooking_action@,
            attn_notlooking_dim: self.attn_notlooking_dim,
            attn_notlooking_custom: self.attn_notlooking_custom@,
            attn_looking_action: self.attn_looking_action@,
            attn_looking_bright: self.attn_looking_bright,
            attn_looking_custom: self.attn_looking_custom@,
        }
    }
}

/// The settings before any have been changed.
pub open spec fn default_view() -> PresenceConfigView {
    PresenceConfigView {
        prox_away_threshold: "Far"@,
        prox_away_delay: 30,
        prox_away_action: "none"@,
        prox_away_custom: Seq::empty(),
        prox_return_action: "wake"@,
        prox_return_custom: Seq::empty(),
        attn_notlooking_delay: 10,
        attn_notlooking_action: "none"@,
        attn_notlooking_dim: 20,
        attn_notlooking_custom: Seq::empty(),
        attn_looking_action: "none"@,
        attn_looking_bright: 100,
        attn_looking_custom: Seq::empty(),
    }
}

impl Default for PresenceConfig {
    fn default() -> (r: Self)
        ensures
            r@ == default_view(),
    {
        PresenceConfig {
            prox_away_threshold: String::from_str("Far"),
            prox_away_delay: 30,
            prox_away_action: String::from_str("none"),
            prox_away_custom: String::new(),
            prox_return_action: String::from_str("wake"),
            prox_return_custom: String::new(),
            attn_notlooking_delay: 10,
            attn_notlooking_action: String::from_str("none"),
            attn_notlooking_dim: 20,
            attn_notlooking_custom: String::new(),
            attn_looking_action: String::from_str("none"),
            attn_looking_bright: 100,
            attn_looking_custom: String::new(),
        }
    }
}

// ───────────────────────────── text form ─────────────────────────────
/// The `key` and `value` of a `key=value` line, both trimmed; split at the first `'='`.
pub open spec fn entry_of(line: Seq<char>) -> Option<(Seq<char>, Seq<char>)> {
    let i = index_of(line, '=');
    if i < line.len() {
        Some((trim(line.take(i)), trim(line.skip(i + 1))))
    } else {
        None
    }
}

/// The value of the last line of `ls` whose key is `key`.
pub open spec fn lookup(ls: Seq<Seq<char>>, key: Seq<char>) -> Option<Seq<char>>
    decreases ls.len(),
{
    if ls.len() == 0 {
        None
    } else {
        match entry_of(ls.last()) {
            Some((k, v)) => if k == key {
                Some(v)
            } else {
                lookup(ls.drop_last(), key)
            },
            None => lookup(ls.drop_last(), key),
        }
    }
}

/// A text setting: the value found, else `current`.
pub open spec fn text_setting(found: Option<Seq<char>>, current: Seq<char>) -> Seq<char> {
    match found {
        Some(v) => v,
        None => current,
    }
}

/// A `u32` setting: the number found, else `default` (also when the value is no number).
pub open spec fn u32_setting(found: Option<Seq<char>>, default: u32) -> u32 {
    match found {
        Some(v) => match parse_unsigned(v, u32::MAX as nat) {
            Some(n) => n as u32,
            None => default,
        },
        None => default,
    }
}

/// A `u8` setting: the number found, else `default` (also when the value is no number).
pub open spec fn u8_setting(found: Option<Seq<char>>, default: u8) -> u8 {
    match found {
        Some(v) => match parse_unsigned(v, u8::MAX as nat) {
            Some(n) => n as u8,
            None => default,
        },
        None => default,
    }
}

/// The settings that the lines `ls` give, each from the last line with its key.
pub open spec fn settings_view(ls: Seq<Seq<char>>) -> PresenceConfigView {
    let d = default_view();
    PresenceConfigView {
        prox_away_threshold: text_setting(
            lookup(ls, "prox_away_threshold"@),
            d.prox_away_threshold,
        ),
        prox_away_delay: u32_setting(lookup(ls, "prox_away_delay"@), 30),
        prox_away_action: text_setting(lookup(ls, "prox_away_action"@), d.prox_away_action),
        prox_away_custom: text_setting(lookup(ls, "prox_away_custom"@), d.prox_away_custom),
        prox_return_action: text_setting(lookup(ls, "prox_return_action"@), d.prox_return_action),
        prox_return_custom: text_setting(lookup(ls, "prox_return_custom"@), d.prox_return_custom),
        attn_notlooking_delay: u32_setting(lookup(ls, "attn_notlooking_delay"@), 10),
        attn_notlooking_action: text_setting(
            lookup(ls, "attn_notlooking_action"@),
            d.attn_notlooking_action,
        ),
        attn_notlooking_dim: u8_setting(lookup(ls, "attn_notlooking_dim"@), 20),
        attn_notlooking_custom: text_setting(
            lookup(ls, "attn_notlooking_custom"@),
            d.attn_notlooking_custom,
        ),
        attn_looking_action: text_setting(
            lookup(ls, "attn_looking_action"@),
            d.attn_looking_action,
        ),
        attn_looking_bright: u8_setting(lookup(ls, "attn_looking_bright"@), 100),
        attn_looking_custom: text_setting(
            lookup(ls, "attn_looking_custom"@),
            d.attn_looking_custom,
        ),
    }
}

/// The settings that the text `content` gives.
pub open spec fn parse_view(content: Seq<char>) -> PresenceConfigView {
    settings_view(lines(content))
}

/// `key=value`.
pub open spec fn setting_line(key: Seq<char>, value: Seq<char>) -> Seq<char> {
    key + seq!['='] + value
}

/// The thirteen lines of the text form, in their fixed order.
pub open spec fn setting_lines(v: PresenceConfigView) -> Seq<Seq<char>> {
    seq![
        setting_line("prox_away_threshold"@, v.prox_away_threshold),
        setting_line("prox_away_delay"@, decimal(v.prox_away_delay as nat)),
        setting_line("prox_away_action"@, v.prox_away_action),
        setting_line("prox_away_custom"@, v.prox_away_custom),
        setting_line("prox_return_action"@, v.prox_return_action),
        setting_line("prox_return_custom"@, v.prox_return_custom),
        setting_line("attn_notlooking_delay"@, decimal(v.attn_notlooking_delay as nat)),
        setting_line("attn_notlooking_action"@, v.attn_notlooking_action),
        setting_line("attn_notlooking_dim"@, decimal(v.attn_notlooking_dim as nat)),
        setting_line("attn_notlooking_custom"@, v.attn_notlooking_custom),
        setting_line("attn_looking_action"@, v.attn_looking_action),
        setting_line("attn_looking_bright"@, decimal(v.attn_looking_bright as nat)),
        setting_line("attn_looking_custom"@, v.attn_looking_custom),
    ]
}

/// Lines joined, each followed by `'\n'`.
pub open spec fn join_lines(ls: Seq<Seq<char>>) -> Seq<char>
    decreases ls.len(),
{
    if ls.len() == 0 {
        Seq::empty()
    } else {
        ls[0] + seq!['\n'] + join_lines(ls.drop_first())
    }
}

/// The text form of the settings.
pub open spec fn serialize_view(v: PresenceConfigView) -> Seq<char> {
    join_lines(setting_lines(v))
}

/// The rank of a proximity state name: "Very Near" 0, "Near" 1, "Far" 2, "Away" and any other 3.
pub open spec fn spec_state_level(s: Seq<char>) -> u8 {
    if s == "Very Near"@ {
        0
    } else if s == "Near"@ {
        1
    } else if s == "Far"@ {
        2
    } else {
        3
    }
}

/// The rank of a proximity state name: "Very Near" (0) < "Near" (1) < "Far" (2) < "Away" (3);
/// any other name ranks as "Away".
pub fn state_level(s: &str) -> (res: u8)
    ensures
        res == spec_state_level(s@),
{
    let cs = chars_of(s);
    if chars_eq_str(cs.as_slice(), "Very Near") {
        0
    } else if chars_eq_str(cs.as_slice(), "Near") {
        1
    } else if chars_eq_str(cs.as_slice(), "Far") {
        2
    } else {
        3
    }
}

/// The settings after the line `key=value` with key `k` and value `v`.
pub open spec fn apply_entry(c: PresenceConfigView, k: Seq<char>, v: Seq<char>) -> PresenceConfigView {
    PresenceConfigView {
        prox_away_threshold: if k == "prox_away_threshold"@ {
            v
        } else {
            c.prox_away_threshold
        },
        prox_away_delay: if k == "prox_away_delay"@ {
            u32_setting(Some(v), 30)
        } else {
            c.prox_away_delay
        },
        prox_away_action: if k == "prox_away_action"@ {
            v
        } else {
            c.prox_away_action
        },
        prox_away_custom: if k == "prox_away_custom"@ {
            v
        } else {
            c.prox_away_custom
        },
        prox_return_action: if k == "prox_return_action"@ {
            v
        } else {
            c.prox_return_action
        },
        prox_return_custom: if k == "prox_return_custom"@ {
            v
        } else {
            c.prox_return_custom
        },
        attn_notlooking_delay: if k == "attn_notlooking_delay"@ {
            u32_setting(Some(v), 10)
        } else {
            c.attn_notlooking_delay
        },
        attn_notlooking_action: if k == "attn_notlooking_action"@ {
            v
        } else {
            c.attn_notlooking_action
        },
        attn_notlooking_dim: if k == "attn_notlooking_dim"@ {
            u8_setting(Some(v), 20)
        } else {
            c.attn_notlooking_dim
        },
        attn_notlooking_custom: if k == "attn_notlooking_custom"@ {
            v
        } else {
            c.attn_notlooking_custom
        },
        attn_looking_action: if k == "attn_looking_action"@ {
            v
        } else {
            c.attn_looking_action
        },
        attn_looking_bright: if k == "attn_looking_bright"@ {
            u8_setting(Some(v), 100)
        } else {
            c.attn_looking_bright
        },
        attn_looking_custom: if k == "attn_looking_custom"@ {
            v
        } else {
            c.attn_looking_custom
        },
    }
}

/// One more line changes the settings as that line's entry says.
proof fn lemma_settings_push(ls: Seq<Seq<char>>, l: Seq<char>)
    ensures
        settings_view(ls.push(l)) == match entry_of(l) {
            Some((k, v)) => apply_entry(settings_view(ls), k, v),
            None => settings_view(ls),
        },
{
    assert(ls.push(l).drop_last() =~= ls);
    assert(ls.push(l).last() == l);
}

/// Reads a decimal `u32`, or gives `default`.
fn u32_or(v: &[char], default: u32) -> (res: u32)
    ensures
        res == u32_setting(Some(v@), default),
{
    match parse_unsigned_chars(v, 0xffff_ffffu64) {
        Some(n) => n as u32,
        None => default,
    }
}

/// Reads a decimal `u8`, or gives `default`.
fn u8_or(v: &[char], default: u8) -> (res: u8)
    ensures
        res == u8_setting(Some(v@), default),
{
    match parse_unsigned_chars(v, 0xffu64) {
        Some(n) => n as u8,
        None => default,
    }
}

/// One more line joined at the end.
proof fn lemma_join_lines_push(ls: Seq<Seq<char>>, l: Seq<char>)
    ensures
        join_lines(ls.push(l)) == join_lines(ls) + l + seq!['\n'],
    decreases ls.len(),
{
    if ls.len() == 0 {
        assert(ls.push(l).drop_first() =~= Seq::<Seq<char>>::empty());
        assert(join_lines(Seq::<Seq<char>>::empty()) == Seq::<char>::empty());
        assert(ls.push(l)[0] == l);
        assert(join_lines(ls.push(l)) == l + seq!['\n'] + join_lines(ls.push(l).drop_first()));
        assert(join_lines(ls.push(l)) =~= l + seq!['\n'] + Seq::<char>::empty());
        assert(join_lines(ls) + l + seq!['\n'] =~= l + seq!['\n']);
    } else {
        lemma_join_lines_push(ls.drop_first(), l);
        assert(ls.push(l).drop_first() =~= ls.drop_first().push(l));
        assert(join_lines(ls.push(l)) =~= join_lines(ls) + l + seq!['\n']);
    }
}

/// Appends the line `key=value` and its `'\n'`.
fn push_text_line(s: &mut String, Ghost(done): Ghost<Seq<Seq<char>>>, key: &str, value: &str)
    requires
        old(s)@ == join_lines(done),
    ensures
        final(s)@ == join_lines(done.push(setting_line(key@, value@))),
{
    proof {
        lemma_join_lines_push(done, setting_line(key@, value@));
    }
    s.append(key);
    s.push('=');
    s.append(value);
    s.push('\n');
    assert(s@ =~= join_lines(done) + setting_line(key@, value@) + seq!['\n']);
}

/// Appends the line `key=n`, `n` in decimal, and its `'\n'`.
fn push_number_line(s: &mut String, Ghost(done): Ghost<Seq<Seq<char>>>, key: &str, n: u64)
    requires
        old(s)@ == join_lines(done),
    ensures
        final(s)@ == join_lines(done.push(setting_line(key@, decimal(n as nat)))),
{
    proof {
        lemma_join_lines_push(done, setting_line(key@, decimal(n as nat)));
    }
    s.append(key);
    s.push('=');
    push_decimal(s, n);
    s.push('\n');
    assert(s@ =~= join_lines(done) + setting_line(key@, decimal(n as nat)) + seq!['\n']);
}

impl PresenceConfig {
    /// Applies one `key=value` entry; keys that name no setting change nothing.
    fn apply(&mut self, k: &[char], v: &[char])
        ensures
            final(self)@ == apply_entry(old(self)@, k@, v@),
    {
        if chars_eq_str(k, "prox_away_threshold") {
            self.prox_away_threshold = string_of(v);
        }
        if chars_eq_str(k, "prox_away_delay") {
            self.prox_away_delay = u32_or(v, 30);
        }
        if chars_eq_str(k, "prox_away_action") {
            self.prox_away_action = string_of(v);
        }
        if chars_eq_str(k, "prox_away_custom") {
            self.prox_away_custom = string_of(v);
        }
        if chars_eq_str(k, "prox_return_action") {
            self.prox_return_action = string_of(v);
        }
        if chars_eq_str(k, "prox_return_custom") {
            self.prox_return_custom = string_of(v);
        }
        if chars_eq_str(k, "attn_notlooking_delay") {
            self.attn_notlooking_delay = u32_or(v, 10);
        }
        if chars_eq_str(k, "attn_notlooking_action") {
            self.attn_notlooking_action = string_of(v);
        }
        if chars_eq_str(k, "attn_notlooking_dim") {
            self.attn_notlooking_dim = u8_or(v, 20);
        }
        if chars_eq_str(k, "attn_notlooking_custom") {
            self.attn_notlooking_custom = string_of(v);
        }
        if chars_eq_str(k, "attn_looking_action") {
            self.attn_looking_action = string_of(v);
        }
        if chars_eq_str(k, "attn_looking_bright") {
            self.attn_looking_bright = u8_or(v, 100);
        }
        if chars_eq_str(k, "attn_looking_custom") {
            self.attn_looking_custom = string_of(v);
        }
    }

    /// Reads settings from `key=value` lines. Each setting comes from the last line with its
    /// key (key and value trimmed); settings without a line keep their default, and a number
    /// that does not read as one gives the default too.
    pub fn parse(content: &str) -> (cfg: Self)
        ensures
            cfg@ == parse_view(content@),
    {
        let cs = chars_of(content);
        let ls = lines_of(cs.as_slice());
        let ghost lv = ls@.map_values(|l: Vec<char>| l@);
        let mut cfg = PresenceConfig::default();
        assert(lv.take(0) =~= Seq::<Seq<char>>::empty());
        let mut i: usize = 0;
        while i < ls.len()
            invariant
                i <= ls@.len(),
                lv == ls@.map_values(|l: Vec<char>| l@),
                lv == lines(content@),
                cfg@ == settings_view(lv.take(i as int)),
            decreases ls@.len() - i,
        {
            let line = &ls[i];
            proof {
                lemma_settings_push(lv.take(i as int), lv[i as int]);
                assert(lv.take(i + 1) =~= lv.take(i as int).push(lv[i as int]));
                lemma_index_of(line@, '=');
            }
            let eq = index_of_from(line.as_slice(), '=', 0);
            assert(line@.subrange(0, line@.len() as int) =~= line@);
            if eq < line.len() {
                let k0 = sub_chars(line.as_slice(), 0, eq);
                let v0 = sub_chars(line.as_slice(), eq + 1, line.len());
                let k = trim_chars(k0.as_slice());
                let v = trim_chars(v0.as_slice());
                assert(k0@ =~= line@.take(eq as int));
                assert(v0@ =~= line@.skip(eq + 1));
                cfg.apply(k.as_slice(), v.as_slice());
            }
            i = i + 1;
        }
        assert(lv.take(ls@.len() as int) =~= lv);
        cfg
    }

    /// The text form: thirteen `key=value` lines, each ending in `'\n'`.
    pub fn serialize(&self) -> (res: String)
        ensures
            res@ == serialize_view(self@),
    {
        let mut s = String::new();
        let ghost mut done: Seq<Seq<char>> = Seq::empty();
        push_text_line(&mut s, Ghost(done), "prox_away_threshold", self.prox_away_threshold.as_str());
        proof { done = done.push(setting_line("prox_away_threshold"@, self.prox_away_threshold@)); }
        push_number_line(&mut s, Ghost(done), "prox_away_delay", self.prox_away_delay as u64);
        proof { done = done.push(setting_line("prox_away_delay"@, decimal(self.prox_away_delay as nat))); }
        push_text_line(&mut s, Ghost(done), "prox_away_action", self.prox_away_action.as_str());
        proof { done = done.push(setting_line("prox_away_action"@, self.prox_away_action@)); }
        push_text_line(&mut s, Ghost(done), "prox_away_custom", self.prox_away_custom.as_str());
        proof { done = done.push(setting_line("prox_away_custom"@, self.prox_away_custom@)); }
        push_text_line(&mut s, Ghost(done), "prox_return_action", self.prox_return_action.as_str());
        proof { done = done.push(setting_line("prox_return_action"@, self.prox_return_action@)); }
        push_text_line(&mut s, Ghost(done), "prox_return_custom", self.prox_return_custom.as_str());
        proof { done = done.push(setting_line("prox_return_custom"@, self.prox_return_custom@)); }
        push_number_line(&mut s, Ghost(done), "attn_notlooking_delay", self.attn_notlooking_delay as u64);
        proof { done = done.push(setting_line("attn_notlooking_delay"@, decimal(self.attn_notlooking_delay as nat))); }
        push_text_line(&mut s, Ghost(done), "attn_notlooking_action", self.attn_notlooking_action.as_str());
        proof { done = done.push(setting_line("attn_notlooking_action"@, self.attn_notlooking_action@)); }
        push_number_line(&mut s, Ghost(done), "attn_notlooking_dim", self.attn_notlooking_dim as u64);
        proof { done = done.push(setting_line("attn_notlooking_dim"@, decimal(self.attn_notlooking_dim as nat))); }
        push_text_line(&mut s, Ghost(done), "attn_notlooking_custom", self.attn_notlooking_custom.as_str());
        proof { done = done.push(setting_line("attn_notlooking_custom"@, self.attn_notlooking_custom@)); }
        push_text_line(&mut s, Ghost(done), "attn_looking_action", self.attn_looking_action.as_str());
        proof { done = done.push(setting_line("attn_looking_action"@, self.attn_looking_action@)); }
        push_number_line(&mut s, Ghost(done), "attn_looking_bright", self.attn_looking_bright as u64);
        proof { done = done.push(setting_line("attn_looking_bright"@, decimal(self.attn_looking_bright as nat))); }
        push_text_line(&mut s, Ghost(done), "attn_looking_custom", self.attn_looking_custom.as_str());
        proof { done = done.push(setting_line("attn_looking_custom"@, self.attn_looking_custom@)); }
        assert(done =~= setting_lines(self@));
        s
    }

    /// Whether the proximity state named `state` ranks at or beyond the configured away
    /// threshold.
    pub fn prox_meets_away_threshold(&self, state: &str) -> (res: bool)
        ensures
            res == (spec_state_level(state@) >= spec_state_level(self.prox_away_threshold@)),
    {
        state_level(state) >= state_level(self.prox_away_threshold.as_str())
    }
}

} // verus!

verus! {

// ───────────────────────────── laws ─────────────────────────────
/// No line break in `t`.
pub open spec fn no_newline(t: Seq<char>) -> bool {
    forall|j: int| 0 <= j < t.len() ==> t[j] != '\n'
}

/// A text setting that its text form carries unchanged: no line break, and no whitespace at
/// either end (reading trims both).
pub open spec fn clean_text(t: Seq<char>) -> bool {
    no_newline(t) && trim(t) == t
}

/// Every text setting of `v` is clean.
pub open spec fn clean_view(v: PresenceConfigView) -> bool {
    &&& clean_text(v.prox_away_threshold)
    &&& clean_text(v.prox_away_action)
    &&& clean_text(v.prox_away_custom)
    &&& clean_text(v.prox_return_action)
    &&& clean_text(v.prox_return_custom)
    &&& clean_text(v.attn_notlooking_action)
    &&& clean_text(v.attn_notlooking_custom)
    &&& clean_text(v.attn_looking_action)
    &&& clean_text(v.attn_looking_custom)
}

/// The keys of the text form, in order.
pub open spec fn setting_keys() -> Seq<Seq<char>> {
    seq![
        "prox_away_threshold"@,
        "prox_away_delay"@,
        "prox_away_action"@,
        "prox_away_custom"@,
        "prox_return_action"@,
        "prox_return_custom"@,
        "attn_notlooking_delay"@,
        "attn_notlooking_action"@,
        "attn_notlooking_dim"@,
        "attn_notlooking_custom"@,
        "attn_looking_action"@,
        "attn_looking_bright"@,
        "attn_looking_custom"@,
    ]
}

/// The values of the text form, in order.
pub open spec fn setting_values(v: PresenceConfigView) -> Seq<Seq<char>> {
    seq![
        v.prox_away_threshold,
        decimal(v.prox_away_delay as nat),
        v.prox_away_action,
        v.prox_away_custom,
        v.prox_return_action,
        v.prox_return_custom,
        decimal(v.attn_notlooking_delay as nat),
        v.attn_notlooking_action,
        decimal(v.attn_notlooking_dim as nat),
        v.attn_notlooking_custom,
        v.attn_looking_action,
        decimal(v.attn_looking_bright as nat),
        v.attn_looking_custom,
    ]
}

/// A key: lowercase ASCII letters and `'_'`, at least one.
spec fn key_chars(k: Seq<char>) -> bool {
    k.len() > 0 && forall|j: int| 0 <= j < k.len() ==> 95 <= (#[trigger] k[j]) as u32 <= 122
}

proof fn lemma_keys()
    ensures
        setting_keys().len() == 13,
        forall|j: int| 0 <= j < 13 ==> key_chars(#[trigger] setting_keys()[j]),
        forall|i: int, j: int|
            0 <= i < j < 13 ==> #[trigger] setting_keys()[i] != #[trigger] setting_keys()[j],
{
    reveal_strlit("prox_away_threshold");
    reveal_strlit("prox_away_delay");
    reveal_strlit("prox_away_action");
    reveal_strlit("prox_away_custom");
    reveal_strlit("prox_return_action");
    reveal_strlit("prox_return_custom");
    reveal_strlit("attn_notlooking_delay");
    reveal_strlit("attn_notlooking_action");
    reveal_strlit("attn_notlooking_dim");
    reveal_strlit("attn_notlooking_custom");
    reveal_strlit("attn_looking_action");
    reveal_strlit("attn_looking_bright");
    reveal_strlit("attn_looking_custom");
    let ks = setting_keys();
    assert forall|j: int| 0 <= j < 13 implies key_chars(#[trigger] ks[j]) by {
        let k = ks[j];
        assert forall|m: int| 0 <= m < k.len() implies 95 <= (#[trigger] k[m]) as u32 <= 122 by {
        }
    }
    assert(ks[2][10] != ks[3][10]);
    assert(ks[4][12] != ks[5][12]);
    assert(ks[0][0] != ks[8][0]);
    assert(ks[0][0] != ks[10][0]);
    assert(ks[0][0] != ks[11][0]);
    assert(ks[0][0] != ks[12][0]);
    assert(ks[8][5] != ks[10][5]);
    assert(ks[8][5] != ks[11][5]);
    assert(ks[8][5] != ks[12][5]);
    assert(ks[10][13] != ks[11][13]);
    assert(ks[10][13] != ks[12][13]);
    assert(ks[11][13] != ks[12][13]);
    assert(ks[7][16] != ks[9][16]);
}

/// The entry that a setting line gives back: its key and its value.
proof fn lemma_setting_line_entry(k: Seq<char>, v: Seq<char>)
    requires
        key_chars(k),
        clean_text(v),
    ensures
        entry_of(setting_line(k, v)) == Some((k, v)),
        no_newline(setting_line(k, v)),
        strip_cr(setting_line(k, v)) == setting_line(k, v),
{
    let l = setting_line(k, v);
    assert forall|j: int| 0 <= j < k.len() implies l[j] != '=' by {
        assert(l[j] == k[j]);
    }
    assert(l[k.len() as int] == '=');
    lemma_index_of_unique(l, '=', k.len() as int);
    assert(l.take(k.len() as int) =~= k);
    assert(l.skip(k.len() as int + 1) =~= v);
    assert(!is_ws(k[0]));
    assert(!is_ws(k.last()));
    lemma_trimmed(k);
    lemma_trimmed(v);
    assert forall|j: int| 0 <= j < l.len() implies l[j] != '\n' by {
        if j < k.len() {
            assert(l[j] == k[j]);
        } else if j > k.len() {
            assert(l[j] == v[j - k.len() - 1]);
        }
    }
    if v.len() > 0 {
        assert(l.last() == v.last());
    }
}

/// The lines of joined lines are those lines, when none holds a line break or ends in `'\r'`.
proof fn lemma_lines_join(ls: Seq<Seq<char>>)
    requires
        forall|j: int| 0 <= j < ls.len() ==> no_newline(#[trigger] ls[j]),
        forall|j: int| 0 <= j < ls.len() ==> strip_cr(#[trigger] ls[j]) == ls[j],
    ensures
        lines(join_lines(ls)) == ls,
    decreases ls.len(),
{
    if ls.len() == 0 {
        assert(lines(Seq::<char>::empty()) =~= Seq::<Seq<char>>::empty());
    } else {
        let rest = ls.drop_first();
        assert forall|j: int| 0 <= j < rest.len() implies no_newline(#[trigger] rest[j]) by {
            assert(rest[j] == ls[j + 1]);
        }
        assert forall|j: int| 0 <= j < rest.len() implies strip_cr(#[trigger] rest[j])
            == rest[j] by {
            assert(rest[j] == ls[j + 1]);
        }
        lemma_lines_join(rest);
        assert(no_newline(ls[0]));
        lemma_lines_cons(ls[0], join_lines(rest));
        assert(seq![ls[0]] + rest =~= ls);
    }
}

/// The last line with a key is the only one with that key: lookup finds its value.
proof fn lemma_lookup_distinct(
    ls: Seq<Seq<char>>,
    ks: Seq<Seq<char>>,
    vs: Seq<Seq<char>>,
    j: int,
)
    requires
        ls.len() == ks.len(),
        ls.len() == vs.len(),
        0 <= j < ls.len(),
        forall|m: int| 0 <= m < ls.len() ==> entry_of(#[trigger] ls[m]) == Some((ks[m], vs[m])),
        forall|m: int| j < m < ls.len() ==> #[trigger] ks[m] != ks[j],
    ensures
        lookup(ls, ks[j]) == Some(vs[j]),
    decreases ls.len(),
{
    let n = ls.len();
    assert(ls.last() == ls[n - 1]);
    if j < n - 1 {
        assert(ks[n - 1] != ks[j]);
        lemma_lookup_distinct(ls.drop_last(), ks.drop_last(), vs.drop_last(), j);
    }
}

/// Writing settings out and reading them back gives the same settings, provided that no
/// text setting holds a line break or begins or ends with whitespace.
pub proof fn law_parse_serialize_roundtrip(v: PresenceConfigView)
    requires
        clean_view(v),
    ensures
        parse_view(serialize_view(v)) == v,
{
    lemma_keys();
    let ks = setting_keys();
    let vs = setting_values(v);
    let ls = setting_lines(v);
    lemma_parse_decimal(v.prox_away_delay as nat, u32::MAX as nat);
    lemma_parse_decimal(v.attn_notlooking_delay as nat, u32::MAX as nat);
    lemma_parse_decimal(v.attn_notlooking_dim as nat, u8::MAX as nat);
    lemma_parse_decimal(v.attn_looking_bright as nat, u8::MAX as nat);
    lemma_decimal(v.prox_away_delay as nat);
    lemma_decimal(v.attn_notlooking_delay as nat);
    lemma_decimal(v.attn_notlooking_dim as nat);
    lemma_decimal(v.attn_looking_bright as nat);
    assert forall|m: int| 0 <= m < 13 implies clean_text(#[trigger] vs[m]) by {
        if m == 1 || m == 6 || m == 8 || m == 11 {
            let d = vs[m];
            assert forall|i: int| 0 <= i < d.len() implies d[i] != '\n' by {
                assert(is_digit(d[i]));
            }
        }
    }
    assert forall|m: int| 0 <= m < 13 implies #[trigger] ls[m] == setting_line(ks[m], vs[m]) by {
    }
    assert forall|m: int| 0 <= m < 13 implies entry_of(#[trigger] ls[m]) == Some((ks[m], vs[m]))
        && no_newline(ls[m]) && strip_cr(ls[m]) == ls[m] by {
        assert(key_chars(ks[m]));
        assert(clean_text(vs[m]));
        lemma_setting_line_entry(ks[m], vs[m]);
    }
    lemma_lines_join(ls);
    assert(lines(serialize_view(v)) == ls);
    assert forall|j: int| 0 <= j < 13 implies lookup(ls, #[trigger] ks[j]) == Some(vs[j]) by {
        lemma_lookup_distinct(ls, ks, vs, j);
    }
    assert(lookup(ls, ks[0]) == Some(vs[0]));
    assert(lookup(ls, ks[1]) == Some(vs[1]));
    assert(lookup(ls, ks[2]) == Some(vs[2]));
    assert(lookup(ls, ks[3]) == Some(vs[3]));
    assert(lookup(ls, ks[4]) == Some(vs[4]));
    assert(lookup(ls, ks[5]) == Some(vs[5]));
    assert(lookup(ls, ks[6]) == Some(vs[6]));
    assert(lookup(ls, ks[7]) == Some(vs[7]));
    assert(lookup(ls, ks[8]) == Some(vs[8]));
    assert(lookup(ls, ks[9]) == Some(vs[9]));
    assert(lookup(ls, ks[10]) == Some(vs[10]));
    assert(lookup(ls, ks[11]) == Some(vs[11]));
    assert(lookup(ls, ks[12]) == Some(vs[12]));
}

/// A value that `lookup` finds among lines without line breaks is clean: one line, trimmed.
proof fn lemma_lookup_clean(ls: Seq<Seq<char>>, key: Seq<char>)
    requires
        forall|k: int| 0 <= k < ls.len() ==> no_newline(#[trigger] ls[k]),
    ensures
        lookup(ls, key) matches Some(v) ==> clean_text(v),
    decreases ls.len(),
{
    if ls.len() > 0 {
        let init = ls.drop_last();
        assert forall|k: int| 0 <= k < init.len() implies no_newline(#[trigger] init[k]) by {
            assert(init[k] == ls[k]);
        }
        lemma_lookup_clean(init, key);
        let l = ls.last();
        assert(no_newline(l));
        let i = index_of(l, '=');
        lemma_index_of(l, '=');
        if i < l.len() {
            let tail = l.skip(i + 1);
            assert(no_newline(tail)) by {
                assert forall|j: int| 0 <= j < tail.len() implies tail[j] != '\n' by {
                    assert(tail[j] == l[i + 1 + j]);
                }
            }
            lemma_trim_clean(tail, '\n');
        }
    }
}

/// The text settings before any have been changed are clean.
proof fn lemma_default_clean()
    ensures
        clean_view(default_view()),
{
    reveal_strlit("Far");
    reveal_strlit("none");
    reveal_strlit("wake");
    lemma_trimmed("Far"@);
    lemma_trimmed("none"@);
    lemma_trimmed("wake"@);
    lemma_trimmed(Seq::<char>::empty());
}

/// Every settings value that reading gives is clean: no text setting holds a line break or
/// begins or ends with whitespace.
pub proof fn lemma_parse_clean(content: Seq<char>)
    ensures
        clean_view(parse_view(content)),
{
    let ls = lines(content);
    lemma_lines_lack_newline(content);
    assert forall|k: int| 0 <= k < ls.len() implies no_newline(#[trigger] ls[k]) by {
        assert(crate::text::lacks(ls[k], '\n'));
    }
    lemma_default_clean();
    lemma_lookup_clean(ls, "prox_away_threshold"@);
    lemma_lookup_clean(ls, "prox_away_action"@);
    lemma_lookup_clean(ls, "prox_away_custom"@);
    lemma_lookup_clean(ls, "prox_return_action"@);
    lemma_lookup_clean(ls, "prox_return_custom"@);
    lemma_lookup_clean(ls, "attn_notlooking_action"@);
    lemma_lookup_clean(ls, "attn_notlooking_custom"@);
    lemma_lookup_clean(ls, "attn_looking_action"@);
    lemma_lookup_clean(ls, "attn_looking_custom"@);
}

/// Every settings value that reading gives survives writing and reading again: for any text,
/// reading the written form of what it reads as gives the same settings. So writing what was
/// read, then reading and writing again, gives the same text.
pub proof fn law_parse_serialize_fixpoint(content: Seq<char>)
    ensures
        parse_view(serialize_view(parse_view(content))) == parse_view(content),
        serialize_view(parse_view(serialize_view(parse_view(content)))) == serialize_view(
            parse_view(content),
        ),
{
    lemma_parse_clean(content);
    law_parse_serialize_roundtrip(parse_view(content));
}

/// A settings line splits at its first `'='`: with a key part `k0` that holds no `'='`, the
/// line `k0=v0` is the entry (trimmed `k0`, trimmed `v0`), whatever `v0` holds; a line without
/// `'='` is no entry.
pub proof fn law_entry_split(k0: Seq<char>, v0: Seq<char>, line: Seq<char>)
    requires
        forall|j: int| 0 <= j < k0.len() ==> k0[j] != '=',
    ensures
        entry_of(k0 + seq!['='] + v0) == Some((trim(k0), trim(v0))),
        (forall|j: int| 0 <= j < line.len() ==> line[j] != '=') ==> entry_of(line) is None,
{
    let l = k0 + seq!['='] + v0;
    assert forall|j: int| 0 <= j < k0.len() implies l[j] != '=' by {
        assert(l[j] == k0[j]);
    }
    lemma_index_of_unique(l, '=', k0.len() as int);
    assert(l.take(k0.len() as int) =~= k0);
    assert(l.skip(k0.len() as int + 1) =~= v0);
    lemma_index_of(line, '=');
}

/// Reading takes each setting from the last line with its key: when `lookup` finds `v` for
/// `key`, some line is the entry `(key, v)` and no later line has that key; when it finds
/// nothing, no line has that key.
pub proof fn law_lookup_last(ls: Seq<Seq<char>>, key: Seq<char>)
    ensures
        lookup(ls, key) matches Some(v) ==> exists|i: int|
            0 <= i < ls.len() && entry_of(#[trigger] ls[i]) == Some((key, v)) && forall|j: int|
                i < j < ls.len() ==> !(entry_of(#[trigger] ls[j]) matches Some((k2, _)) && k2
                    == key),
        lookup(ls, key) is None ==> forall|j: int|
            0 <= j < ls.len() ==> !(entry_of(#[trigger] ls[j]) matches Some((k2, _)) && k2 == key),
    decreases ls.len(),
{
    if ls.len() > 0 {
        let init = ls.drop_last();
        law_lookup_last(init, key);
        assert forall|j: int| 0 <= j < init.len() implies init[j] == ls[j] by {}
        let last = ls.len() - 1;
        match entry_of(ls.last()) {
            Some((k, v)) => {
                if k == key {
                    assert(entry_of(ls[last]) == Some((key, v)));
                } else if let Some(w) = lookup(init, key) {
                    let i = choose|i: int|
                        0 <= i < init.len() && entry_of(#[trigger] init[i]) == Some((key, w))
                            && forall|j: int|
                            i < j < init.len() ==> !(entry_of(#[trigger] init[j]) matches Some(
                                (k2, _),
                            ) && k2 == key);
                    assert(entry_of(ls[i]) == Some((key, w)));
                }
            },
            None => {
                if let Some(w) = lookup(init, key) {
                    let i = choose|i: int|
                        0 <= i < init.len() && entry_of(#[trigger] init[i]) == Some((key, w))
                            && forall|j: int|
                            i < j < init.len() ==> !(entry_of(#[trigger] init[j]) matches Some(
                                (k2, _),
                            ) && k2 == key);
                    assert(entry_of(ls[i]) == Some((key, w)));
                }
            },
        }
    }
}

} // verus!
