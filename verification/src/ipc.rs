//! The messages between the settings page and the daemon: `SET_CONFIG` blocks that carry
//! settings to the daemon, `STATE` lines that carry the presence and attention states back,
//! and the state file that stands in for the socket when it is not there.
use vstd::prelude::*;
use crate::presence_config::{
    clean_view, law_parse_serialize_roundtrip, parse_view, serialize_view, PresenceConfig,
    PresenceConfigView,
};
use crate::text::{
    chars_of, contains, find, find_chars, find_chars_from, find_from, lemma_find,
    lemma_find_from, lemma_lines_cons, lines, lines_of, occurs_at, starts_with, starts_with_str,
    strip_cr, string_of, sub_chars,
};

verus! {

/// The line that opens a settings block.
pub open spec fn set_config_cmd() -> Seq<char> {
    "SET_CONFIG\n"@
}

/// The line that closes a settings block.
pub open spec fn set_config_end() -> Seq<char> {
    "END\n"@
}

/// The first complete settings block in `s`: its body and what follows it. The block opens
/// at the first `SET_CONFIG\n` and closes at the first `END\n` after that.
pub open spec fn set_config_frame(s: Seq<char>) -> Option<(Seq<char>, Seq<char>)> {
    match find(s, set_config_cmd()) {
        None => None,
        Some(start) => {
            let body_start = start + set_config_cmd().len();
            match find_from(s, set_config_end(), body_start) {
                None => None,
                Some(end) => Some((s.subrange(body_start, end), s.skip(end + set_config_end().len()))),
            }
        },
    }
}

/// The settings block that carries `v`.
pub open spec fn set_config_message_view(v: PresenceConfigView) -> Seq<char> {
    set_config_cmd() + serialize_view(v) + set_config_end()
}

/// Takes the first complete settings block out of `buf` and reads it; everything up to the
/// end of that block leaves `buf`. Without a complete block, `buf` stays as it is.
pub fn extract_set_config(buf: &mut String) -> (res: Option<PresenceConfig>)
    ensures
        match set_config_frame(old(buf)@) {
            None => res is None && final(buf)@ == old(buf)@,
            Some((body, rest)) => final(buf)@ == rest && (res matches Some(cfg) && cfg@
                == parse_view(body)),
        },
{
    let cs = chars_of(buf.as_str());
    let n = cs.len();
    let cmd = chars_of("SET_CONFIG\n");
    let end = chars_of("END\n");
    proof {
        reveal_strlit("SET_CONFIG\n");
        reveal_strlit("END\n");
    }
    let start = match find_chars(cs.as_slice(), cmd.as_slice()) {
        Some(k) => k,
        None => return None,
    };
    proof {
        lemma_find(cs@, cmd@);
    }
    let body_start = start + cmd.len();
    let stop = match find_chars_from(cs.as_slice(), end.as_slice(), body_start) {
        Some(k) => k,
        None => return None,
    };
    proof {
        lemma_find_from(cs@, end@, body_start as int);
    }
    let body = sub_chars(cs.as_slice(), body_start, stop);
    let rest = sub_chars(cs.as_slice(), stop + end.len(), cs.len());
    assert(rest@ =~= cs@.skip(stop + end@.len()));
    *buf = string_of(rest.as_slice());
    let body_text = string_of(body.as_slice());
    Some(PresenceConfig::parse(body_text.as_str()))
}

/// What draining `s` gives: the settings of each complete block, in order, and the text left
/// after the last of them.
pub open spec fn drain_view(s: Seq<char>) -> (Seq<PresenceConfigView>, Seq<char>)
    decreases s.len(),
{
    match set_config_frame(s) {
        Some((body, rest)) => if rest.len() < s.len() {
            let (later, left) = drain_view(rest);
            (seq![parse_view(body)] + later, left)
        } else {
            (Seq::empty(), s)
        },
        None => (Seq::empty(), s),
    }
}

/// Taking a block out of `s` leaves less than `s`.
proof fn lemma_frame_shrinks(s: Seq<char>)
    ensures
        set_config_frame(s) matches Some((body, rest)) ==> rest.len() < s.len(),
{
    reveal_strlit("SET_CONFIG\n");
    reveal_strlit("END\n");
    assert(set_config_end().len() == 4);
    if let Some(start) = find(s, set_config_cmd()) {
        lemma_find(s, set_config_cmd());
        let body_start = start + set_config_cmd().len();
        lemma_find_from(s, set_config_end(), body_start);
        if let Some(end) = find_from(s, set_config_end(), body_start) {
            assert(occurs_at(s, set_config_end(), end));
        }
    }
}

/// Takes every complete settings block out of `buf`, in order, and reads each; what follows
/// the last of them stays in `buf`.
pub fn drain_set_configs(buf: &mut String) -> (res: Vec<PresenceConfig>)
    ensures
        res@.map_values(|c: PresenceConfig| c@) == drain_view(old(buf)@).0,
        final(buf)@ == drain_view(old(buf)@).1,
{
    let ghost orig = buf@;
    let mut res: Vec<PresenceConfig> = Vec::new();
    loop
        invariant
            orig == old(buf)@,
            drain_view(orig) == (res@.map_values(|c: PresenceConfig| c@) + drain_view(buf@).0,
            drain_view(buf@).1),
        decreases buf@.len(),
    {
        let ghost before = buf@;
        proof {
            lemma_frame_shrinks(before);
        }
        match extract_set_config(buf) {
            Some(cfg) => {
                let ghost prev = res@.map_values(|c: PresenceConfig| c@);
                res.push(cfg);
                assert(res@.map_values(|c: PresenceConfig| c@) =~= prev.push(cfg@));
                assert(prev + drain_view(before).0 =~= prev.push(cfg@) + drain_view(buf@).0);
            },
            None => {
                assert(drain_view(before).0 =~= Seq::<PresenceConfigView>::empty());
                assert(res@.map_values(|c: PresenceConfig| c@) + drain_view(before).0
                    =~= res@.map_values(|c: PresenceConfig| c@));
                return res;
            },
        }
    }
}

/// The settings block that sends `cfg` to the daemon.
pub fn set_config_message(cfg: &PresenceConfig) -> (res: String)
    ensures
        res@ == set_config_message_view(cfg@),
{
    let mut msg = String::from_str("SET_CONFIG\n");
    let body = cfg.serialize();
    msg.append(body.as_str());
    msg.append("END\n");
    msg
}

// ───────────────────────────── state ─────────────────────────────
/// The `STATE` line that the daemon pushes, with its `'\n'`.
pub open spec fn state_message_view(prox: Seq<char>, attn: Seq<char>) -> Seq<char> {
    "STATE presence="@ + prox + " attention="@ + attn + seq!['\n']
}

/// The presence and attention states in a `STATE` line: what follows `STATE presence=` up to
/// the first ` attention=`, and what follows that.
pub open spec fn state_line_view(line: Seq<char>) -> Option<(Seq<char>, Seq<char>)> {
    if starts_with(line, "STATE presence="@) {
        let rest = line.skip("STATE presence="@.len() as int);
        match find(rest, " attention="@) {
            Some(k) => Some((rest.take(k), rest.skip(k + " attention="@.len()))),
            None => None,
        }
    } else {
        None
    }
}

/// The `STATE` line for the given presence and attention states.
pub fn state_message(prox: &str, attn: &str) -> (res: String)
    ensures
        res@ == state_message_view(prox@, attn@),
{
    let mut msg = String::from_str("STATE presence=");
    msg.append(prox);
    msg.append(" attention=");
    msg.append(attn);
    msg.push('\n');
    msg
}

/// Reads a `STATE` line (without its line end) into the presence and attention states.
pub fn parse_state_line(line: &str) -> (res: Option<(String, String)>)
    ensures
        match state_line_view(line@) {
            Some((p, a)) => res matches Some((rp, ra)) && rp@ == p && ra@ == a,
            None => res is None,
        },
{
    let cs = chars_of(line);
    if !starts_with_str(cs.as_slice(), "STATE presence=") {
        return None;
    }
    let prefix = chars_of("STATE presence=");
    let rest = sub_chars(cs.as_slice(), prefix.len(), cs.len());
    assert(rest@ =~= line@.skip(prefix@.len() as int));
    let sep = chars_of(" attention=");
    match find_chars(rest.as_slice(), sep.as_slice()) {
        Some(k) => {
            proof {
                lemma_find(rest@, sep@);
            }
            let p = sub_chars(rest.as_slice(), 0, k);
            let a = sub_chars(rest.as_slice(), k + sep.len(), rest.len());
            assert(p@ =~= rest@.take(k as int));
            assert(a@ =~= rest@.skip(k + sep@.len()));
            Some((string_of(p.as_slice()), string_of(a.as_slice())))
        },
        None => None,
    }
}

/// The state file that the daemon writes.
pub open spec fn state_file_view(prox: Seq<char>, attn: Seq<char>) -> Seq<char> {
    "presence="@ + prox + seq!['\n'] + "attention="@ + attn + seq!['\n']
}

/// What reading the lines `ls` of a state file leaves shown: the presence state from the last
/// line that begins with `presence=`, and the attention state from the last line that
/// begins with `attention=` (and not with `presence=`).
pub open spec fn state_file_lines(ls: Seq<Seq<char>>) -> (Option<Seq<char>>, Option<Seq<char>>)
    decreases ls.len(),
{
    if ls.len() == 0 {
        (None, None)
    } else {
        let (p, a) = state_file_lines(ls.drop_last());
        let l = ls.last();
        if starts_with(l, "presence="@) {
            (Some(l.skip("presence="@.len() as int)), a)
        } else if starts_with(l, "attention="@) {
            (p, Some(l.skip("attention="@.len() as int)))
        } else {
            (p, a)
        }
    }
}

/// The state file for the given presence and attention states.
pub fn state_file_content(prox: &str, attn: &str) -> (res: String)
    ensures
        res@ == state_file_view(prox@, attn@),
{
    let mut s = String::from_str("presence=");
    s.append(prox);
    s.push('\n');
    s.append("attention=");
    s.append(attn);
    s.push('\n');
    s
}

/// Reads a state file into the presence and attention states it shows, each where a line
/// gives it.
pub fn read_state_file(content: &str) -> (res: (Option<String>, Option<String>))
    ensures
        ({
            let (p, a) = state_file_lines(lines(content@));
            &&& (res.0 matches Some(s) ==> p == Some(s@))
            &&& (res.0 is None ==> p is None)
            &&& (res.1 matches Some(s) ==> a == Some(s@))
            &&& (res.1 is None ==> a is None)
        }),
{
    let cs = chars_of(content);
    let ls = lines_of(cs.as_slice());
    let ghost lv = ls@.map_values(|l: Vec<char>| l@);
    let pre_p = chars_of("presence=");
    let pre_a = chars_of("attention=");
    let mut prox: Option<String> = None;
    let mut attn: Option<String> = None;
    assert(lv.take(0) =~= Seq::<Seq<char>>::empty());
    let mut i: usize = 0;
    while i < ls.len()
        invariant
            i <= ls@.len(),
            lv == ls@.map_values(|l: Vec<char>| l@),
            lv == lines(content@),
            pre_p@ == "presence="@,
            pre_a@ == "attention="@,
            ({
                let (p, a) = state_file_lines(lv.take(i as int));
                &&& (prox matches Some(s) ==> p == Some(s@))
                &&& (prox is None ==> p is None)
                &&& (attn matches Some(s) ==> a == Some(s@))
                &&& (attn is None ==> a is None)
            }),
        decreases ls@.len() - i,
    {
        let line = &ls[i];
        assert(lv.take(i + 1) =~= lv.take(i as int).push(lv[i as int]));
        assert(lv.take(i + 1).drop_last() =~= lv.take(i as int));
        if starts_with_str(line.as_slice(), "presence=") {
            let v = sub_chars(line.as_slice(), pre_p.len(), line.len());
            assert(v@ =~= line@.skip(pre_p@.len() as int));
            prox = Some(string_of(v.as_slice()));
        } else if starts_with_str(line.as_slice(), "attention=") {
            let v = sub_chars(line.as_slice(), pre_a.len(), line.len());
            assert(v@ =~= line@.skip(pre_a@.len() as int));
            attn = Some(string_of(v.as_slice()));
        }
        i = i + 1;
    }
    assert(lv.take(ls@.len() as int) =~= lv);
    (prox, attn)
}

} // verus!

verus! {

// ───────────────────────────── laws ─────────────────────────────
/// Joined lines end with a line break.
proof fn lemma_join_lines_ends(ls: Seq<Seq<char>>)
    requires
        ls.len() > 0,
    ensures
        crate::presence_config::join_lines(ls).len() > 0,
        crate::presence_config::join_lines(ls).last() == '\n',
    decreases ls.len(),
{
    let rest = ls.drop_first();
    let j = crate::presence_config::join_lines(ls);
    assert(j == ls[0] + seq!['\n'] + crate::presence_config::join_lines(rest));
    if rest.len() > 0 {
        lemma_join_lines_ends(rest);
        assert(j.last() == crate::presence_config::join_lines(rest).last());
    } else {
        assert(crate::presence_config::join_lines(rest) =~= Seq::<char>::empty());
        assert(j.last() == '\n');
    }
}

/// The daemon reads back the settings that the settings page sends: a settings block followed
/// by anything else yields those settings and leaves the rest in the buffer. This holds when
/// no text setting holds a line break or begins or ends with whitespace, and the text form
/// does not itself hold the closing `END\n` line.
pub proof fn law_set_config_frame(v: PresenceConfigView, rest: Seq<char>)
    requires
        clean_view(v),
        !contains(serialize_view(v), set_config_end()),
    ensures
        set_config_frame(set_config_message_view(v) + rest) matches Some((body, r)) && parse_view(
            body,
        ) == v && r == rest,
{
    reveal_strlit("SET_CONFIG\n");
    reveal_strlit("END\n");
    let ser = serialize_view(v);
    let cmd = set_config_cmd();
    let end = set_config_end();
    let s = set_config_message_view(v) + rest;
    law_parse_serialize_roundtrip(v);
    lemma_join_lines_ends(crate::presence_config::setting_lines(v));
    assert(s.subrange(0, 11) =~= cmd);
    assert(occurs_at(s, cmd, 0));
    assert(find(s, cmd) == Some(0int));
    let e: int = 11 + ser.len() as int;
    assert(s.subrange(e, e + 4) =~= end);
    assert(occurs_at(s, end, e));
    lemma_find_from(s, end, 11);
    let k = find_from(s, end, 11)->0;
    if k < e {
        assert(occurs_at(s, end, k));
        if k + 4 <= e {
            assert(s.subrange(k, k + 4) =~= ser.subrange(k - 11, k - 11 + 4));
            assert(occurs_at(ser, end, k - 11));
            assert(contains(ser, end));
        } else {
            let m = e - 1 - k;
            assert(s[e - 1] == ser.last());
            assert(s[e - 1] == s.subrange(k, k + 4)[m]);
            assert(end[m] != '\n');
        }
    }
    assert(find_from(s, end, 11) == Some(e));
    assert(s.subrange(11, e) =~= ser);
    assert(s.skip(e + 4) =~= rest);
}

/// In `p + sep + a`, where `p` holds no separator ` attention=`, the first separator is the
/// one right after `p`: the separator's only space is its first character, so no occurrence
/// can begin inside `p` and run into the separator after it.
proof fn lemma_state_separator(p: Seq<char>, a: Seq<char>)
    requires
        !contains(p, " attention="@),
    ensures
        find(p + " attention="@ + a, " attention="@) == Some(p.len() as int),
{
    reveal_strlit(" attention=");
    let sep = " attention="@;
    let rest = p + sep + a;
    lemma_separator_chars();
    assert(rest.subrange(p.len() as int, p.len() as int + 11) =~= sep);
    assert(occurs_at(rest, sep, p.len() as int));
    lemma_find(rest, sep);
    assert(find(rest, sep) is Some);
    let k = find(rest, sep)->0;
    assert(occurs_at(rest, sep, k));
    if k < p.len() {
        lemma_no_separator_before(p, a, k);
    }
    if k > p.len() {
        assert(!occurs_at(rest, sep, p.len() as int));
    }
}

/// Characters of the separator ` attention=`.
proof fn lemma_separator_chars()
    ensures
        " attention="@.len() == 11,
        " attention="@[0] == ' ',
        forall|i: int| 1 <= i < 11 ==> " attention="@[i] != ' ',
{
    reveal_strlit(" attention=");
}

/// No separator begins inside `p` when `p` holds none.
proof fn lemma_no_separator_before(p: Seq<char>, a: Seq<char>, k: int)
    requires
        !contains(p, " attention="@),
        0 <= k < p.len(),
    ensures
        !occurs_at(p + " attention="@ + a, " attention="@, k),
{
    lemma_separator_chars();
    let sep = " attention="@;
    let rest = p + sep + a;
    if occurs_at(rest, sep, k) {
        if k + 11 <= p.len() {
            assert(p.subrange(k, k + 11) =~= rest.subrange(k, k + 11));
            assert(occurs_at(p, sep, k));
            lemma_find(p, sep);
        } else {
            let j = p.len() - k;
            assert(rest.subrange(k, k + 11)[j] == rest[k + j]);
            assert(rest[k + j] == sep[0]);
        }
    }
}

/// The `STATE` line, without its line end, holds no line break.
proof fn lemma_state_line_one_line(p: Seq<char>, a: Seq<char>)
    requires
        forall|j: int| 0 <= j < p.len() ==> p[j] != '\n',
        forall|j: int| 0 <= j < a.len() ==> a[j] != '\n',
    ensures
        forall|j: int|
            0 <= j < ("STATE presence="@ + p + " attention="@ + a).len() ==> ("STATE presence="@ + p
                + " attention="@ + a)[j] != '\n',
{
    reveal_strlit("STATE presence=");
    reveal_strlit(" attention=");
    let pre = "STATE presence="@;
    let sep = " attention="@;
    let line = pre + p + sep + a;
    assert forall|j: int| 0 <= j < line.len() implies line[j] != '\n' by {
        if j < pre.len() {
            assert(line[j] == pre[j]);
        } else if j < pre.len() + p.len() {
            assert(line[j] == p[j - pre.len()]);
        } else if j < pre.len() + p.len() + sep.len() {
            assert(line[j] == sep[j - pre.len() - p.len()]);
        } else {
            assert(line[j] == a[j - pre.len() - p.len() - sep.len()]);
        }
    }
}

/// The line that the daemon pushes is one line that reads back as the same presence and
/// attention states, when the presence state holds no ` attention=`, neither holds a line
/// break, and the attention state does not end in `'\r'`.
pub proof fn law_state_line_roundtrip(p: Seq<char>, a: Seq<char>)
    requires
        forall|j: int| 0 <= j < p.len() ==> p[j] != '\n',
        !contains(p, " attention="@),
        forall|j: int| 0 <= j < a.len() ==> a[j] != '\n',
        a.len() > 0 ==> a.last() != '\r',
    ensures
        lines(state_message_view(p, a)) == seq!["STATE presence="@ + p + " attention="@ + a],
        state_line_view("STATE presence="@ + p + " attention="@ + a) == Some((p, a)),
{
    reveal_strlit("STATE presence=");
    reveal_strlit(" attention=");
    let pre = "STATE presence="@;
    let sep = " attention="@;
    let line = pre + p + sep + a;
    lemma_state_line_one_line(p, a);
    lemma_lines_cons(line, Seq::empty());
    assert(line + seq!['\n'] + Seq::<char>::empty() =~= state_message_view(p, a));
    assert(lines(Seq::<char>::empty()) =~= Seq::<Seq<char>>::empty());
    if a.len() > 0 {
        assert(line.last() == a.last());
    } else {
        assert(line.last() == '=');
    }
    assert(strip_cr(line) == line);
    assert(seq![line] + Seq::<Seq<char>>::empty() =~= seq![line]);
    assert(line.subrange(0, pre.len() as int) =~= pre);
    let rest = line.skip(pre.len() as int);
    assert(rest =~= p + sep + a);
    lemma_state_separator(p, a);
    assert(rest.take(p.len() as int) =~= p);
    assert(rest.skip(p.len() as int + sep.len() as int) =~= a);
}

/// Reading the state file that the daemon writes shows the same presence and attention states,
/// when neither holds a line break or ends in `'\r'`.
pub proof fn law_state_file_roundtrip(p: Seq<char>, a: Seq<char>)
    requires
        forall|j: int| 0 <= j < p.len() ==> p[j] != '\n',
        forall|j: int| 0 <= j < a.len() ==> a[j] != '\n',
        p.len() > 0 ==> p.last() != '\r',
        a.len() > 0 ==> a.last() != '\r',
    ensures
        state_file_lines(lines(state_file_view(p, a))) == (Some(p), Some(a)),
{
    reveal_strlit("presence=");
    reveal_strlit("attention=");
    let lp = "presence="@ + p;
    let la = "attention="@ + a;
    assert forall|j: int| 0 <= j < lp.len() implies lp[j] != '\n' by {
        if j < 9 {
            assert(lp[j] == "presence="@[j]);
        } else {
            assert(lp[j] == p[j - 9]);
        }
    }
    assert forall|j: int| 0 <= j < la.len() implies la[j] != '\n' by {
        if j < 10 {
            assert(la[j] == "attention="@[j]);
        } else {
            assert(la[j] == a[j - 10]);
        }
    }
    lemma_lines_cons(la, Seq::empty());
    lemma_lines_cons(lp, la + seq!['\n'] + Seq::empty());
    assert(lp + seq!['\n'] + (la + seq!['\n'] + Seq::<char>::empty()) =~= state_file_view(p, a));
    assert(lines(Seq::<char>::empty()) =~= Seq::<Seq<char>>::empty());
    if p.len() > 0 {
        assert(lp.last() == p.last());
    }
    if a.len() > 0 {
        assert(la.last() == a.last());
    }
    assert(strip_cr(lp) == lp);
    assert(strip_cr(la) == la);
    let ls = lines(state_file_view(p, a));
    assert(ls =~= seq![lp, la]);
    assert(ls.drop_last() =~= seq![lp]);
    assert(ls.drop_last().drop_last() =~= Seq::<Seq<char>>::empty());
    assert(state_file_lines(Seq::<Seq<char>>::empty()) == (None::<Seq<char>>, None::<Seq<char>>));
    assert(la.subrange(0, 10) =~= "attention="@);
    assert(!starts_with(la, "presence="@)) by {
        assert(la.subrange(0, 9)[0] != "presence="@[0]);
    }
    assert(lp.subrange(0, 9) =~= "presence="@);
    assert(la.skip(10) =~= a);
    assert(lp.skip(9) =~= p);
    assert(starts_with(lp, "presence="@));
    assert(starts_with(la, "attention="@));
    assert(state_file_lines(seq![lp]) == (Some(p), None::<Seq<char>>));
    assert(state_file_lines(ls) == (Some(p), Some(a)));
}

/// The settings blocks that carry each of `vs`, one after another.
pub open spec fn messages_view(vs: Seq<PresenceConfigView>) -> Seq<char>
    decreases vs.len(),
{
    if vs.len() == 0 {
        Seq::empty()
    } else {
        set_config_message_view(vs[0]) + messages_view(vs.drop_first())
    }
}

/// The daemon reads every settings block that the settings page sent, in the order sent, and
/// keeps what follows them (when that holds no complete block) for later. This holds of
/// settings whose text form carries them unchanged (as in `law_set_config_frame`).
pub proof fn law_drain_messages(vs: Seq<PresenceConfigView>, tail: Seq<char>)
    requires
        forall|i: int|
            0 <= i < vs.len() ==> clean_view(#[trigger] vs[i]) && !contains(
                serialize_view(vs[i]),
                set_config_end(),
            ),
        set_config_frame(tail) is None,
    ensures
        drain_view(messages_view(vs) + tail) == (vs, tail),
    decreases vs.len(),
{
    if vs.len() == 0 {
        assert(messages_view(vs) + tail =~= tail);
    } else {
        let rest = vs.drop_first();
        assert forall|i: int|
            0 <= i < rest.len() implies clean_view(#[trigger] rest[i]) && !contains(
                serialize_view(rest[i]),
                set_config_end(),
            ) by {
            assert(rest[i] == vs[i + 1]);
        }
        law_drain_messages(rest, tail);
        let after = messages_view(rest) + tail;
        law_set_config_frame(vs[0], after);
        let s = messages_view(vs) + tail;
        assert(s =~= set_config_message_view(vs[0]) + after);
        lemma_frame_shrinks(s);
        assert(seq![vs[0]] + rest =~= vs);
    }
}

} // verus!
