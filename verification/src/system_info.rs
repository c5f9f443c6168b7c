//! The system overview: device model, operating system, CPU model and caches, and GPU model,
//! each read from the text that the system tools and files give.
use vstd::prelude::*;
use crate::text::{
    chars_eq_str, chars_of, contains, contains_str, index_of, index_of_from, lemma_index_of,
    lemma_index_of_unique, lines, lines_of, lowercase_view, starts_with, starts_with_str,
    string_of, sub_chars, to_lowercase, trim, trim_chars,
};

verus! {

/// The view of an optional string.
pub open spec fn opt_view(o: Option<&str>) -> Option<Seq<char>> {
    match o {
        Some(s) => Some(s@),
        None => None,
    }
}

/// "Unknown" for an empty name or one that reads "unknown" in any case; else the name.
pub fn device_model(product_name: &str) -> (res: String)
    ensures
        (product_name@.len() == 0 || lowercase_view(product_name@) == "unknown"@) ==> res@
            == "Unknown"@,
        !(product_name@.len() == 0 || lowercase_view(product_name@) == "unknown"@) ==> res@
            == product_name@,
{
    let lower = to_lowercase(product_name);
    let lc = chars_of(lower.as_str());
    if product_name.is_empty() || chars_eq_str(lc.as_slice(), "unknown") {
        String::from_str("Unknown")
    } else {
        String::from_str(product_name)
    }
}

/// `s` without any leading or trailing `c`.
pub open spec fn trim_char(s: Seq<char>, c: char) -> Seq<char>
    decreases s.len(),
{
    if s.len() > 0 && s[0] == c {
        trim_char(s.drop_first(), c)
    } else if s.len() > 0 && s.last() == c {
        trim_char(s.drop_last(), c)
    } else {
        s
    }
}

/// `s` without any leading or trailing `c`.
fn trim_char_chars(s: &[char], c: char) -> (res: Vec<char>)
    ensures
        res@ == trim_char(s@, c),
{
    let mut lo: usize = 0;
    let mut hi: usize = s.len();
    assert(s@.subrange(0, s@.len() as int) =~= s@);
    while lo < hi && (s[lo] == c || s[hi - 1] == c)
        invariant
            lo <= hi <= s@.len(),
            trim_char(s@, c) == trim_char(s@.subrange(lo as int, hi as int), c),
        decreases hi - lo,
    {
        let ghost t = s@.subrange(lo as int, hi as int);
        if s[lo] == c {
            assert(t.drop_first() =~= s@.subrange(lo + 1, hi as int));
            lo = lo + 1;
        } else {
            assert(t.drop_last() =~= s@.subrange(lo as int, hi - 1));
            hi = hi - 1;
        }
    }
    sub_chars(s, lo, hi)
}

/// The first line of `ls` that begins with `prefix`, without the prefix.
pub open spec fn first_with_prefix(ls: Seq<Seq<char>>, prefix: Seq<char>) -> Option<Seq<char>>
    decreases ls.len(),
{
    if ls.len() == 0 {
        None
    } else if starts_with(ls[0], prefix) {
        Some(ls[0].skip(prefix.len() as int))
    } else {
        first_with_prefix(ls.drop_first(), prefix)
    }
}

/// The operating system's name that the contents of `/etc/os-release` give.
pub open spec fn os_name_view(os_release: Option<Seq<char>>) -> Seq<char> {
    match os_release {
        Some(c) => match first_with_prefix(lines(c), "PRETTY_NAME="@) {
            Some(v) => trim_char(trim(v), '"'),
            None => "Unknown"@,
        },
        None => "Unknown"@,
    }
}

/// The operating system's name from `/etc/os-release`: the `PRETTY_NAME=` value, trimmed and
/// without surrounding quotes; "Unknown" without such a line or file.
pub fn os_pretty_name(os_release: Option<&str>) -> (res: String)
    ensures
        res@ == os_name_view(opt_view(os_release)),
{
    if let Some(content) = os_release {
        let cs = chars_of(content);
        let ls = lines_of(cs.as_slice());
        let ghost lv = ls@.map_values(|l: Vec<char>| l@);
        let prefix = chars_of("PRETTY_NAME=");
        let mut i: usize = 0;
        assert(lv.skip(0) =~= lv);
        while i < ls.len()
            invariant
                i <= ls@.len(),
                lv == ls@.map_values(|l: Vec<char>| l@),
                lv == lines(content@),
                os_release == Some(content),
                prefix@ == "PRETTY_NAME="@,
                first_with_prefix(lv, prefix@) == first_with_prefix(lv.skip(i as int), prefix@),
            decreases ls@.len() - i,
        {
            assert(lv.skip(i as int)[0] == ls@[i as int]@);
            assert(lv.skip(i as int).drop_first() =~= lv.skip(i + 1));
            let line = &ls[i];
            if starts_with_str(line.as_slice(), "PRETTY_NAME=") {
                let rest = sub_chars(line.as_slice(), prefix.len(), line.len());
                assert(rest@ =~= line@.skip(prefix@.len() as int));
                assert(starts_with(lv.skip(i as int)[0], "PRETTY_NAME="@));
                assert(first_with_prefix(lv.skip(i as int), "PRETTY_NAME="@) == Some(
                    line@.skip(prefix@.len() as int),
                ));
                let t = trim_chars(rest.as_slice());
                let u = trim_char_chars(t.as_slice(), '"');
                return string_of(u.as_slice());
            }
            i = i + 1;
        }
        assert(lv.skip(i as int) =~= Seq::<Seq<char>>::empty());
    }
    String::from_str("Unknown")
}

/// The value of the first `/proc/cpuinfo` line whose lowercase form begins with `key` and
/// that holds a `':'`: what follows the first `':'`, trimmed.
pub open spec fn cpuinfo_value_view(ls: Seq<Seq<char>>, key: Seq<char>) -> Option<Seq<char>>
    decreases ls.len(),
{
    if ls.len() == 0 {
        None
    } else if starts_with(lowercase_view(ls[0]), key) && index_of(ls[0], ':') < ls[0].len() {
        Some(trim(ls[0].skip(index_of(ls[0], ':') + 1)))
    } else {
        cpuinfo_value_view(ls.drop_first(), key)
    }
}

/// The value of the first `/proc/cpuinfo` line for `key` (compared in lowercase).
pub fn cpuinfo_value(cpuinfo: &str, key: &str) -> (res: Option<String>)
    ensures
        match cpuinfo_value_view(lines(cpuinfo@), key@) {
            Some(v) => res matches Some(s) && s@ == v,
            None => res is None,
        },
{
    let cs = chars_of(cpuinfo);
    let ls = lines_of(cs.as_slice());
    let ghost lv = ls@.map_values(|l: Vec<char>| l@);
    let mut i: usize = 0;
    assert(lv.skip(0) =~= lv);
    while i < ls.len()
        invariant
            i <= ls@.len(),
            lv == ls@.map_values(|l: Vec<char>| l@),
            lv == lines(cpuinfo@),
            cpuinfo_value_view(lv, key@) == cpuinfo_value_view(lv.skip(i as int), key@),
        decreases ls@.len() - i,
    {
        assert(lv.skip(i as int)[0] == ls@[i as int]@);
        assert(lv.skip(i as int).drop_first() =~= lv.skip(i + 1));
        let line = &ls[i];
        let text = string_of(line.as_slice());
        let lower = to_lowercase(text.as_str());
        let lc = chars_of(lower.as_str());
        let kc = chars_of(key);
        let is_key = kc.len() <= lc.len() && chars_eq_str(sub_chars(lc.as_slice(), 0, kc.len()).as_slice(), key);
        proof {
            lemma_index_of(line@, ':');
        }
        if is_key {
            let colon = index_of_from(line.as_slice(), ':', 0);
            assert(line@.subrange(0, line@.len() as int) =~= line@);
            if colon < line.len() {
                let rest = sub_chars(line.as_slice(), colon + 1, line.len());
                assert(rest@ =~= line@.skip(colon + 1));
                let t = trim_chars(rest.as_slice());
                return Some(string_of(t.as_slice()));
            }
        }
        i = i + 1;
    }
    assert(lv.skip(i as int) =~= Seq::<Seq<char>>::empty());
    None
}

/// The CPU model: lscpu's "model name" when it gave one, else the `/proc/cpuinfo` "model name"
/// line, else "Unknown".
pub fn cpu_model(lscpu_model: Option<&str>, cpuinfo: Option<&str>) -> (res: String)
    ensures
        match lscpu_model {
            Some(m) => res@ == m@,
            None => match cpuinfo {
                Some(c) => match cpuinfo_value_view(lines(c@), "model name"@) {
                    Some(v) => res@ == v,
                    None => res@ == "Unknown"@,
                },
                None => res@ == "Unknown"@,
            },
        },
{
    if let Some(m) = lscpu_model {
        return String::from_str(m);
    }
    if let Some(c) = cpuinfo {
        if let Some(v) = cpuinfo_value(c, "model name") {
            return v;
        }
    }
    String::from_str("Unknown")
}

/// The cache summary: the L1 part ("L1d D / L1i I", or whichever of the two is known), then
/// "L2 X" and "L3 Y" where known, joined by " | "; "Unknown" when none is known.
pub open spec fn cache_parts(
    l1d: Option<Seq<char>>,
    l1i: Option<Seq<char>>,
    l2: Option<Seq<char>>,
    l3: Option<Seq<char>>,
) -> Seq<Seq<char>> {
    let l1: Seq<Seq<char>> = match (l1d, l1i) {
        (Some(d), Some(i)) => seq!["L1d "@ + d + " / L1i "@ + i],
        (Some(d), None) => seq![d],
        (None, Some(i)) => seq![i],
        (None, None) => seq![],
    };
    let p2: Seq<Seq<char>> = match l2 {
        Some(x) => seq!["L2 "@ + x],
        None => seq![],
    };
    let p3: Seq<Seq<char>> = match l3 {
        Some(x) => seq!["L3 "@ + x],
        None => seq![],
    };
    l1 + p2 + p3
}

/// `parts` joined with `sep` between them.
pub open spec fn join_with(parts: Seq<Seq<char>>, sep: Seq<char>) -> Seq<char>
    decreases parts.len(),
{
    if parts.len() == 0 {
        Seq::empty()
    } else if parts.len() == 1 {
        parts[0]
    } else {
        join_with(parts.drop_last(), sep) + sep + parts.last()
    }
}

/// Appends a part, with " | " before it unless it is the first.
fn push_part(out: &mut String, Ghost(done): Ghost<Seq<Seq<char>>>, first: bool, part: &str)
    requires
        old(out)@ == join_with(done, " | "@),
        first == (done.len() == 0),
    ensures
        final(out)@ == join_with(done.push(part@), " | "@),
{
    let ghost d2 = done.push(part@);
    assert(d2.drop_last() =~= done);
    if first {
        assert(old(out)@ =~= Seq::<char>::empty());
    } else {
        out.append(" | ");
    }
    out.append(part);
    assert(final(out)@ =~= join_with(d2, " | "@));
}

/// The CPU cache summary from lscpu's L1d, L1i, L2 and L3 cache sizes.
pub fn cpu_cache_summary(
    l1d: Option<&str>,
    l1i: Option<&str>,
    l2: Option<&str>,
    l3: Option<&str>,
) -> (res: String)
    ensures
        ({
            let parts = cache_parts(opt_view(l1d), opt_view(l1i), opt_view(l2), opt_view(l3));
            if parts.len() == 0 {
                res@ == "Unknown"@
            } else {
                res@ == join_with(parts, " | "@)
            }
        }),
{
    let mut out = String::new();
    let ghost mut done: Seq<Seq<char>> = Seq::empty();
    let mut count: usize = 0;
    match (l1d, l1i) {
        (Some(d), Some(i)) => {
            let mut p = String::from_str("L1d ");
            p.append(d);
            p.append(" / L1i ");
            p.append(i);
            push_part(&mut out, Ghost(done), count == 0, p.as_str());
            proof {
                done = done.push(p@);
            }
            count = count + 1;
        },
        (Some(d), None) => {
            push_part(&mut out, Ghost(done), count == 0, d);
            proof {
                done = done.push(d@);
            }
            count = count + 1;
        },
        (None, Some(i)) => {
            push_part(&mut out, Ghost(done), count == 0, i);
            proof {
                done = done.push(i@);
            }
            count = count + 1;
        },
        (None, None) => {},
    }
    if let Some(x) = l2 {
        let mut p = String::from_str("L2 ");
        p.append(x);
        push_part(&mut out, Ghost(done), count == 0, p.as_str());
        proof {
            done = done.push(p@);
        }
        count = count + 1;
    }
    if let Some(x) = l3 {
        let mut p = String::from_str("L3 ");
        p.append(x);
        push_part(&mut out, Ghost(done), count == 0, p.as_str());
        proof {
            done = done.push(p@);
        }
        count = count + 1;
    }
    assert(done =~= cache_parts(opt_view(l1d), opt_view(l1i), opt_view(l2), opt_view(l3)));
    assert(count == done.len());
    if count == 0 {
        return String::from_str("Unknown");
    }
    out
}

} // verus!

verus! {

// ───────────────────────────── lscpu ─────────────────────────────
/// The entry of one `lscpu` line: the lowercase trimmed text before the first `':'` and the
/// trimmed text after it; none for an empty line or one without `':'`.
pub open spec fn lscpu_entry(line: Seq<char>) -> Option<(Seq<char>, Seq<char>)> {
    let i = index_of(line, ':');
    if line.len() == 0 || i >= line.len() {
        None
    } else {
        Some((lowercase_view(trim(line.take(i))), trim(line.skip(i + 1))))
    }
}

/// The entries of the `lscpu` lines `ls`, in order.
pub open spec fn lscpu_entries(ls: Seq<Seq<char>>) -> Seq<(Seq<char>, Seq<char>)>
    decreases ls.len(),
{
    if ls.len() == 0 {
        Seq::empty()
    } else {
        match lscpu_entry(ls.last()) {
            Some(e) => lscpu_entries(ls.drop_last()).push(e),
            None => lscpu_entries(ls.drop_last()),
        }
    }
}

/// The view of `lscpu` entries.
pub open spec fn entries_view(es: Seq<(String, String)>) -> Seq<(Seq<char>, Seq<char>)> {
    es.map_values(|e: (String, String)| (e.0@, e.1@))
}

/// The `key: value` entries of `lscpu` output, keys in lowercase, in order.
pub fn parse_lscpu(output: &str) -> (res: Vec<(String, String)>)
    ensures
        entries_view(res@) == lscpu_entries(lines(output@)),
{
    let cs = chars_of(output);
    let ls = lines_of(cs.as_slice());
    let ghost lv = ls@.map_values(|l: Vec<char>| l@);
    let mut res: Vec<(String, String)> = Vec::new();
    let mut i: usize = 0;
    assert(lv.take(0) =~= Seq::<Seq<char>>::empty());
    assert(entries_view(res@) =~= Seq::<(Seq<char>, Seq<char>)>::empty());
    while i < ls.len()
        invariant
            i <= ls@.len(),
            lv == ls@.map_values(|l: Vec<char>| l@),
            lv == lines(output@),
            entries_view(res@) == lscpu_entries(lv.take(i as int)),
        decreases ls@.len() - i,
    {
        let line = &ls[i];
        assert(lv.take(i + 1).drop_last() =~= lv.take(i as int));
        assert(lv.take(i + 1).last() == line@);
        proof {
            lemma_index_of(line@, ':');
        }
        let colon = index_of_from(line.as_slice(), ':', 0);
        assert(line@.subrange(0, line@.len() as int) =~= line@);
        if line.len() > 0 && colon < line.len() {
            let k0 = sub_chars(line.as_slice(), 0, colon);
            let v0 = sub_chars(line.as_slice(), colon + 1, line.len());
            assert(k0@ =~= line@.take(colon as int));
            assert(v0@ =~= line@.skip(colon + 1));
            let kt = trim_chars(k0.as_slice());
            let ks = string_of(kt.as_slice());
            let key = to_lowercase(ks.as_str());
            let vt = trim_chars(v0.as_slice());
            let value = string_of(vt.as_slice());
            let ghost before = res@;
            res.push((key, value));
            assert(entries_view(res@) =~= entries_view(before).push((key@, value@)));
        }
        i = i + 1;
    }
    assert(lv.take(ls@.len() as int) =~= lv);
    res
}

/// The value of the last entry with key `key`.
pub open spec fn entries_lookup(es: Seq<(Seq<char>, Seq<char>)>, key: Seq<char>) -> Option<
    Seq<char>,
>
    decreases es.len(),
{
    if es.len() == 0 {
        None
    } else if es.last().0 == key {
        Some(es.last().1)
    } else {
        entries_lookup(es.drop_last(), key)
    }
}

/// The value of the last `lscpu` entry with key `key` (a later line overrides an earlier one).
pub fn lscpu_get(entries: &[(String, String)], key: &str) -> (res: Option<String>)
    ensures
        match entries_lookup(entries_view(entries@), key@) {
            Some(v) => res matches Some(s) && s@ == v,
            None => res is None,
        },
{
    let kc = chars_of(key);
    let mut i: usize = entries.len();
    let ghost ev = entries_view(entries@);
    assert(ev.take(ev.len() as int) =~= ev);
    while i > 0
        invariant
            i <= entries@.len(),
            ev == entries_view(entries@),
            kc@ == key@,
            entries_lookup(ev, key@) == entries_lookup(ev.take(i as int), key@),
        decreases i,
    {
        let e = &entries[i - 1];
        let ec = chars_of(e.0.as_str());
        assert(ev.take(i as int).last() == (e.0@, e.1@));
        assert(ev.take(i as int).drop_last() =~= ev.take(i - 1));
        if crate::text::chars_eq(ec.as_slice(), kc.as_slice()) {
            return Some(e.1.clone());
        }
        i = i - 1;
    }
    None
}

// ───────────────────────────── GPU ─────────────────────────────
/// What one `lspci` line says of the GPU.
pub enum GpuLine {
    /// Not a display controller line, or no name in it.
    Skip,
    /// The controller's name.
    Found(Seq<char>),
    /// A display controller line whose `']'` comes before its `'['` (reading it fails).
    Malformed,
}

/// A display controller line: its lowercase form mentions "vga", "3d controller" or
/// "display controller".
pub open spec fn is_gpu_line(line: Seq<char>) -> bool {
    let lc = lowercase_view(line);
    contains(lc, "vga"@) || contains(lc, "3d controller"@) || contains(lc, "display controller"@)
}

/// The name in the third `':'`-separated field of a line, up to its first `'('`, trimmed.
pub open spec fn third_field_name(line: Seq<char>) -> Seq<char> {
    let c1 = index_of(line, ':');
    let rest1 = line.skip(c1 + 1);
    let c2 = index_of(rest1, ':');
    let third = rest1.skip(c2 + 1);
    trim(third.take(index_of(third, '(')))
}

/// A line has at least two `':'`.
pub open spec fn has_three_fields(line: Seq<char>) -> bool {
    let c1 = index_of(line, ':');
    c1 < line.len() && index_of(line.skip(c1 + 1), ':') < line.skip(c1 + 1).len()
}

/// What a line says of the GPU: the trimmed text between its first `'['` and first `']'`
/// when both are there and it is not empty, else the name in its third field when that is
/// not empty.
pub open spec fn gpu_line_view(line: Seq<char>) -> GpuLine {
    if !is_gpu_line(line) {
        GpuLine::Skip
    } else {
        let s = index_of(line, '[');
        let e = index_of(line, ']');
        if s < line.len() && e < line.len() && e < s {
            GpuLine::Malformed
        } else if s < line.len() && e < line.len() && trim(line.subrange(s + 1, e)).len() > 0 {
            GpuLine::Found(trim(line.subrange(s + 1, e)))
        } else if has_three_fields(line) && third_field_name(line).len() > 0 {
            GpuLine::Found(third_field_name(line))
        } else {
            GpuLine::Skip
        }
    }
}

/// What the first line that says anything of the GPU says.
pub open spec fn gpu_scan(ls: Seq<Seq<char>>) -> GpuLine
    decreases ls.len(),
{
    if ls.len() == 0 {
        GpuLine::Skip
    } else {
        match gpu_line_view(ls[0]) {
            GpuLine::Skip => gpu_scan(ls.drop_first()),
            r => r,
        }
    }
}

/// Reads one line: 0 to skip it, 1 with the name found, 2 when it is malformed.
fn gpu_line(line: &[char]) -> (res: (u8, Vec<char>))
    ensures
        match gpu_line_view(line@) {
            GpuLine::Skip => res.0 == 0,
            GpuLine::Found(n) => res.0 == 1 && res.1@ == n,
            GpuLine::Malformed => res.0 == 2,
        },
{
    let text = string_of(line);
    let lower = to_lowercase(text.as_str());
    let lc = chars_of(lower.as_str());
    if !(contains_str(lc.as_slice(), "vga") || contains_str(lc.as_slice(), "3d controller")
        || contains_str(lc.as_slice(), "display controller")) {
        return (0, Vec::new());
    }
    let n = line.len();
    assert(line@.subrange(0, n as int) =~= line@);
    proof {
        lemma_index_of(line@, '[');
        lemma_index_of(line@, ']');
    }
    let s = index_of_from(line, '[', 0);
    let e = index_of_from(line, ']', 0);
    if s < n && e < n {
        if e < s {
            return (2, Vec::new());
        }
        let inner = sub_chars(line, s + 1, e);
        let name = trim_chars(inner.as_slice());
        if name.len() > 0 {
            return (1, name);
        }
    }
    let c1 = index_of_from(line, ':', 0);
    if c1 < n {
        let rest1 = sub_chars(line, c1 + 1, n);
        assert(rest1@ =~= line@.skip(c1 + 1));
        assert(rest1@.subrange(0, rest1@.len() as int) =~= rest1@);
        let c2 = index_of_from(rest1.as_slice(), ':', 0);
        if c2 < rest1.len() {
            let third = sub_chars(rest1.as_slice(), c2 + 1, rest1.len());
            assert(third@ =~= rest1@.skip(c2 + 1));
            assert(third@.subrange(0, third@.len() as int) =~= third@);
            let p = index_of_from(third.as_slice(), '(', 0);
            let head = sub_chars(third.as_slice(), 0, p);
            assert(head@ =~= third@.take(p as int));
            let cand = trim_chars(head.as_slice());
            if cand.len() > 0 {
                return (1, cand);
            }
        }
    }
    (0, Vec::new())
}

/// Whether reading `lspci` output for the GPU meets a malformed display controller line
/// before any name.
pub fn gpu_scan_malformed(lspci: &str) -> (res: bool)
    ensures
        res == (gpu_scan(lines(lspci@)) is Malformed),
{
    let cs = chars_of(lspci);
    let ls = lines_of(cs.as_slice());
    let ghost lv = ls@.map_values(|l: Vec<char>| l@);
    let mut i: usize = 0;
    assert(lv.skip(0) =~= lv);
    while i < ls.len()
        invariant
            i <= ls@.len(),
            lv == ls@.map_values(|l: Vec<char>| l@),
            lv == lines(lspci@),
            gpu_scan(lv) == gpu_scan(lv.skip(i as int)),
        decreases ls@.len() - i,
    {
        assert(lv.skip(i as int)[0] == ls@[i as int]@);
        assert(lv.skip(i as int).drop_first() =~= lv.skip(i + 1));
        let (kind, _name) = gpu_line(ls[i].as_slice());
        if kind == 1 {
            return false;
        }
        if kind == 2 {
            return true;
        }
        i = i + 1;
    }
    assert(lv.skip(i as int) =~= Seq::<Seq<char>>::empty());
    false
}

/// The GPU's name from `lspci` output: what the first display controller line that names one
/// says; "Unknown" when none does.
pub fn gpu_model(lspci: &str) -> (res: String)
    requires
        !(gpu_scan(lines(lspci@)) is Malformed),
    ensures
        match gpu_scan(lines(lspci@)) {
            GpuLine::Found(n) => res@ == n,
            _ => res@ == "Unknown"@,
        },
{
    let cs = chars_of(lspci);
    let ls = lines_of(cs.as_slice());
    let ghost lv = ls@.map_values(|l: Vec<char>| l@);
    let mut i: usize = 0;
    assert(lv.skip(0) =~= lv);
    while i < ls.len()
        invariant
            i <= ls@.len(),
            lv == ls@.map_values(|l: Vec<char>| l@),
            lv == lines(lspci@),
            gpu_scan(lv) == gpu_scan(lv.skip(i as int)),
            !(gpu_scan(lv) is Malformed),
        decreases ls@.len() - i,
    {
        assert(lv.skip(i as int)[0] == ls@[i as int]@);
        assert(lv.skip(i as int).drop_first() =~= lv.skip(i + 1));
        let (kind, name) = gpu_line(ls[i].as_slice());
        if kind == 1 {
            return string_of(name.as_slice());
        }
        i = i + 1;
    }
    assert(lv.skip(i as int) =~= Seq::<Seq<char>>::empty());
    String::from_str("Unknown")
}

/// The GPU's name from `lspci` output, or `None` where reading it meets a malformed display
/// controller line (one whose `']'` comes before its `'['`) before any name.
pub fn gpu_model_checked(lspci: &str) -> (res: Option<String>)
    ensures
        match gpu_scan(lines(lspci@)) {
            GpuLine::Found(n) => res matches Some(s) && s@ == n,
            GpuLine::Skip => res matches Some(s) && s@ == "Unknown"@,
            GpuLine::Malformed => res is None,
        },
{
    if gpu_scan_malformed(lspci) {
        None
    } else {
        Some(gpu_model(lspci))
    }
}

/// A single line without a line break (not ending in `'\r'`) is read as that one line.
proof fn lemma_single_line(l: Seq<char>)
    requires
        l.len() > 0,
        forall|j: int| 0 <= j < l.len() ==> l[j] != '\n',
        l.last() != '\r',
    ensures
        lines(l) == seq![l],
{
    lemma_index_of_unique(l, '\n', l.len() as int);
}

/// A display controller line names the GPU by the text in its first brackets: a line whose
/// lowercase form mentions "vga", "3d controller" or "display controller", whose first `'['`
/// (at `s`) comes before its first `']'` (at `e`), and whose bracketed text is not blank, gives
/// that text, trimmed, as the GPU's name.
pub proof fn law_gpu_line_bracket_name(l: Seq<char>, s: int, e: int)
    requires
        forall|j: int| 0 <= j < l.len() ==> l[j] != '\n',
        l.len() > 0 ==> l.last() != '\r',
        contains(lowercase_view(l), "vga"@) || contains(lowercase_view(l), "3d controller"@)
            || contains(lowercase_view(l), "display controller"@),
        0 <= s < e < l.len(),
        l[s] == '[',
        l[e] == ']',
        forall|j: int| 0 <= j < s ==> l[j] != '[',
        forall|j: int| 0 <= j < e ==> l[j] != ']',
        trim(l.subrange(s + 1, e)).len() > 0,
    ensures
        gpu_scan(lines(l)) == GpuLine::Found(trim(l.subrange(s + 1, e))),
{
    lemma_single_line(l);
    lemma_index_of_unique(l, '[', s);
    lemma_index_of_unique(l, ']', e);
    assert(seq![l].drop_first() =~= Seq::<Seq<char>>::empty());
}

/// A line that mentions none of "vga", "3d controller" and "display controller" (in any
/// case) says nothing of the GPU.
pub proof fn law_gpu_skips_other_lines(l: Seq<char>)
    requires
        l.len() > 0,
        forall|j: int| 0 <= j < l.len() ==> l[j] != '\n',
        l.last() != '\r',
        !contains(lowercase_view(l), "vga"@),
        !contains(lowercase_view(l), "3d controller"@),
        !contains(lowercase_view(l), "display controller"@),
    ensures
        gpu_scan(lines(l)) == GpuLine::Skip,
{
    lemma_single_line(l);
    assert(gpu_line_view(l) is Skip);
    assert(seq![l].drop_first() =~= Seq::<Seq<char>>::empty());
    assert(gpu_scan(Seq::<Seq<char>>::empty()) is Skip);
    assert(seq![l][0] == l);
}

/// A later `lscpu` line overrides an earlier one: when the lookup finds `v` for `key`, some
/// entry is `(key, v)` and no later entry has that key; when it finds nothing, no entry has it.
pub proof fn law_entries_lookup_last(es: Seq<(Seq<char>, Seq<char>)>, key: Seq<char>)
    ensures
        entries_lookup(es, key) matches Some(v) ==> exists|i: int|
            0 <= i < es.len() && #[trigger] es[i] == (key, v) && forall|j: int|
                i < j < es.len() ==> (#[trigger] es[j]).0 != key,
        entries_lookup(es, key) is None ==> forall|j: int| 0 <= j < es.len() ==> (#[trigger] es[j]).0 != key,
    decreases es.len(),
{
    if es.len() > 0 {
        let init = es.drop_last();
        law_entries_lookup_last(init, key);
        assert forall|j: int| 0 <= j < init.len() implies init[j] == es[j] by {}
        if es.last().0 != key {
            if let Some(v) = entries_lookup(init, key) {
                let i = choose|i: int|
                    0 <= i < init.len() && #[trigger] init[i] == (key, v) && forall|j: int|
                        i < j < init.len() ==> (#[trigger] init[j]).0 != key;
                assert(es[i] == (key, v));
            }
        } else {
            assert(es[es.len() - 1] == (key, es.last().1));
        }
    }
}

} // verus!
