//! The sensors page's decisions: which sysfs files are temperature inputs and IIO channels,
//! how channels are named for display, and how sensors are grouped under titles.
use vstd::prelude::*;
use crate::battery::{capitalize, capitalize_view};
use crate::text::{
    chars_eq, chars_eq_str, chars_of, contains, contains_str, ends_with, ends_with_str,
    chars_lt, index_of, index_of_from, lemma_index_of, lemma_lex_total,
    lemma_lex_transitive, lex_lt, lowercase_view, starts_with, starts_with_str, string_of,
    sub_chars, to_lowercase,
};

verus! {

/// The temperature input's prefix (the name without `_input`) when `file_name` is one:
/// it begins with `temp` and ends with `_input`.
pub fn temp_input_prefix(file_name: &str) -> (res: Option<String>)
    ensures
        (starts_with(file_name@, "temp"@) && ends_with(file_name@, "_input"@)) ==> (res matches Some(
            p,
        ) && p@ == file_name@.take(file_name@.len() - 6)),
        !(starts_with(file_name@, "temp"@) && ends_with(file_name@, "_input"@)) ==> res is None,
{
    let cs = chars_of(file_name);
    if starts_with_str(cs.as_slice(), "temp") && ends_with_str(cs.as_slice(), "_input") {
        proof {
            reveal_strlit("_input");
        }
        let p = sub_chars(cs.as_slice(), 0, cs.len() - 6);
        Some(string_of(p.as_slice()))
    } else {
        None
    }
}

/// Where a temperature sensor sorts: 0 for a CPU sensor, 1 for a GPU sensor, 2 for others
/// (by the label in lowercase).
pub open spec fn sensor_rank_view(label: Seq<char>) -> u8 {
    if contains(lowercase_view(label), "cpu"@) {
        0
    } else if contains(lowercase_view(label), "gpu"@) {
        1
    } else {
        2
    }
}

/// Where a temperature sensor with this label sorts: CPU first, GPU second, then the rest.
pub fn sensor_rank(label: &str) -> (res: u8)
    ensures
        res == sensor_rank_view(label@),
{
    let lower = to_lowercase(label);
    let lc = chars_of(lower.as_str());
    if contains_str(lc.as_slice(), "cpu") {
        0
    } else if contains_str(lc.as_slice(), "gpu") {
        1
    } else {
        2
    }
}

/// An IIO device that the sensors page lists: not a trigger node.
pub fn iio_device_listed(device_id: &str) -> (res: bool)
    ensures
        res == !starts_with(device_id@, "trigger"@),
{
    let cs = chars_of(device_id);
    !starts_with_str(cs.as_slice(), "trigger")
}

/// The channel that an IIO file name gives: `in_NAME_raw` gives (NAME, raw), `in_NAME_input`
/// gives (NAME, not raw); other names give none.
pub fn iio_channel(file_name: &str) -> (res: Option<(String, bool)>)
    requires
        file_name@ != "in_raw"@,
        file_name@ != "in_input"@,
    ensures
        if starts_with(file_name@, "in_"@) && ends_with(file_name@, "_raw"@) {
            res matches Some((n, raw)) && raw && n@ == file_name@.subrange(
                3,
                file_name@.len() - 4,
            )
        } else if starts_with(file_name@, "in_"@) && ends_with(file_name@, "_input"@) {
            res matches Some((n, raw)) && !raw && n@ == file_name@.subrange(
                3,
                file_name@.len() - 6,
            )
        } else {
            res is None
        },
{
    let cs = chars_of(file_name);
    proof {
        reveal_strlit("in_");
        reveal_strlit("_raw");
        reveal_strlit("_input");
        reveal_strlit("in_raw");
        reveal_strlit("in_input");
    }
    if starts_with_str(cs.as_slice(), "in_") && ends_with_str(cs.as_slice(), "_raw") {
        if cs.len() < 7 {
            let ghost t = cs@;
            let ghost k = t.len() - 4;
            assert(t.subrange(0, 3)[0] == t[0] && t.subrange(0, 3)[1] == t[1]);
            assert(t[0] == 'i' && t[1] == 'n' && t[2] == '_') by {
                assert(t.subrange(0, 3)[2] == t[2]);
            }
            assert(t[k] == '_' && t[k + 1] == 'r') by {
                assert(t.subrange(k, t.len() as int)[0] == t[k]);
                assert(t.subrange(k, t.len() as int)[1] == t[k + 1]);
            }
            assert(t.len() == 6);
            assert(t =~= "in_raw"@) by {
                assert(t.subrange(k, t.len() as int)[2] == t[k + 2]);
                assert(t.subrange(k, t.len() as int)[3] == t[k + 3]);
            }
        }
        let n = sub_chars(cs.as_slice(), 3, cs.len() - 4);
        Some((string_of(n.as_slice()), true))
    } else if starts_with_str(cs.as_slice(), "in_") && ends_with_str(cs.as_slice(), "_input") {
        if cs.len() < 9 {
            let ghost t = cs@;
            let ghost k = t.len() - 6;
            assert(t[0] == 'i' && t[1] == 'n' && t[2] == '_') by {
                assert(t.subrange(0, 3)[0] == t[0]);
                assert(t.subrange(0, 3)[1] == t[1]);
                assert(t.subrange(0, 3)[2] == t[2]);
            }
            assert(t[k] == '_' && t[k + 1] == 'i' && t[k + 2] == 'n') by {
                assert(t.subrange(k, t.len() as int)[0] == t[k]);
                assert(t.subrange(k, t.len() as int)[1] == t[k + 1]);
                assert(t.subrange(k, t.len() as int)[2] == t[k + 2]);
            }
            assert(t.len() == 8);
            assert(t =~= "in_input"@) by {
                assert(t.subrange(k, t.len() as int)[3] == t[k + 3]);
                assert(t.subrange(k, t.len() as int)[4] == t[k + 4]);
                assert(t.subrange(k, t.len() as int)[5] == t[k + 5]);
            }
        }
        let n = sub_chars(cs.as_slice(), 3, cs.len() - 6);
        Some((string_of(n.as_slice()), false))
    } else {
        None
    }
}

// ───────────────────────────── channel names ─────────────────────────────
/// The display names of known channels.
pub open spec fn channel_names() -> Seq<(Seq<char>, Seq<char>)> {
    seq![
        ("proximity0"@, "Proximity (present)"@),
        ("proximity1"@, "Proximity (distance)"@),
        ("attention"@, "Attention"@),
        ("accel_x"@, "Accelerometer X"@),
        ("accel_y"@, "Accelerometer Y"@),
        ("accel_z"@, "Accelerometer Z"@),
        ("anglvel_x"@, "Gyro X"@),
        ("anglvel_y"@, "Gyro Y"@),
        ("anglvel_z"@, "Gyro Z"@),
        ("gravity_x"@, "Gravity X"@),
        ("gravity_y"@, "Gravity Y"@),
        ("gravity_z"@, "Gravity Z"@),
        ("magn_x"@, "Magnetic X"@),
        ("magn_y"@, "Magnetic Y"@),
        ("magn_z"@, "Magnetic Z"@),
        ("angl0"@, "Hinge Angle"@),
        ("angl1"@, "Screen Angle"@),
        ("angl2"@, "Keyboard Angle"@),
        ("rot_quaternion"@, "Rotation (Quaternion)"@),
        ("prox"@, "Proximity"@),
        ("light"@, "Ambient Light"@),
        ("illuminance"@, "Ambient Light"@),
        ("hinge_angle"@, "Hinge Angle"@),
    ]
}

/// The display name of the first table entry whose key is `n`.
pub open spec fn table_lookup(table: Seq<(Seq<char>, Seq<char>)>, n: Seq<char>) -> Option<Seq<char>>
    decreases table.len(),
{
    if table.len() == 0 {
        None
    } else if table[0].0 == n {
        Some(table[0].1)
    } else {
        table_lookup(table.drop_first(), n)
    }
}

/// `s` split at each `c`, as `str::split` splits it.
pub open spec fn split_on(s: Seq<char>, c: char) -> Seq<Seq<char>>
    decreases s.len(),
{
    let i = index_of(s, c);
    if 0 <= i < s.len() {
        seq![s.take(i)] + split_on(s.skip(i + 1), c)
    } else {
        seq![s]
    }
}

/// `parts` joined with `sep` between them.
pub open spec fn join_parts(parts: Seq<Seq<char>>, sep: Seq<char>) -> Seq<char>
    decreases parts.len(),
{
    if parts.len() == 0 {
        Seq::empty()
    } else if parts.len() == 1 {
        parts[0]
    } else {
        parts[0] + sep + join_parts(parts.drop_first(), sep)
    }
}

/// A channel's display name: the table's name for its lowercase name, else its lowercase
/// name's `'_'`-separated words, each capitalized, joined by spaces.
pub open spec fn friendly_channel_view(name: Seq<char>) -> Seq<char> {
    let n = lowercase_view(name);
    match table_lookup(channel_names(), n) {
        Some(v) => v,
        None => join_parts(split_on(n, '_').map_values(|w: Seq<char>| capitalize_view(w)), " "@),
    }
}

/// The capitalized words of `s[from..]`, joined by spaces, appended to `out`.
fn push_title_words(out: &mut String, s: &[char], from: usize)
    requires
        from <= s@.len(),
    ensures
        final(out)@ == old(out)@ + join_parts(
            split_on(s@.skip(from as int), '_').map_values(|w: Seq<char>| capitalize_view(w)),
            " "@,
        ),
    decreases s@.len() - from,
{
    let ghost rest = s@.skip(from as int);
    let e = index_of_from(s, '_', from);
    assert(s@.subrange(from as int, s@.len() as int) =~= rest);
    proof {
        lemma_index_of(rest, '_');
    }
    let word = sub_chars(s, from, e);
    let ws = string_of(word.as_slice());
    let cap = capitalize(ws.as_str());
    out.append(cap.as_str());
    assert(word@ =~= rest.take(e - from));
    if e < s.len() {
        out.append(" ");
        assert(rest.skip(e - from + 1) =~= s@.skip(e + 1));
        let ghost tail = split_on(s@.skip(e + 1), '_');
        assert(split_on(rest, '_') == seq![rest.take(e - from)] + tail);
        let ghost mapped = split_on(rest, '_').map_values(|w: Seq<char>| capitalize_view(w));
        assert(mapped.drop_first() =~= tail.map_values(|w: Seq<char>| capitalize_view(w)));
        assert(tail.len() >= 1);
        push_title_words(out, s, e + 1);
    } else {
        assert(split_on(rest, '_') == seq![rest]);
        assert(rest.take(e - from) =~= rest);
    }
}

/// A channel's display name.
pub fn friendly_channel(name: &str) -> (res: String)
    ensures
        res@ == friendly_channel_view(name@),
{
    let lower = to_lowercase(name);
    let n = chars_of(lower.as_str());
    let keys: [&str; 23] = [
        "proximity0",
        "proximity1",
        "attention",
        "accel_x",
        "accel_y",
        "accel_z",
        "anglvel_x",
        "anglvel_y",
        "anglvel_z",
        "gravity_x",
        "gravity_y",
        "gravity_z",
        "magn_x",
        "magn_y",
        "magn_z",
        "angl0",
        "angl1",
        "angl2",
        "rot_quaternion",
        "prox",
        "light",
        "illuminance",
        "hinge_angle",
    ];
    let values: [&str; 23] = [
        "Proximity (present)",
        "Proximity (distance)",
        "Attention",
        "Accelerometer X",
        "Accelerometer Y",
        "Accelerometer Z",
        "Gyro X",
        "Gyro Y",
        "Gyro Z",
        "Gravity X",
        "Gravity Y",
        "Gravity Z",
        "Magnetic X",
        "Magnetic Y",
        "Magnetic Z",
        "Hinge Angle",
        "Screen Angle",
        "Keyboard Angle",
        "Rotation (Quaternion)",
        "Proximity",
        "Ambient Light",
        "Ambient Light",
        "Hinge Angle",
    ];
    let ghost table = channel_names();
    assert(table.len() == 23);
    assert forall|k: int| 0 <= k < 23 implies #[trigger] table[k] == (keys@[k]@, values@[k]@) by {
    }
    let mut i: usize = 0;
    assert(table.skip(0) =~= table);
    while i < 23
        invariant
            i <= 23,
            table == channel_names(),
            forall|k: int| 0 <= k < 23 ==> #[trigger] table[k] == (keys@[k]@, values@[k]@),
            table_lookup(table, n@) == table_lookup(table.skip(i as int), n@),
            n@ == lowercase_view(name@),
        decreases 23 - i,
    {
        assert(table.skip(i as int)[0] == table[i as int]);
        assert(table.skip(i as int).drop_first() =~= table.skip(i + 1));
        if chars_eq_str(n.as_slice(), keys[i]) {
            return String::from_str(values[i]);
        }
        i = i + 1;
    }
    assert(table.skip(23) =~= Seq::<(Seq<char>, Seq<char>)>::empty());
    let mut out = String::new();
    assert(n@.skip(0) =~= n@);
    push_title_words(&mut out, n.as_slice(), 0);
    out
}

// ───────────────────────────── ordering ─────────────────────────────
/// The character views of `v`'s strings.
pub open spec fn views(v: Seq<Vec<char>>) -> Seq<Seq<char>> {
    v.map_values(|x: Vec<char>| x@)
}

/// The character views of `v`'s strings.
pub open spec fn string_views(v: Seq<String>) -> Seq<Seq<char>> {
    v.map_values(|x: String| x@)
}

/// Entry `a` has a smaller key than entry `b`: a smaller rank, or the same rank and a label
/// that sorts before.
pub open spec fn key_lt(ranks: Seq<u8>, labels: Seq<Seq<char>>, a: int, b: int) -> bool {
    ranks[a] < ranks[b] || (ranks[a] == ranks[b] && lex_lt(labels[a], labels[b]))
}

/// Entry `a` comes before entry `b` in a stable sort by rank, then label: by key, and between
/// equal keys by original position.
pub open spec fn sorts_before(ranks: Seq<u8>, labels: Seq<Seq<char>>, a: int, b: int) -> bool {
    key_lt(ranks, labels, a, b) || (ranks[a] == ranks[b] && labels[a] == labels[b] && a < b)
}

/// `order` lists each of the positions `0..n` exactly once.
pub open spec fn is_permutation(order: Seq<usize>, n: int) -> bool {
    &&& order.len() == n
    &&& forall|k: int| 0 <= k < n ==> #[trigger] order[k] < n
    &&& forall|k: int, l: int| 0 <= k < l < n ==> order[k] != order[l]
}

/// `order` lists positions in the order of `sorts_before`.
pub open spec fn sorted_by_key(ranks: Seq<u8>, labels: Seq<Seq<char>>, order: Seq<usize>) -> bool {
    forall|k: int, l: int|
        0 <= k < l < order.len() ==> sorts_before(
            ranks,
            labels,
            #[trigger] order[k] as int,
            #[trigger] order[l] as int,
        )
}

proof fn lemma_sorts_before_transitive(ranks: Seq<u8>, labels: Seq<Seq<char>>, a: int, b: int, c: int)
    requires
        sorts_before(ranks, labels, a, b),
        sorts_before(ranks, labels, b, c),
    ensures
        sorts_before(ranks, labels, a, c),
{
    if ranks[a] == ranks[b] && ranks[b] == ranks[c] && lex_lt(labels[a], labels[b]) && lex_lt(
        labels[b],
        labels[c],
    ) {
        lemma_lex_transitive(labels[a], labels[b], labels[c]);
    }
}

proof fn lemma_sorts_before_total(ranks: Seq<u8>, labels: Seq<Seq<char>>, a: int, b: int)
    requires
        a != b,
    ensures
        sorts_before(ranks, labels, a, b) || sorts_before(ranks, labels, b, a),
{
    lemma_lex_total(labels[a], labels[b]);
}

/// Whether entry `a` has a smaller key than entry `b`.
fn key_less(ranks: &Vec<u8>, labels: &Vec<Vec<char>>, a: usize, b: usize) -> (res: bool)
    requires
        a < ranks@.len(),
        b < ranks@.len(),
        ranks@.len() == labels@.len(),
    ensures
        res == key_lt(ranks@, views(labels@), a as int, b as int),
{
    if ranks[a] < ranks[b] {
        true
    } else if ranks[a] == ranks[b] {
        chars_lt(labels[a].as_slice(), labels[b].as_slice())
    } else {
        false
    }
}

/// The positions of the entries, sorted stably by rank, then label: an insertion sort.
fn order_by_key(ranks: &Vec<u8>, labels: &Vec<Vec<char>>) -> (order: Vec<usize>)
    requires
        ranks@.len() == labels@.len(),
    ensures
        is_permutation(order@, ranks@.len() as int),
        sorted_by_key(ranks@, views(labels@), order@),
{
    let ghost lv = views(labels@);
    let n = ranks.len();
    let mut order: Vec<usize> = Vec::new();
    let mut i: usize = 0;
    while i < n
        invariant
            n == ranks@.len(),
            ranks@.len() == labels@.len(),
            lv == views(labels@),
            i <= n,
            is_permutation(order@, i as int),
            sorted_by_key(ranks@, lv, order@),
        decreases n - i,
    {
        let mut p: usize = order.len();
        while p > 0 && key_less(ranks, labels, i, order[p - 1])
            invariant
                n == ranks@.len(),
                ranks@.len() == labels@.len(),
                lv == views(labels@),
                i < n,
                p <= order@.len(),
                is_permutation(order@, i as int),
                forall|q: int|
                    p <= q < order@.len() ==> sorts_before(ranks@, lv, i as int, #[trigger] order@[q] as int),
            decreases p,
        {
            p = p - 1;
        }
        let ghost old_order = order@;
        proof {
            if p > 0 {
                let last = old_order[p - 1] as int;
                assert(!key_lt(ranks@, lv, i as int, last));
                assert(!sorts_before(ranks@, lv, i as int, last));
                lemma_sorts_before_total(ranks@, lv, i as int, last);
                assert forall|k: int| 0 <= k < p implies sorts_before(
                    ranks@,
                    lv,
                    #[trigger] old_order[k] as int,
                    i as int,
                ) by {
                    if k < p - 1 {
                        assert(sorts_before(ranks@, lv, old_order[k] as int, last));
                        lemma_sorts_before_transitive(ranks@, lv, old_order[k] as int, last, i as int);
                    }
                }
            }
            old_order.insert_ensures(p as int, i);
        }
        order.insert(p, i);
        proof {
            let new_order = order@;
            assert forall|k: int| 0 <= k < i + 1 implies #[trigger] new_order[k] < i + 1 by {
                if k > p {
                    assert(new_order[k] == old_order[k - 1]);
                }
            }
            assert forall|k: int, l: int| 0 <= k < l < i + 1 implies new_order[k] != new_order[l] by {
                if l > p {
                    assert(new_order[l] == old_order[l - 1]);
                }
                if k > p {
                    assert(new_order[k] == old_order[k - 1]);
                }
            }
            assert forall|k: int, l: int| 0 <= k < l < new_order.len() implies sorts_before(
                ranks@,
                lv,
                #[trigger] new_order[k] as int,
                #[trigger] new_order[l] as int,
            ) by {
                if l > p {
                    assert(new_order[l] == old_order[l - 1]);
                }
                if k > p {
                    assert(new_order[k] == old_order[k - 1]);
                }
                if k < p && l < p {
                    assert(sorts_before(ranks@, lv, old_order[k] as int, old_order[l] as int));
                } else if k > p {
                    assert(sorts_before(ranks@, lv, old_order[k - 1] as int, old_order[l - 1] as int));
                } else if k < p && l > p {
                    assert(sorts_before(ranks@, lv, old_order[k] as int, old_order[l - 1] as int));
                }
            }
        }
        i = i + 1;
    }
    order
}

/// The character views of the strings in `v`.
fn chars_of_all(v: &Vec<String>) -> (res: Vec<Vec<char>>)
    ensures
        res@.len() == v@.len(),
        views(res@) == string_views(v@),
{
    let mut res: Vec<Vec<char>> = Vec::new();
    let mut i: usize = 0;
    while i < v.len()
        invariant
            i <= v@.len(),
            res@.len() == i,
            forall|j: int| 0 <= j < i ==> (#[trigger] res@[j])@ == v@[j]@,
        decreases v@.len() - i,
    {
        res.push(chars_of(v[i].as_str()));
        i = i + 1;
    }
    assert(views(res@) =~= string_views(v@));
    res
}

/// The ranks of temperature sensors with these labels.
pub open spec fn sensor_ranks(labels: Seq<String>) -> Seq<u8> {
    labels.map_values(|l: String| sensor_rank_view(l@))
}

/// The order in which the temperature sensors with these labels are listed: CPU sensors
/// first, GPU sensors second, then the rest; by label within each rank; and in the order
/// found between equal labels of equal rank. Each position `0..labels.len()` comes once.
pub fn temp_sensor_order(labels: &Vec<String>) -> (order: Vec<usize>)
    ensures
        is_permutation(order@, labels@.len() as int),
        sorted_by_key(sensor_ranks(labels@), string_views(labels@), order@),
{
    let mut ranks: Vec<u8> = Vec::new();
    let mut i: usize = 0;
    while i < labels.len()
        invariant
            i <= labels@.len(),
            ranks@.len() == i,
            forall|j: int| 0 <= j < i ==> #[trigger] ranks@[j] == sensor_rank_view(labels@[j]@),
        decreases labels@.len() - i,
    {
        ranks.push(sensor_rank(labels[i].as_str()));
        i = i + 1;
    }
    assert(ranks@ =~= sensor_ranks(labels@));
    let cs = chars_of_all(labels);
    order_by_key(&ranks, &cs)
}

/// All zero: the ranks of entries that sort by name alone.
pub open spec fn no_ranks(n: nat) -> Seq<u8> {
    Seq::new(n, |i: int| 0u8)
}

/// The order of names sorted by `str`'s order, equal names in the order given. Each position
/// `0..names.len()` comes once.
pub fn name_order(names: &Vec<String>) -> (order: Vec<usize>)
    ensures
        is_permutation(order@, names@.len() as int),
        sorted_by_key(no_ranks(names@.len()), string_views(names@), order@),
{
    let mut ranks: Vec<u8> = Vec::new();
    let mut i: usize = 0;
    while i < names.len()
        invariant
            i <= names@.len(),
            ranks@.len() == i,
            forall|j: int| 0 <= j < i ==> #[trigger] ranks@[j] == 0u8,
        decreases names@.len() - i,
    {
        ranks.push(0);
        i = i + 1;
    }
    assert(ranks@ =~= no_ranks(names@.len()));
    let cs = chars_of_all(names);
    order_by_key(&ranks, &cs)
}

// ───────────────────────────── grouping ─────────────────────────────
/// The distinct keys of `keys`, in the order in which they first appear.
pub open spec fn first_appearances(keys: Seq<Seq<char>>) -> Seq<Seq<char>>
    decreases keys.len(),
{
    if keys.len() == 0 {
        Seq::empty()
    } else {
        let prev = first_appearances(keys.drop_last());
        if prev.contains(keys.last()) {
            prev
        } else {
            prev.push(keys.last())
        }
    }
}

/// The positions in `keys` that hold `k`, in increasing order.
pub open spec fn positions_of(keys: Seq<Seq<char>>, k: Seq<char>) -> Seq<int>
    decreases keys.len(),
{
    if keys.len() == 0 {
        Seq::empty()
    } else {
        let prev = positions_of(keys.drop_last(), k);
        if keys.last() == k {
            prev.push(keys.len() - 1)
        } else {
            prev
        }
    }
}

/// Positions as integers.
pub open spec fn as_ints(v: Seq<usize>) -> Seq<int> {
    v.map_values(|m: usize| m as int)
}

/// A key and the positions that hold it.
pub struct KeyGroup {
    pub key: String,
    pub members: Vec<usize>,
}

/// `groups` holds one group per distinct key of `keys`, in the order in which the keys first
/// appear, each with the positions that hold its key, in increasing order.
pub open spec fn groups_of(keys: Seq<Seq<char>>, groups: Seq<KeyGroup>) -> bool {
    &&& groups.len() == first_appearances(keys).len()
    &&& forall|g: int|
        0 <= g < groups.len() ==> (#[trigger] groups[g]).key@ == first_appearances(keys)[g]
            && as_ints(groups[g].members@) == positions_of(keys, first_appearances(keys)[g])
}

/// Groups the positions of `keys` by key, keys in the order of their first appearance.
pub fn group_by_key(keys: &Vec<String>) -> (groups: Vec<KeyGroup>)
    ensures
        groups_of(string_views(keys@), groups@),
        forall|g: int| 0 <= g < groups@.len() ==> (#[trigger] groups@[g]).members@.len() > 0,
        forall|g: int, m: int|
            0 <= g < groups@.len() && 0 <= m < groups@[g].members@.len() ==> (
            #[trigger] groups@[g].members@[m]) < keys@.len(),
{
    let ghost kv = string_views(keys@);
    let cs = chars_of_all(keys);
    let mut groups: Vec<KeyGroup> = Vec::new();
    let mut gkeys: Vec<Vec<char>> = Vec::new();
    let mut i: usize = 0;
    assert(kv.take(0) =~= Seq::<Seq<char>>::empty());
    while i < keys.len()
        invariant
            kv == string_views(keys@),
            views(cs@) == kv,
            cs@.len() == keys@.len(),
            i <= keys@.len(),
            gkeys@.len() == groups@.len(),
            forall|g: int| 0 <= g < gkeys@.len() ==> (#[trigger] gkeys@[g])@ == groups@[g].key@,
            groups_of(kv.take(i as int), groups@),
            forall|g1: int, g2: int|
                0 <= g1 < g2 < groups@.len() ==> groups@[g1].key@ != groups@[g2].key@,
            forall|k: Seq<char>|
                !first_appearances(kv.take(i as int)).contains(k) ==> (#[trigger] positions_of(
                    kv.take(i as int),
                    k,
                )).len() == 0,
            forall|g: int, m: int|
                0 <= g < groups@.len() && 0 <= m < groups@[g].members@.len() ==> (
                #[trigger] groups@[g].members@[m]) < i,
            forall|g: int| 0 <= g < groups@.len() ==> (#[trigger] groups@[g]).members@.len() > 0,
        decreases keys@.len() - i,
    {
        let ghost pre = kv.take(i as int);
        let ghost post = kv.take(i + 1);
        let ghost fa = first_appearances(pre);
        assert(post.drop_last() =~= pre);
        assert(post.last() == kv[i as int]);
        assert(cs@[i as int]@ == kv[i as int]);
        let mut g: usize = 0;
        while g < gkeys.len() && !chars_eq(gkeys[g].as_slice(), cs[i].as_slice())
            invariant
                g <= gkeys@.len(),
                gkeys@.len() == groups@.len(),
                forall|h: int| 0 <= h < gkeys@.len() ==> (#[trigger] gkeys@[h])@ == groups@[h].key@,
                i < cs@.len(),
                forall|h: int| 0 <= h < g ==> (#[trigger] groups@[h]).key@ != cs@[i as int]@,
            decreases gkeys@.len() - g,
        {
            g = g + 1;
        }
        let found = g < gkeys.len();
        let ghost old_groups = groups@;
        if found {
            assert(fa.contains(kv[i as int])) by {
                assert(fa[g as int] == kv[i as int]);
            }
            assert(first_appearances(post) == fa);
            groups[g].members.push(i);
            proof {
                assert forall|h: int| 0 <= h < groups@.len() implies (#[trigger] groups@[h]).key@
                    == first_appearances(post)[h] && as_ints(groups@[h].members@) == positions_of(
                    post,
                    first_appearances(post)[h],
                ) by {
                    if h == g {
                        assert(as_ints(groups@[h].members@) =~= as_ints(old_groups[h].members@).push(
                            i as int,
                        ));
                    } else {
                        assert(groups@[h] == old_groups[h]);
                    }
                }
                assert forall|k: Seq<char>| !first_appearances(post).contains(k) implies (
                #[trigger] positions_of(post, k)).len() == 0 by {
                    assert(positions_of(pre, k).len() == 0);
                }
            }
        } else {
            assert(!fa.contains(kv[i as int])) by {
                if fa.contains(kv[i as int]) {
                    let h = choose|h: int| 0 <= h < fa.len() && fa[h] == kv[i as int];
                    assert(groups@[h].key@ == kv[i as int]);
                }
            }
            assert(first_appearances(post) == fa.push(kv[i as int]));
            assert(positions_of(pre, kv[i as int]).len() == 0);
            let mut members: Vec<usize> = Vec::new();
            members.push(i);
            let key = keys[i].clone();
            assert(key@ == kv[i as int]);
            groups.push(KeyGroup { key, members });
            gkeys.push(cs[i].clone());
            proof {
                assert forall|h: int| 0 <= h < groups@.len() implies (#[trigger] groups@[h]).key@
                    == first_appearances(post)[h] && as_ints(groups@[h].members@) == positions_of(
                    post,
                    first_appearances(post)[h],
                ) by {
                    if h == old_groups.len() {
                        assert(as_ints(groups@[h].members@) =~= seq![i as int]);
                        assert(positions_of(pre, kv[i as int]) =~= Seq::<int>::empty());
                    } else {
                        assert(groups@[h] == old_groups[h]);
                        assert(fa[h] != kv[i as int]);
                    }
                }
                assert forall|k: Seq<char>| !first_appearances(post).contains(k) implies (
                #[trigger] positions_of(post, k)).len() == 0 by {
                    if fa.contains(k) {
                        let h = choose|h: int| 0 <= h < fa.len() && fa[h] == k;
                        assert(fa.push(kv[i as int])[h] == k);
                    }
                    assert(fa.push(kv[i as int])[fa.len() as int] == kv[i as int]);
                    assert(k != kv[i as int]);
                    assert(positions_of(pre, k).len() == 0);
                }
            }
        }
        i = i + 1;
    }
    assert(kv.take(keys@.len() as int) =~= kv);
    groups
}

/// A titled group of sensors: the positions of its channels.
pub struct TitledGroup {
    pub title: String,
    pub members: Vec<usize>,
}

/// The name shown for IIO group `g`: the device name of its first channel.
pub open spec fn group_display(ids: Seq<Seq<char>>, devs: Seq<Seq<char>>, g: int) -> Seq<char> {
    devs[positions_of(ids, first_appearances(ids)[g])[0]]
}

/// How many of the first `upto` IIO groups are shown under the name `name`.
pub open spec fn display_count(ids: Seq<Seq<char>>, devs: Seq<Seq<char>>, name: Seq<char>, upto: int) -> nat
    decreases upto,
{
    if upto <= 0 {
        0
    } else {
        display_count(ids, devs, name, upto - 1) + (if group_display(ids, devs, upto - 1) == name {
            1nat
        } else {
            0nat
        })
    }
}

/// The title of IIO group `g`: its name, followed by its device id in brackets when another
/// group has the same name.
pub open spec fn group_title(ids: Seq<Seq<char>>, devs: Seq<Seq<char>>, g: int) -> Seq<char> {
    let d = group_display(ids, devs, g);
    if display_count(ids, devs, d, first_appearances(ids).len() as int) > 1 {
        d + " ("@ + first_appearances(ids)[g] + ")"@
    } else {
        d
    }
}

/// The IIO channels grouped by device: one group per device id, in the order in which the ids
/// first appear, titled by `group_title`, each with the positions of its channels in order.
pub fn iio_groups(ids: &Vec<String>, devs: &Vec<String>) -> (groups: Vec<TitledGroup>)
    requires
        ids@.len() == devs@.len(),
    ensures
        groups@.len() == first_appearances(string_views(ids@)).len(),
        forall|g: int|
            0 <= g < groups@.len() ==> (#[trigger] groups@[g]).title@ == group_title(
                string_views(ids@),
                string_views(devs@),
                g,
            ) && as_ints(groups@[g].members@) == positions_of(
                string_views(ids@),
                first_appearances(string_views(ids@))[g],
            ),
{
    let ghost iv = string_views(ids@);
    let ghost dv = string_views(devs@);
    let by_id = group_by_key(ids);
    let ng = by_id.len();
    let mut displays: Vec<Vec<char>> = Vec::new();
    let mut g: usize = 0;
    while g < ng
        invariant
            ng == by_id@.len(),
            ids@.len() == devs@.len(),
            iv == string_views(ids@),
            dv == string_views(devs@),
            groups_of(iv, by_id@),
            forall|h: int| 0 <= h < by_id@.len() ==> (#[trigger] by_id@[h]).members@.len() > 0,
            forall|h: int, m: int|
                0 <= h < by_id@.len() && 0 <= m < by_id@[h].members@.len() ==> (
                #[trigger] by_id@[h].members@[m]) < ids@.len(),
            g <= ng,
            displays@.len() == g,
            forall|h: int| 0 <= h < g ==> (#[trigger] displays@[h])@ == group_display(iv, dv, h),
        decreases ng - g,
    {
        let first = by_id[g].members[0];
        assert(as_ints(by_id@[g as int].members@)[0] == first as int);
        displays.push(chars_of(devs[first].as_str()));
        g = g + 1;
    }
    let mut groups: Vec<TitledGroup> = Vec::new();
    let mut g: usize = 0;
    while g < ng
        invariant
            ng == by_id@.len(),
            iv == string_views(ids@),
            dv == string_views(devs@),
            groups_of(iv, by_id@),
            displays@.len() == ng,
            forall|h: int| 0 <= h < ng ==> (#[trigger] displays@[h])@ == group_display(iv, dv, h),
            g <= ng,
            groups@.len() == g,
            forall|h: int|
                0 <= h < g ==> (#[trigger] groups@[h]).title@ == group_title(iv, dv, h) && as_ints(
                    groups@[h].members@,
                ) == positions_of(iv, first_appearances(iv)[h]),
        decreases ng - g,
    {
        let mut count: usize = 0;
        let mut h: usize = 0;
        while h < ng
            invariant
                ng == by_id@.len(),
                displays@.len() == ng,
                forall|j: int| 0 <= j < ng ==> (#[trigger] displays@[j])@ == group_display(iv, dv, j),
                g < ng,
                h <= ng,
                count <= h,
                count == display_count(iv, dv, displays@[g as int]@, h as int),
            decreases ng - h,
        {
            if chars_eq(displays[h].as_slice(), displays[g].as_slice()) {
                count = count + 1;
            }
            h = h + 1;
        }
        assert(ng == first_appearances(iv).len());
        let mut title = string_of(displays[g].as_slice());
        if count > 1 {
            title.append(" (");
            title.append(by_id[g].key.as_str());
            title.append(")");
        }
        let members = by_id[g].members.clone();
        groups.push(TitledGroup { title, members });
        g = g + 1;
    }
    groups
}

// ───────────────────────────── channel-name laws ─────────────────────────────
/// A table entry whose key is `n`, with no earlier entry for `n`, is what the lookup finds.
proof fn lemma_lookup_at(t: Seq<(Seq<char>, Seq<char>)>, n: Seq<char>, i: int)
    requires
        0 <= i < t.len(),
        t[i].0 == n,
        forall|j: int| 0 <= j < i ==> t[j].0 != n,
    ensures
        table_lookup(t, n) == Some(t[i].1),
    decreases i,
{
    if i > 0 {
        let r = t.drop_first();
        assert(t[0].0 != n);
        assert forall|j: int| 0 <= j < i - 1 implies r[j].0 != n by {
            assert(r[j] == t[j + 1]);
        }
        lemma_lookup_at(r, n, i - 1);
    }
}

/// The uppercase form of an ASCII lowercase letter.
pub open spec fn ascii_upper(a: char) -> char {
    ((a as u32) - 32) as char
}

/// Each axis of a three-axis sensor gets its own name: the sensor's name and the axis letter
/// in uppercase. The accelerometer's `accel_x`, `accel_y`, `accel_z` (in any case) are
/// "Accelerometer X", "Accelerometer Y", "Accelerometer Z"; likewise "Gyro" for `anglvel_`,
/// "Gravity" for `gravity_` and "Magnetic" for `magn_`.
pub proof fn law_friendly_axis_names(name: Seq<char>, a: char)
    requires
        a == 'x' || a == 'y' || a == 'z',
    ensures
        lowercase_view(name) == "accel_"@.push(a) ==> friendly_channel_view(name)
            == "Accelerometer "@.push(ascii_upper(a)),
        lowercase_view(name) == "anglvel_"@.push(a) ==> friendly_channel_view(name) == "Gyro "@.push(
            ascii_upper(a),
        ),
        lowercase_view(name) == "gravity_"@.push(a) ==> friendly_channel_view(name)
            == "Gravity "@.push(ascii_upper(a)),
        lowercase_view(name) == "magn_"@.push(a) ==> friendly_channel_view(name)
            == "Magnetic "@.push(ascii_upper(a)),
{
    lemma_channel_keys();
    reveal_strlit("accel_");
    reveal_strlit("anglvel_");
    reveal_strlit("gravity_");
    reveal_strlit("magn_");
    reveal_strlit("Accelerometer ");
    reveal_strlit("Gyro ");
    reveal_strlit("Gravity ");
    reveal_strlit("Magnetic ");
    reveal_strlit("accel_x");
    reveal_strlit("accel_y");
    reveal_strlit("accel_z");
    reveal_strlit("anglvel_x");
    reveal_strlit("anglvel_y");
    reveal_strlit("anglvel_z");
    reveal_strlit("gravity_x");
    reveal_strlit("gravity_y");
    reveal_strlit("gravity_z");
    reveal_strlit("magn_x");
    reveal_strlit("magn_y");
    reveal_strlit("magn_z");
    reveal_strlit("Accelerometer X");
    reveal_strlit("Accelerometer Y");
    reveal_strlit("Accelerometer Z");
    reveal_strlit("Gyro X");
    reveal_strlit("Gyro Y");
    reveal_strlit("Gyro Z");
    reveal_strlit("Gravity X");
    reveal_strlit("Gravity Y");
    reveal_strlit("Gravity Z");
    reveal_strlit("Magnetic X");
    reveal_strlit("Magnetic Y");
    reveal_strlit("Magnetic Z");
    assert(ascii_upper('x') == 'X' && ascii_upper('y') == 'Y' && ascii_upper('z') == 'Z');
    let t = channel_names();
    let n = lowercase_view(name);
    assert("anglvel_"@.push(a)[0] != "gravity_"@.push(a)[0]);
    let base: int = if n == "accel_"@.push(a) {
        3
    } else if n == "anglvel_"@.push(a) {
        6
    } else if n == "gravity_"@.push(a) {
        9
    } else {
        12
    };
    let off: int = if a == 'x' {
        0
    } else if a == 'y' {
        1
    } else {
        2
    };
    if n == "accel_"@.push(a) || n == "anglvel_"@.push(a) || n == "gravity_"@.push(a) || n
        == "magn_"@.push(a) {
        assert(t[base + off].0 =~= n);
        lemma_lookup_at(t, n, base + off);
    }
}

/// The keys and names of the channel table, spelled out.
proof fn lemma_channel_keys()
    ensures
        ({
            let t = channel_names();
            &&& t.len() == 23
            &&& forall|j: int, l: int| 0 <= j < l < 23 ==> t[j].0 != t[l].0
        }),
{
    let t = channel_names();
    reveal_strlit("proximity0");
    reveal_strlit("proximity1");
    reveal_strlit("attention");
    reveal_strlit("accel_x");
    reveal_strlit("accel_y");
    reveal_strlit("accel_z");
    reveal_strlit("anglvel_x");
    reveal_strlit("anglvel_y");
    reveal_strlit("anglvel_z");
    reveal_strlit("gravity_x");
    reveal_strlit("gravity_y");
    reveal_strlit("gravity_z");
    reveal_strlit("magn_x");
    reveal_strlit("magn_y");
    reveal_strlit("magn_z");
    reveal_strlit("angl0");
    reveal_strlit("angl1");
    reveal_strlit("angl2");
    reveal_strlit("rot_quaternion");
    reveal_strlit("prox");
    reveal_strlit("light");
    reveal_strlit("illuminance");
    reveal_strlit("hinge_angle");
    assert forall|j: int, l: int| 0 <= j < l < 23 implies t[j].0 != t[l].0 by {
        let x = t[j].0;
        let y = t[l].0;
        if x.len() == y.len() {
            assert(x[0] != y[0] || x[1] != y[1] || x[x.len() - 1] != y[y.len() - 1] || x[2]
                != y[2]);
        }
    }
}

/// The other known channels get their own names (in any case): the proximity sensor's
/// presence flag and distance, attention, the three angles of a convertible (hinge, screen,
/// keyboard), the rotation quaternion, and the light and hinge-angle channels.
pub proof fn law_friendly_known_names(name: Seq<char>)
    ensures
        lowercase_view(name) == "proximity0"@ ==> friendly_channel_view(name) == "Proximity (present)"@,
        lowercase_view(name) == "proximity1"@ ==> friendly_channel_view(name) == "Proximity (distance)"@,
        lowercase_view(name) == "attention"@ ==> friendly_channel_view(name) == "Attention"@,
        lowercase_view(name) == "angl0"@ ==> friendly_channel_view(name) == "Hinge Angle"@,
        lowercase_view(name) == "angl1"@ ==> friendly_channel_view(name) == "Screen Angle"@,
        lowercase_view(name) == "angl2"@ ==> friendly_channel_view(name) == "Keyboard Angle"@,
        lowercase_view(name) == "rot_quaternion"@ ==> friendly_channel_view(name) == "Rotation (Quaternion)"@,
        lowercase_view(name) == "prox"@ ==> friendly_channel_view(name) == "Proximity"@,
        lowercase_view(name) == "light"@ ==> friendly_channel_view(name) == "Ambient Light"@,
        lowercase_view(name) == "illuminance"@ ==> friendly_channel_view(name) == "Ambient Light"@,
        lowercase_view(name) == "hinge_angle"@ ==> friendly_channel_view(name) == "Hinge Angle"@,
{
    lemma_channel_keys();
    reveal_strlit("proximity0");
    reveal_strlit("Proximity (present)");
    reveal_strlit("proximity1");
    reveal_strlit("Proximity (distance)");
    reveal_strlit("attention");
    reveal_strlit("Attention");
    reveal_strlit("angl0");
    reveal_strlit("Hinge Angle");
    reveal_strlit("angl1");
    reveal_strlit("Screen Angle");
    reveal_strlit("angl2");
    reveal_strlit("Keyboard Angle");
    reveal_strlit("rot_quaternion");
    reveal_strlit("Rotation (Quaternion)");
    reveal_strlit("prox");
    reveal_strlit("Proximity");
    reveal_strlit("light");
    reveal_strlit("Ambient Light");
    reveal_strlit("illuminance");
    reveal_strlit("Ambient Light");
    reveal_strlit("hinge_angle");
    reveal_strlit("Hinge Angle");
    let t = channel_names();
    let n = lowercase_view(name);
    if n == "proximity0"@ {
        lemma_lookup_at(t, n, 0);
    }
    if n == "proximity1"@ {
        lemma_lookup_at(t, n, 1);
    }
    if n == "attention"@ {
        lemma_lookup_at(t, n, 2);
    }
    if n == "angl0"@ {
        lemma_lookup_at(t, n, 15);
    }
    if n == "angl1"@ {
        lemma_lookup_at(t, n, 16);
    }
    if n == "angl2"@ {
        lemma_lookup_at(t, n, 17);
    }
    if n == "rot_quaternion"@ {
        lemma_lookup_at(t, n, 18);
    }
    if n == "prox"@ {
        lemma_lookup_at(t, n, 19);
    }
    if n == "light"@ {
        lemma_lookup_at(t, n, 20);
    }
    if n == "illuminance"@ {
        lemma_lookup_at(t, n, 21);
    }
    if n == "hinge_angle"@ {
        lemma_lookup_at(t, n, 22);
    }
}

/// A channel that the table does not know is shown by its lowercase name's words: a name
/// without `'_'` is capitalized; a name of two words joined by `'_'` is both words
/// capitalized, joined by one space.
pub proof fn law_friendly_unknown_names(name: Seq<char>, w1: Seq<char>, w2: Seq<char>)
    requires
        table_lookup(channel_names(), lowercase_view(name)) is None,
        forall|j: int| 0 <= j < w1.len() ==> w1[j] != '_',
        forall|j: int| 0 <= j < w2.len() ==> w2[j] != '_',
    ensures
        lowercase_view(name) == w1 ==> friendly_channel_view(name) == capitalize_view(w1),
        lowercase_view(name) == w1 + seq!['_'] + w2 ==> friendly_channel_view(name)
            == capitalize_view(w1) + " "@ + capitalize_view(w2),
{
    let n = lowercase_view(name);
    lemma_index_of(w1, '_');
    lemma_index_of(w2, '_');
    if n == w1 {
        assert(split_on(w1, '_') == seq![w1]);
        assert(split_on(w1, '_').map_values(|w: Seq<char>| capitalize_view(w)) =~= seq![
            capitalize_view(w1),
        ]);
    }
    if n == w1 + seq!['_'] + w2 {
        let m = w1 + seq!['_'] + w2;
        assert forall|j: int| 0 <= j < w1.len() implies m[j] != '_' by {
            assert(m[j] == w1[j]);
        }
        assert(m[w1.len() as int] == '_');
        lemma_index_of(m, '_');
        assert(index_of(m, '_') == w1.len());
        assert(m.take(w1.len() as int) =~= w1);
        assert(m.skip(w1.len() as int + 1) =~= w2);
        assert(split_on(w2, '_') == seq![w2]);
        assert(split_on(m, '_') =~= seq![w1, w2]);
        let caps = split_on(m, '_').map_values(|w: Seq<char>| capitalize_view(w));
        assert(caps =~= seq![capitalize_view(w1), capitalize_view(w2)]);
        assert(caps.drop_first() =~= seq![capitalize_view(w2)]);
        reveal_with_fuel(join_parts, 3);
    }
}

// ───────────────────────────── grouping laws ─────────────────────────────
/// Grouping by key: the group keys are the distinct keys of the list, each once; a key's
/// positions are exactly the positions that hold it, in increasing order.
pub proof fn law_grouping(keys: Seq<Seq<char>>, k: Seq<char>)
    ensures
        first_appearances(keys).contains(k) <==> keys.contains(k),
        forall|g1: int, g2: int|
            0 <= g1 < g2 < first_appearances(keys).len() ==> first_appearances(keys)[g1]
                != first_appearances(keys)[g2],
        forall|m: int|
            0 <= m < positions_of(keys, k).len() ==> 0 <= #[trigger] positions_of(keys, k)[m]
                < keys.len() && keys[positions_of(keys, k)[m]] == k,
        forall|m1: int, m2: int|
            0 <= m1 < m2 < positions_of(keys, k).len() ==> positions_of(keys, k)[m1] < positions_of(
                keys,
                k,
            )[m2],
        forall|i: int| 0 <= i < keys.len() && keys[i] == k ==> positions_of(keys, k).contains(i),
    decreases keys.len(),
{
    if keys.len() > 0 {
        let init = keys.drop_last();
        law_grouping(init, k);
        law_grouping(init, keys.last());
        let fa0 = first_appearances(init);
        let p0 = positions_of(init, k);
        assert forall|j: int| 0 <= j < init.len() implies init[j] == keys[j] by {}
        if keys.contains(k) {
            let i = choose|i: int| 0 <= i < keys.len() && keys[i] == k;
            if i < init.len() {
                assert(init.contains(k));
                let g = choose|g: int| 0 <= g < fa0.len() && fa0[g] == k;
                if !fa0.contains(keys.last()) {
                    assert(fa0.push(keys.last())[g] == k);
                }
            } else {
                if !fa0.contains(keys.last()) {
                    assert(fa0.push(keys.last())[fa0.len() as int] == k);
                }
            }
        }
        if first_appearances(keys).contains(k) {
            let g = choose|g: int|
                0 <= g < first_appearances(keys).len() && first_appearances(keys)[g] == k;
            if fa0.contains(keys.last()) || g < fa0.len() {
                if g < fa0.len() {
                    assert(first_appearances(keys)[g] == fa0[g]);
                    let i = choose|i: int| 0 <= i < init.len() && init[i] == k;
                    assert(keys[i] == k);
                }
            } else {
                assert(keys[keys.len() - 1] == k);
            }
        }
        assert forall|i: int| 0 <= i < keys.len() && keys[i] == k implies positions_of(
            keys,
            k,
        ).contains(i) by {
            if i < init.len() {
                assert(p0.contains(i));
                let m = choose|m: int| 0 <= m < p0.len() && p0[m] == i;
                if keys.last() == k {
                    assert(p0.push(keys.len() - 1)[m] == i);
                }
            } else {
                assert(p0.push(keys.len() - 1)[p0.len() as int] == i);
            }
        }
    }
}

} // verus!
