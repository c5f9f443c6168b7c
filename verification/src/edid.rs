//! EDID reading and HDR patching: the base block's vendor fields, the CTA-861 data
//! block walk that detects HDR static metadata, and the construction of a CTA-861
//! extension block that carries the HDR metadata found in a DisplayID block.
use vstd::prelude::*;
use crate::text::{chars_of, contains, contains_str};

verus! {

// ───────────────────────────── byte specs ─────────────────────────────
/// The bytes `pat` stand in `s` at index `j`.
pub open spec fn pattern_at(s: Seq<u8>, pat: Seq<u8>, j: int) -> bool {
    0 <= j && j + pat.len() <= s.len() && s.subrange(j, j + pat.len()) == pat
}

/// The first index `j` with `lo <= j < hi` where `pat` stands in `s`.
pub open spec fn first_at(s: Seq<u8>, pat: Seq<u8>, lo: int, hi: int) -> Option<int>
    decreases hi - lo,
{
    if lo >= hi {
        None
    } else if pattern_at(s, pat, lo) {
        Some(lo)
    } else {
        first_at(s, pat, lo + 1, hi)
    }
}

/// What `first_at` returns: the first index in the range where the pattern stands.
pub proof fn lemma_first_at(s: Seq<u8>, pat: Seq<u8>, lo: int, hi: int)
    requires
        0 <= lo,
    ensures
        match first_at(s, pat, lo, hi) {
            Some(k) => lo <= k < hi && pattern_at(s, pat, k) && forall|j: int|
                lo <= j < k ==> !#[trigger] pattern_at(s, pat, j),
            None => forall|j: int| lo <= j < hi ==> !#[trigger] pattern_at(s, pat, j),
        },
    decreases hi - lo,
{
    if lo < hi {
        lemma_first_at(s, pat, lo + 1, hi);
    }
}

/// The sum of the bytes of `s`.
pub open spec fn byte_sum(s: Seq<u8>) -> nat
    decreases s.len(),
{
    if s.len() == 0 {
        0
    } else {
        byte_sum(s.drop_last()) + s.last() as nat
    }
}

/// The byte that makes a block's bytes sum to a multiple of 256, given the sum of the others.
pub open spec fn checksum_of(sum: nat) -> u8 {
    ((256 - sum % 256) % 256) as u8
}

/// The three letters of the PNP manufacturer ID in bytes 8 and 9 of the base block.
pub open spec fn manufacturer_id(d8: u8, d9: u8) -> Seq<char> {
    seq![
        ((((d8 >> 2u8) & 0x1fu8) + 64u8) as char),
        (((((d8 & 0x03u8) << 3u8) | ((d9 >> 5u8) & 0x07u8)) + 64u8) as char),
        (((d9 & 0x1fu8) + 64u8) as char),
    ]
}

/// A lowercase hexadecimal digit for `d < 16`.
pub open spec fn hex_digit(d: nat) -> char {
    if d < 10 {
        (48 + d) as char
    } else {
        (87 + d) as char
    }
}

/// `v` written as `0x` and four lowercase hex digits.
pub open spec fn hex4(v: nat) -> Seq<char> {
    seq![
        '0',
        'x',
        hex_digit((v / 4096) % 16),
        hex_digit((v / 256) % 16),
        hex_digit((v / 16) % 16),
        hex_digit(v % 16),
    ]
}

/// The 128-byte extension block number `e` (counting from 0) of `data`.
pub open spec fn ext_block(data: Seq<u8>, e: int) -> Seq<u8> {
    data.subrange(128 + 128 * e, 256 + 128 * e)
}

/// Walks a CTA-861 data block collection from `idx` up to the detailed-timing offset `dtd`,
/// stepping over each data block by the length in its header byte; true when an
/// extended-tag block (tag 7) with extended tag 0x06 (HDR static metadata) is met.
pub open spec fn cta_walk(block: Seq<u8>, idx: int, dtd: int) -> bool
    decreases dtd - idx,
{
    if idx >= dtd || idx < 0 || idx >= block.len() {
        false
    } else {
        let tag_len = block[idx];
        let tag = tag_len >> 5u8;
        let length = (tag_len & 0x1fu8) as int;
        if length == 0 {
            cta_walk(block, idx + 1, dtd)
        } else if tag == 7 && idx + length < block.len() && block[idx + 1] == 0x06 {
            true
        } else if idx + 1 + length >= dtd {
            false
        } else {
            cta_walk(block, idx + 1 + length, dtd)
        }
    }
}

/// The detailed-timing offset of a CTA block: byte 2 when it lies in 4..=127, else 127.
pub open spec fn cta_dtd_offset(block: Seq<u8>) -> int {
    if 4 <= block[2] <= 127 {
        block[2] as int
    } else {
        127
    }
}

/// A 128-byte CTA-861 block (tag 0x02) whose data block collection holds HDR static metadata.
pub open spec fn cta_block_has_hdr(block: Seq<u8>) -> bool {
    block[0] == 0x02 && cta_walk(block, 4, cta_dtd_offset(block))
}

/// Some extension block, among those the base block counts and that `data` holds in full,
/// is a CTA-861 block with HDR static metadata.
pub open spec fn spec_has_cta_hdr(data: Seq<u8>) -> bool {
    data.len() >= 128 && exists|e: int|
        0 <= e < data[126] && 256 + 128 * e <= data.len() && #[trigger] cta_block_has_hdr(
            ext_block(data, e),
        )
}

/// Whether byte `i` of the first extension block starts a DisplayID HDR metadata tag (0x06 0x05).
pub open spec fn displayid_hdr_at(data: Seq<u8>, i: int) -> bool {
    data[i] == 0x06 && data[i + 1] == 0x05
}

/// DisplayID HDR static metadata header bytes.
pub open spec fn hdr_pattern() -> Seq<u8> {
    seq![0xe6u8, 0x06u8, 0x05u8]
}

/// DisplayID colorimetry header bytes.
pub open spec fn color_pattern() -> Seq<u8> {
    seq![0xe3u8, 0x05u8]
}

/// The AMD vendor block marker, four bytes into that block.
pub open spec fn amd_pattern() -> Seq<u8> {
    seq![0x00u8, 0x00u8, 0x1au8]
}

/// `k + shift` for a found index `k`, and -1 when nothing was found.
pub open spec fn index_or_missing(o: Option<int>, shift: int) -> int {
    match o {
        Some(k) => k + shift,
        None => -1,
    }
}

/// Where the HDR metadata block starts in the first extension block.
pub open spec fn hdr_index(o: Seq<u8>) -> Option<int> {
    first_at(o, hdr_pattern(), 128, 249)
}

/// Where the colorimetry block starts in the first extension block.
pub open spec fn color_index(o: Seq<u8>) -> Option<int> {
    first_at(o, color_pattern(), 128, 252)
}

/// Where the AMD marker stands in the first extension block (the block itself starts 4 bytes earlier).
pub open spec fn amd_marker_index(o: Seq<u8>) -> Option<int> {
    first_at(o, amd_pattern(), 128, 236)
}

/// The vendor block copied into the new CTA block: the 20 AMD bytes, when present.
pub open spec fn amd_part(o: Seq<u8>) -> Seq<u8> {
    match amd_marker_index(o) {
        Some(k) => o.subrange(k - 4, k + 16),
        None => seq![],
    }
}

/// The colorimetry data block (extended tag 0x05) of the new CTA block.
pub open spec fn color_part(o: Seq<u8>) -> Seq<u8> {
    match color_index(o) {
        Some(c) => if c + 6 <= o.len() {
            seq![0xe5u8, 0x05u8] + o.subrange(c + 2, c + 6)
        } else {
            seq![]
        },
        None => seq![0xe5u8, 0x05u8, 0x00u8, 0x00u8, 0x80u8, 0x00u8],
    }
}

/// The HDR static metadata data block (extended tag 0x06) of the new CTA block.
pub open spec fn hdr_part(o: Seq<u8>, h: int) -> Seq<u8> {
    seq![0xe6u8, 0x06u8] + o.subrange(h + 2, h + 7)
}

/// `b + 1`, stopping at 255.
pub open spec fn sat_inc(b: u8) -> u8 {
    if b == 255 {
        255
    } else {
        (b + 1) as u8
    }
}

/// The first 127 bytes of a block followed by the byte that completes their checksum.
pub open spec fn with_checksum(body: Seq<u8>) -> Seq<u8> {
    body.push(checksum_of(byte_sum(body)))
}

/// The patched base block: the extension count raised by one, checksum recomputed.
pub open spec fn patched_base(o: Seq<u8>) -> Seq<u8> {
    with_checksum(o.subrange(0, 126).push(sat_inc(o[126])))
}

/// The new CTA-861 extension block carrying the data blocks `payload`.
pub open spec fn cta_block(payload: Seq<u8>) -> Seq<u8> {
    let dtd = if 4 + payload.len() > 0x23 {
        4 + payload.len()
    } else {
        0x23
    };
    with_checksum(
        seq![0x02u8, 0x03u8, dtd as u8, 0x00u8] + payload + Seq::new(
            (123 - payload.len()) as nat,
            |i: int| 0u8,
        ),
    )
}

/// The patched EDID for an original `o` whose HDR metadata block starts at `h`: the patched
/// base block, the original first extension block, then the new CTA block.
pub open spec fn patched_image(o: Seq<u8>, h: int) -> Seq<u8> {
    patched_base(o) + o.subrange(128, 256) + cta_block(
        amd_part(o) + color_part(o) + hdr_part(o, h),
    )
}

/// Summary of an EDID blob as the EDID page shows it.
pub struct EdidInfo {
    pub manufacturer: String,
    pub product_code: String,
    pub size: usize,
    pub extension_count: u8,
    pub has_displayid: bool,
    pub has_hdr: bool,
    pub has_cta_hdr: bool,
}

// ───────────────────────────── exec ─────────────────────────────
/// The sum of `s[lo..hi]`.
fn sum_bytes(s: &[u8], lo: usize, hi: usize) -> (res: u32)
    requires
        lo <= hi <= s@.len(),
        hi - lo <= 256,
    ensures
        res == byte_sum(s@.subrange(lo as int, hi as int)),
        res <= 255 * (hi - lo),
{
    let mut acc: u32 = 0;
    let mut i: usize = lo;
    while i < hi
        invariant
            lo <= i <= hi <= s@.len(),
            hi - lo <= 256,
            acc == byte_sum(s@.subrange(lo as int, i as int)),
            acc <= 255 * (i - lo),
        decreases hi - i,
    {
        assert(s@.subrange(lo as int, i + 1).drop_last() =~= s@.subrange(lo as int, i as int));
        acc = acc + s[i] as u32;
        i = i + 1;
    }
    acc
}

/// The byte that completes the checksum of a block whose other bytes sum to `sum`.
fn checksum_byte(sum: u32) -> (res: u8)
    ensures
        res == checksum_of(sum as nat),
        (sum + res) % 256 == 0,
{
    ((256 - (sum % 256)) % 256) as u8
}

/// The first index in `lo..hi` where `pat` stands in `s`.
fn find_bytes(s: &[u8], pat: &[u8], lo: usize, hi: usize) -> (res: Option<usize>)
    requires
        lo <= hi,
        hi + pat@.len() <= s@.len() + 1,
    ensures
        match res {
            Some(k) => first_at(s@, pat@, lo as int, hi as int) == Some(k as int),
            None => first_at(s@, pat@, lo as int, hi as int) is None,
        },
{
    let n = s.len();
    let mut i: usize = lo;
    while i < hi
        invariant
            n == s@.len(),
            lo <= i <= hi,
            hi + pat@.len() <= s@.len() + 1,
            first_at(s@, pat@, lo as int, hi as int) == first_at(s@, pat@, i as int, hi as int),
        decreases hi - i,
    {
        let mut j: usize = 0;
        let mut ok = true;
        while j < pat.len()
            invariant
                n == s@.len(),
                i < hi,
                hi + pat@.len() <= s@.len() + 1,
                j <= pat@.len(),
                ok == forall|k: int| 0 <= k < j ==> s@[i + k] == pat@[k],
            decreases pat@.len() - j,
        {
            if s[i + j] != pat[j] {
                ok = false;
            }
            j = j + 1;
        }
        if ok {
            assert(s@.subrange(i as int, i + pat@.len()) =~= pat@);
            return Some(i);
        }
        assert(s@.subrange(i as int, i + pat@.len()) != pat@) by {
            let k = choose|k: int| 0 <= k < pat@.len() && s@[i + k] != pat@[k];
            assert(s@.subrange(i as int, i + pat@.len())[k] == s@[i + k]);
        }
        i = i + 1;
    }
    None
}

/// A lowercase hexadecimal digit.
fn hex_char(d: u16) -> (c: char)
    requires
        d < 16,
    ensures
        c == hex_digit(d as nat),
{
    if d < 10 {
        ((48u8 + d as u8) as char)
    } else {
        ((87u8 + d as u8) as char)
    }
}

/// Walks the data block collection of a CTA block, as `cta_walk` states it.
fn walk_cta_block(block: &[u8], dtd: usize) -> (res: bool)
    requires
        block@.len() == 128,
        4 <= dtd <= 127,
    ensures
        res == cta_walk(block@, 4, dtd as int),
{
    let mut idx: usize = 4;
    while idx < dtd
        invariant
            block@.len() == 128,
            dtd <= 127,
            idx <= 128 + 31,
            cta_walk(block@, 4, dtd as int) == cta_walk(block@, idx as int, dtd as int),
        decreases dtd - idx,
    {
        let tag_len = block[idx];
        let tag = tag_len >> 5u8;
        let length = (tag_len & 0x1fu8) as usize;
        assert(tag_len & 0x1fu8 <= 31u8) by (bit_vector);
        if length == 0 {
            idx = idx + 1;
        } else {
            if tag == 7 && idx + length < block.len() {
                if block[idx + 1] == 0x06 {
                    return true;
                }
            }
            if idx + 1 + length >= dtd {
                return false;
            }
            idx = idx + 1 + length;
        }
    }
    false
}

/// Whether the EDID holds a CTA-861 extension block with HDR static metadata.
pub fn has_cta_hdr(data: &[u8]) -> (res: bool)
    ensures
        res == spec_has_cta_hdr(data@),
{
    let n = data.len();
    if n < 128 {
        return false;
    }
    let ext_count = data[126] as usize;
    let mut e: usize = 0;
    while e < ext_count
        invariant
            n == data@.len(),
            n >= 128,
            ext_count == data@[126],
            e <= ext_count,
            forall|k: int|
                0 <= k < e && 256 + 128 * k <= n ==> !#[trigger] cta_block_has_hdr(
                    ext_block(data@, k),
                ),
            128 + 128 * e <= n,
        decreases ext_count - e,
    {
        let start = 128 + e * 128;
        let end = start + 128;
        if end > n {
            assert forall|k: int| 0 <= k < data@[126] && 256 + 128 * k <= n implies !#[trigger] cta_block_has_hdr(
                ext_block(data@, k),
            ) by {
                assert(k < e);
            }
            return false;
        }
        let mut block: Vec<u8> = Vec::new();
        let mut i: usize = start;
        while i < end
            invariant
                n == data@.len(),
                start == 128 + 128 * e,
                end == start + 128,
                end <= n,
                start <= i <= end,
                block@ == data@.subrange(start as int, i as int),
            decreases end - i,
        {
            block.push(data[i]);
            i = i + 1;
            assert(block@ =~= data@.subrange(start as int, i as int));
        }
        assert(block@ == ext_block(data@, e as int));
        if block[0] == 0x02 {
            let dtd: usize = if block[2] >= 4 && block[2] <= 127 {
                block[2] as usize
            } else {
                127
            };
            if walk_cta_block(block.as_slice(), dtd) {
                assert(cta_block_has_hdr(ext_block(data@, e as int)));
                return true;
            }
        }
        e = e + 1;
    }
    false
}

/// Locates the HDR metadata, colorimetry and AMD vendor blocks inside the first extension
/// block, each as a byte index, or -1 where absent (all -1 for an EDID shorter than 256 bytes).
pub fn extract_blocks(edid: &[u8]) -> (res: (i32, i32, i32))
    ensures
        edid@.len() < 256 ==> res == (-1i32, -1i32, -1i32),
        edid@.len() >= 256 ==> {
            &&& res.0 == index_or_missing(hdr_index(edid@), 0)
            &&& res.1 == index_or_missing(color_index(edid@), 0)
            &&& res.2 == index_or_missing(amd_marker_index(edid@), -4)
        },
{
    if edid.len() < 256 {
        return (-1, -1, -1);
    }
    let hdr_pat: [u8; 3] = [0xe6, 0x06, 0x05];
    let color_pat: [u8; 2] = [0xe3, 0x05];
    let amd_pat: [u8; 3] = [0x00, 0x00, 0x1a];
    assert(hdr_pat@ =~= hdr_pattern());
    assert(color_pat@ =~= color_pattern());
    assert(amd_pat@ =~= amd_pattern());
    proof {
        lemma_first_at(edid@, hdr_pattern(), 128, 249);
        lemma_first_at(edid@, color_pattern(), 128, 252);
        lemma_first_at(edid@, amd_pattern(), 128, 236);
    }
    let hdr_start: i32 = match find_bytes(edid, &hdr_pat, 128, 249) {
        Some(i) => i as i32,
        None => -1,
    };
    let color_start: i32 = match find_bytes(edid, &color_pat, 128, 252) {
        Some(i) => i as i32,
        None => -1,
    };
    let amd_start: i32 = match find_bytes(edid, &amd_pat, 128, 236) {
        Some(i) => i as i32 - 4,
        None => -1,
    };
    (hdr_start, color_start, amd_start)
}

/// Appends `s[lo..hi]` to `v`.
fn push_range(v: &mut Vec<u8>, s: &[u8], lo: usize, hi: usize)
    requires
        lo <= hi <= s@.len(),
    ensures
        final(v)@ == old(v)@ + s@.subrange(lo as int, hi as int),
{
    let mut i: usize = lo;
    while i < hi
        invariant
            lo <= i <= hi <= s@.len(),
            v@ == old(v)@ + s@.subrange(lo as int, i as int),
        decreases hi - i,
    {
        v.push(s[i]);
        i = i + 1;
        assert(v@ =~= old(v)@ + s@.subrange(lo as int, i as int));
    }
}

/// The patched base block of `original`.
fn build_patched_base(original: &[u8]) -> (base: Vec<u8>)
    requires
        original@.len() >= 256,
    ensures
        base@ == patched_base(original@),
{
    let ghost o = original@;
    let mut base: Vec<u8> = Vec::new();
    push_range(&mut base, original, 0, 126);
    let ext = original[126];
    let bumped: u8 = if ext == 255 {
        255
    } else {
        ext + 1
    };
    base.push(bumped);
    let ghost base127 = base@;
    assert(base127 =~= o.subrange(0, 126).push(sat_inc(o[126])));
    let base_sum = sum_bytes(base.as_slice(), 0, 127);
    assert(base@.subrange(0, 127) =~= base127);
    base.push(checksum_byte(base_sum));
    base
}

/// The new CTA-861 block around the data blocks `payload`.
fn build_cta_block(payload: &[u8]) -> (cta: Vec<u8>)
    requires
        payload@.len() <= 33,
    ensures
        cta@ == cta_block(payload@),
{
    let mut cta: Vec<u8> = Vec::new();
    cta.push(0x02);
    cta.push(0x03);
    cta.push(0x23);
    cta.push(0x00);
    let ghost head = cta@;
    push_range(&mut cta, payload, 0, payload.len());
    assert(payload@.subrange(0, payload@.len() as int) =~= payload@);
    let offset = cta.len();
    while cta.len() < 127
        invariant
            offset == 4 + payload@.len(),
            offset <= cta@.len() <= 127,
            cta@ == head + payload@ + Seq::new((cta@.len() - offset) as nat, |i: int| 0u8),
        decreases 127 - cta@.len(),
    {
        cta.push(0x00);
        assert(cta@ =~= head + payload@ + Seq::new(
            (cta@.len() - offset) as nat,
            |i: int| 0u8,
        ));
    }
    let dtd: usize = if offset > 0x23 {
        offset
    } else {
        0x23
    };
    cta.set(2, dtd as u8);
    let ghost body = cta@;
    let dtd_byte: u8 = dtd as u8;
    assert(body =~= seq![0x02u8, 0x03u8, dtd_byte, 0x00u8] + payload@ + Seq::new(
        (123 - payload@.len()) as nat,
        |i: int| 0u8,
    ));
    let cta_sum = sum_bytes(cta.as_slice(), 0, 127);
    assert(cta@.subrange(0, 127) =~= body);
    cta.push(checksum_byte(cta_sum));
    cta
}

/// Builds the patched EDID: the base block with one more extension counted, the original
/// DisplayID block, and a new CTA-861 block holding the AMD vendor block, the colorimetry
/// block and the HDR static metadata block taken from the DisplayID block.
pub fn create_patched_edid(original: &[u8]) -> (res: Result<Vec<u8>, String>)
    ensures
        original@.len() < 256 ==> (res matches Err(e) && e@
            == "EDID missing DisplayID extension block"@),
        original@.len() >= 256 && hdr_index(original@) is None ==> (res matches Err(e) && e@
            == "HDR Static Metadata block not found in DisplayID"@),
        original@.len() >= 256 ==> (hdr_index(original@) matches Some(h) ==> (res matches Ok(r)
            && r@ == patched_image(original@, h))),
{
    let n = original.len();
    if n < 256 {
        return Err(String::from_str("EDID missing DisplayID extension block"));
    }
    let ghost o = original@;
    let (hdr_start, color_start, amd_start) = extract_blocks(original);
    proof {
        lemma_first_at(o, hdr_pattern(), 128, 249);
        lemma_first_at(o, color_pattern(), 128, 252);
        lemma_first_at(o, amd_pattern(), 128, 236);
    }
    let base = build_patched_base(original);

    let mut payload: Vec<u8> = Vec::new();
    if amd_start >= 0 {
        let amd = amd_start as usize;
        if amd + 20 <= n {
            push_range(&mut payload, original, amd, amd + 20);
        }
    }
    assert(payload@ =~= amd_part(o));
    if color_start >= 0 {
        let cs = color_start as usize;
        if cs + 6 <= n {
            payload.push(0xe5);
            payload.push(0x05);
            push_range(&mut payload, original, cs + 2, cs + 6);
        }
    } else {
        payload.push(0xe5);
        payload.push(0x05);
        payload.push(0x00);
        payload.push(0x00);
        payload.push(0x80);
        payload.push(0x00);
    }
    assert(payload@ =~= amd_part(o) + color_part(o));
    if hdr_start < 0 {
        return Err(String::from_str("HDR Static Metadata block not found in DisplayID"));
    }
    let hs = hdr_start as usize;
    if hs + 7 > n {
        return Err(String::from_str("HDR block truncated in DisplayID"));
    }
    payload.push(0xe6);
    payload.push(0x06);
    push_range(&mut payload, original, hs + 2, hs + 7);
    assert(payload@ =~= amd_part(o) + color_part(o) + hdr_part(o, hs as int));
    let cta = build_cta_block(payload.as_slice());

    let mut result = base;
    push_range(&mut result, original, 128, 256);
    push_range(&mut result, cta.as_slice(), 0, cta.len());
    assert(cta@.subrange(0, cta@.len() as int) =~= cta@);
    Ok(result)
}

/// Whether a DRM connector's name (such as `card1-eDP-1`) names the internal panel.
pub fn is_edp_connector(name: &str) -> (res: bool)
    ensures
        res == contains(name@, "-eDP-"@),
{
    let cs = chars_of(name);
    contains_str(cs.as_slice(), "-eDP-")
}

/// What the patch action gives for a loaded EDID.
pub enum PatchOutcome {
    /// The EDID already carries HDR metadata in a CTA-861 block: nothing to patch.
    AlreadyPatched,
    /// The patched EDID, ready to be saved.
    Patched(Vec<u8>),
    /// The EDID could not be patched, for the reason given.
    Failed(String),
}

/// The patch action: nothing when a CTA-861 block already carries HDR metadata, else the
/// result of building the patched EDID.
pub fn patch_edid(data: &[u8]) -> (res: PatchOutcome)
    ensures
        spec_has_cta_hdr(data@) <==> res is AlreadyPatched,
        !spec_has_cta_hdr(data@) && data@.len() < 256 ==> (res matches PatchOutcome::Failed(e)
            && e@ == "EDID missing DisplayID extension block"@),
        !spec_has_cta_hdr(data@) && data@.len() >= 256 && hdr_index(data@) is None ==> (
        res matches PatchOutcome::Failed(e) && e@
            == "HDR Static Metadata block not found in DisplayID"@),
        !spec_has_cta_hdr(data@) && data@.len() >= 256 ==> (hdr_index(data@) matches Some(h)
            ==> (res matches PatchOutcome::Patched(p) && p@ == patched_image(data@, h))),
{
    if has_cta_hdr(data) {
        return PatchOutcome::AlreadyPatched;
    }
    match create_patched_edid(data) {
        Ok(p) => PatchOutcome::Patched(p),
        Err(e) => PatchOutcome::Failed(e),
    }
}

impl EdidInfo {
    /// Reads the summary of an EDID; `None` when it is shorter than one 128-byte block.
    pub fn parse(data: &[u8]) -> (res: Option<EdidInfo>)
        ensures
            data@.len() < 128 <==> res is None,
            res matches Some(info) ==> {
                &&& info.manufacturer@ == manufacturer_id(data@[8], data@[9])
                &&& info.product_code@ == hex4(data@[10] as nat + 256 * data@[11] as nat)
                &&& info.size == data@.len()
                &&& info.extension_count == data@[126]
                &&& info.has_displayid == (data@.len() >= 256 && data@[126] >= 1 && data@[128]
                    == 0x70)
                &&& info.has_hdr == (info.has_displayid && exists|i: int|
                    128 <= i < 255 && #[trigger] displayid_hdr_at(data@, i))
                &&& info.has_cta_hdr == spec_has_cta_hdr(data@)
            },
    {
        let n = data.len();
        if n < 128 {
            return None;
        }
        let d8 = data[8];
        let d9 = data[9];
        assert(((d8 >> 2u8) & 0x1fu8) <= 31u8) by (bit_vector);
        assert((((d8 & 0x03u8) << 3u8) | ((d9 >> 5u8) & 0x07u8)) <= 31u8) by (bit_vector);
        assert((d9 & 0x1fu8) <= 31u8) by (bit_vector);
        let a: u8 = ((d8 >> 2u8) & 0x1fu8) + 64u8;
        let b: u8 = (((d8 & 0x03u8) << 3u8) | ((d9 >> 5u8) & 0x07u8)) + 64u8;
        let c: u8 = (d9 & 0x1fu8) + 64u8;
        let mut manufacturer = String::new();
        manufacturer.push(a as char);
        manufacturer.push(b as char);
        manufacturer.push(c as char);
        assert(manufacturer@ =~= manufacturer_id(d8, d9));

        let product: u16 = (data[10] as u16) | ((data[11] as u16) << 8u16);
        let lo10 = data[10];
        let hi11 = data[11];
        assert((lo10 as u16) | ((hi11 as u16) << 8u16) == lo10 as u16 + 256 * (hi11 as u16))
            by (bit_vector);
        let mut product_code = String::new();
        product_code.push('0');
        product_code.push('x');
        product_code.push(hex_char((product / 4096) % 16));
        product_code.push(hex_char((product / 256) % 16));
        product_code.push(hex_char((product / 16) % 16));
        product_code.push(hex_char(product % 16));
        assert(product_code@ =~= hex4(data@[10] as nat + 256 * data@[11] as nat));

        let extension_count = data[126];
        let mut has_displayid = false;
        let mut has_hdr = false;
        if n >= 256 && extension_count >= 1 && data[128] == 0x70 {
            has_displayid = true;
            let end: usize = 255;
            let mut i: usize = 128;
            while i < end
                invariant
                    n == data@.len(),
                    n >= 256,
                    128 <= i <= end,
                    end == 255,
                    has_hdr == exists|k: int| 128 <= k < i && #[trigger] displayid_hdr_at(data@, k),
                decreases end - i,
            {
                if data[i] == 0x06 && data[i + 1] == 0x05 {
                    assert(displayid_hdr_at(data@, i as int));
                    has_hdr = true;
                } else {
                    assert(!displayid_hdr_at(data@, i as int));
                }
                i = i + 1;
            }
        }
        let cta = has_cta_hdr(data);
        Some(
            EdidInfo {
                manufacturer,
                product_code,
                size: n,
                extension_count,
                has_displayid,
                has_hdr,
                has_cta_hdr: cta,
            },
        )
    }
}

} // verus!

verus! {

// ───────────────────────────── laws ─────────────────────────────
/// A block completed by `with_checksum` sums to a multiple of 256.
pub proof fn lemma_with_checksum(body: Seq<u8>)
    ensures
        byte_sum(with_checksum(body)) % 256 == 0,
        with_checksum(body).len() == body.len() + 1,
        with_checksum(body).drop_last() == body,
{
    let w = with_checksum(body);
    assert(w.drop_last() =~= body);
}

/// A patched EDID is three 128-byte blocks: the base block, whose bytes still sum to a
/// multiple of 256, that keeps every byte but the extension count (raised by one) and the
/// checksum; the original first extension block, unchanged; and a new CTA-861 block
/// (tag 0x02, revision 3) whose bytes sum to a multiple of 256 as well.
pub proof fn law_patched_edid_blocks(o: Seq<u8>, h: int)
    requires
        o.len() >= 256,
        hdr_index(o) == Some(h),
    ensures
        ({
            let img = patched_image(o, h);
            &&& img.len() == 384
            &&& byte_sum(img.subrange(0, 128)) % 256 == 0
            &&& img.subrange(0, 126) == o.subrange(0, 126)
            &&& img[126] == sat_inc(o[126])
            &&& img.subrange(128, 256) == o.subrange(128, 256)
            &&& byte_sum(img.subrange(256, 384)) % 256 == 0
            &&& img[256] == 0x02 && img[257] == 0x03
        }),
{
    lemma_first_at(o, hdr_pattern(), 128, 249);
    lemma_first_at(o, color_pattern(), 128, 252);
    lemma_first_at(o, amd_pattern(), 128, 236);
    let base = patched_base(o);
    let payload = amd_part(o) + color_part(o) + hdr_part(o, h);
    assert(payload.len() <= 33);
    let cta = cta_block(payload);
    lemma_with_checksum(o.subrange(0, 126).push(sat_inc(o[126])));
    let dtd = if 4 + payload.len() > 0x23 {
        4 + payload.len()
    } else {
        0x23
    };
    let body = seq![0x02u8, 0x03u8, dtd as u8, 0x00u8] + payload + Seq::new(
        (123 - payload.len()) as nat,
        |i: int| 0u8,
    );
    lemma_with_checksum(body);
    let img = patched_image(o, h);
    assert(img.subrange(0, 128) =~= base);
    assert(img.subrange(128, 256) =~= o.subrange(128, 256));
    assert(img.subrange(256, 384) =~= cta);
    assert(img.subrange(0, 126) =~= o.subrange(0, 126)) by {
        assert(base.drop_last().drop_last() =~= o.subrange(0, 126));
    }
    assert(img[256] == cta[0]);
    assert(img[257] == cta[1]);
}

/// A patched EDID is itself detected as carrying CTA HDR metadata, so patching is not offered
/// twice: this holds when the base block already counted the DisplayID block (so the new CTA
/// block is counted too) and the copied AMD vendor block, when there is one, declares the
/// 19-byte payload that it has.
pub proof fn law_patched_edid_has_cta_hdr(o: Seq<u8>, h: int)
    requires
        o.len() >= 256,
        hdr_index(o) == Some(h),
        o[126] >= 1,
        amd_marker_index(o) matches Some(k) ==> o[k - 4] & 0x1fu8 == 19,
    ensures
        spec_has_cta_hdr(patched_image(o, h)),
{
    law_patched_edid_blocks(o, h);
    lemma_first_at(o, hdr_pattern(), 128, 249);
    lemma_first_at(o, color_pattern(), 128, 252);
    lemma_first_at(o, amd_pattern(), 128, 236);
    let img = patched_image(o, h);
    let amd = amd_part(o);
    let col = color_part(o);
    let payload = amd + col + hdr_part(o, h);
    let cta = cta_block(payload);
    let dtd = if 4 + payload.len() > 0x23 {
        4 + payload.len()
    } else {
        0x23
    };
    let body = seq![0x02u8, 0x03u8, dtd as u8, 0x00u8] + payload + Seq::new(
        (123 - payload.len()) as nat,
        |i: int| 0u8,
    );
    assert(cta.drop_last() == body);
    assert(ext_block(img, 1) =~= cta);
    assert forall|j: int| 0 <= j < payload.len() implies cta[4 + j] == payload[j] by {
        assert(cta[4 + j] == body[4 + j]);
    }
    assert(cta[0] == 0x02u8);
    assert(cta[2] == dtd as u8);
    assert(cta_dtd_offset(cta) == dtd);
    assert(0xe5u8 >> 5u8 == 7u8 && 0xe5u8 & 0x1fu8 == 5u8 && 0xe6u8 >> 5u8 == 7u8 && 0xe6u8
        & 0x1fu8 == 6u8) by (bit_vector);
    // Where the colorimetry and HDR blocks begin in the new CTA block.
    let c_at: int = 4 + amd.len() as int;
    let h_at: int = c_at + col.len() as int;
    let dtd: int = dtd as int;
    assert(cta[h_at] == 0xe6u8 && cta[h_at + 1] == 0x06u8) by {
        assert(payload[h_at - 4] == 0xe6u8);
        assert(payload[h_at - 3] == 0x06u8);
    }
    assert(cta_walk(cta, h_at, dtd));
    if col.len() > 0 {
        assert(col.len() == 6);
        assert(cta[c_at] == 0xe5u8 && cta[c_at + 1] == 0x05u8) by {
            assert(payload[c_at - 4] == 0xe5u8);
            assert(payload[c_at - 3] == 0x05u8);
        }
        assert(cta_walk(cta, c_at, dtd));
    }
    assert(cta_walk(cta, c_at, dtd));
    if amd.len() > 0 {
        let k = amd_marker_index(o)->0;
        let b = o[k - 4];
        assert(cta[4] == b) by {
            assert(payload[0] == amd[0]);
        }
        assert(b & 0x1fu8 == 19);
        assert(cta_walk(cta, 4, dtd));
    }
    assert(cta_walk(cta, 4, dtd));
    assert(cta_block_has_hdr(ext_block(img, 1)));
    assert(img[126] >= 2);
}

/// The three bytes `a b c` stand in `o` at `j`.
pub open spec fn bytes3_at(o: Seq<u8>, j: int, a: u8, b: u8, c: u8) -> bool {
    0 <= j && j + 3 <= o.len() && o[j] == a && o[j + 1] == b && o[j + 2] == c
}

/// The two bytes `a b` stand in `o` at `j`.
pub open spec fn bytes2_at(o: Seq<u8>, j: int, a: u8, b: u8) -> bool {
    0 <= j && j + 2 <= o.len() && o[j] == a && o[j + 1] == b
}

proof fn lemma_bytes_patterns(o: Seq<u8>)
    ensures
        forall|j: int|
            #[trigger] pattern_at(o, hdr_pattern(), j) == bytes3_at(o, j, 0xe6u8, 0x06u8, 0x05u8),
        forall|j: int|
            #[trigger] pattern_at(o, amd_pattern(), j) == bytes3_at(o, j, 0x00u8, 0x00u8, 0x1au8),
        forall|j: int| #[trigger] pattern_at(o, color_pattern(), j) == bytes2_at(o, j, 0xe3u8, 0x05u8),
{
    assert forall|j: int| #[trigger] pattern_at(o, hdr_pattern(), j) == bytes3_at(o, j, 0xe6u8, 0x06u8, 0x05u8) by {
        if bytes3_at(o, j, 0xe6u8, 0x06u8, 0x05u8) {
            assert(o.subrange(j, j + 3) =~= hdr_pattern());
        }
        if pattern_at(o, hdr_pattern(), j) {
            assert(o.subrange(j, j + 3)[1] == o[j + 1]);
            assert(o.subrange(j, j + 3)[2] == o[j + 2]);
        }
    }
    assert forall|j: int| #[trigger] pattern_at(o, amd_pattern(), j) == bytes3_at(o, j, 0x00u8, 0x00u8, 0x1au8) by {
        if bytes3_at(o, j, 0x00u8, 0x00u8, 0x1au8) {
            assert(o.subrange(j, j + 3) =~= amd_pattern());
        }
        if pattern_at(o, amd_pattern(), j) {
            assert(o.subrange(j, j + 3)[1] == o[j + 1]);
            assert(o.subrange(j, j + 3)[2] == o[j + 2]);
        }
    }
    assert forall|j: int| #[trigger] pattern_at(o, color_pattern(), j) == bytes2_at(o, j, 0xe3u8, 0x05u8) by {
        if bytes2_at(o, j, 0xe3u8, 0x05u8) {
            assert(o.subrange(j, j + 2) =~= color_pattern());
        }
        if pattern_at(o, color_pattern(), j) {
            assert(o.subrange(j, j + 2)[1] == o[j + 1]);
        }
    }
}

/// The first index in `lo..hi` where `pat` stands is `k` (or nothing stands there, for
/// `k == -1`): so `first_at` finds `k`.
proof fn lemma_first_is(s: Seq<u8>, pat: Seq<u8>, lo: int, hi: int, k: int)
    requires
        0 <= lo,
        k == -1 ==> forall|j: int| lo <= j < hi ==> !#[trigger] pattern_at(s, pat, j),
        k != -1 ==> lo <= k < hi && pattern_at(s, pat, k) && forall|j: int|
            lo <= j < k ==> !#[trigger] pattern_at(s, pat, j),
    ensures
        first_at(s, pat, lo, hi) == (if k == -1 {
            None::<int>
        } else {
            Some(k)
        }),
{
    lemma_first_at(s, pat, lo, hi);
}

/// The new CTA-861 block of a patched EDID, byte by byte. Its data block collection begins
/// with the 20 bytes of the AMD vendor block when the first extension block holds its marker
/// `00 00 1A` (first at `k`, the block starting 4 bytes earlier); then the colorimetry block
/// `E5 05` with the four bytes that follow the DisplayID colorimetry header `E3 05` (first at
/// `cc`), or `E5 05 00 00 80 00` when there is none; then the HDR static metadata block
/// `E6 06` with the five bytes that follow the DisplayID header `E6 06` (first `E6 06 05` at
/// `h`); then zeros. Its detailed-timing offset (byte 2) is 37 with the vendor block and 0x23
/// without it.
pub proof fn law_patched_edid_cta_layout(o: Seq<u8>, h: int, k: int, cc: int)
    requires
        o.len() >= 256,
        128 <= h < 249,
        bytes3_at(o, h, 0xe6u8, 0x06u8, 0x05u8),
        forall|j: int| 128 <= j < h ==> !#[trigger] bytes3_at(o, j, 0xe6u8, 0x06u8, 0x05u8),
        k == -1 ==> forall|j: int|
            128 <= j < 236 ==> !#[trigger] bytes3_at(o, j, 0x00u8, 0x00u8, 0x1au8),
        k != -1 ==> 128 <= k < 236 && bytes3_at(o, k, 0x00u8, 0x00u8, 0x1au8) && forall|
            j: int,
        | 128 <= j < k ==> !#[trigger] bytes3_at(o, j, 0x00u8, 0x00u8, 0x1au8),
        cc == -1 ==> forall|j: int|
            128 <= j < 252 ==> !#[trigger] bytes2_at(o, j, 0xe3u8, 0x05u8),
        cc != -1 ==> 128 <= cc < 252 && cc + 6 <= o.len() && bytes2_at(o, cc, 0xe3u8, 0x05u8) && forall|j: int| 128 <= j < cc ==> !#[trigger] bytes2_at(o, j, 0xe3u8, 0x05u8),
    ensures
        ({
            let cta = patched_image(o, h).subrange(256, 384);
            let a: int = if k != -1 {
                24
            } else {
                4
            };
            &&& patched_image(o, h).len() == 384
            &&& cta[0] == 0x02 && cta[1] == 0x03 && cta[3] == 0x00
            &&& cta[2] == (if k != -1 {
                37u8
            } else {
                0x23u8
            })
            &&& k != -1 ==> cta.subrange(4, 24) == o.subrange(k - 4, k + 16)
            &&& cta.subrange(a, a + 6) == (if cc != -1 {
                seq![0xe5u8, 0x05u8] + o.subrange(cc + 2, cc + 6)
            } else {
                seq![0xe5u8, 0x05u8, 0x00u8, 0x00u8, 0x80u8, 0x00u8]
            })
            &&& cta.subrange(a + 6, a + 13) == seq![0xe6u8, 0x06u8] + o.subrange(h + 2, h + 7)
            &&& forall|j: int| a + 13 <= j < 127 ==> #[trigger] cta[j] == 0
        }),
{
    lemma_bytes_patterns(o);
    lemma_first_is(o, hdr_pattern(), 128, 249, h);
    lemma_first_is(o, amd_pattern(), 128, 236, k);
    lemma_first_is(o, color_pattern(), 128, 252, cc);
    assert(hdr_index(o) == Some(h));
    law_patched_edid_blocks(o, h);
    let amd = amd_part(o);
    let col = color_part(o);
    let hdr = hdr_part(o, h);
    let payload = amd + col + hdr;
    let a: int = if k != -1 {
        24
    } else {
        4
    };
    assert(amd.len() == a - 4);
    assert(col.len() == 6);
    assert(hdr.len() == 7);
    let dtd = if 4 + payload.len() > 0x23 {
        4 + payload.len()
    } else {
        0x23
    };
    let body = seq![0x02u8, 0x03u8, dtd as u8, 0x00u8] + payload + Seq::new(
        (123 - payload.len()) as nat,
        |i: int| 0u8,
    );
    lemma_with_checksum(body);
    let img = patched_image(o, h);
    let cta = img.subrange(256, 384);
    assert(cta =~= cta_block(payload));
    assert forall|j: int| 0 <= j < 127 implies #[trigger] cta[j] == body[j] by {
        assert(cta_block(payload).drop_last()[j] == cta_block(payload)[j]);
    }
    assert(cta[2] == body[2]);
    if k != -1 {
        assert(cta.subrange(4, 24) =~= amd);
    }
    assert(cta.subrange(a, a + 6) =~= col) by {
        assert forall|j: int| 0 <= j < 6 implies cta.subrange(a, a + 6)[j] == col[j] by {
            assert(body[a + j] == payload[a - 4 + j]);
        }
    }
    assert(cta.subrange(a + 6, a + 13) =~= hdr) by {
        assert forall|j: int| 0 <= j < 7 implies cta.subrange(a + 6, a + 13)[j] == hdr[j] by {
            assert(body[a + 6 + j] == payload[a + 2 + j]);
        }
    }
    assert forall|j: int| a + 13 <= j < 127 implies #[trigger] cta[j] == 0 by {
        assert(body[j] == Seq::new((123 - payload.len()) as nat, |i: int| 0u8)[j - a - 13]);
    }
}

/// The manufacturer ID is the three 5-bit letters of the big-endian word `d8 * 256 + d9`
/// (bit 15 unused), each offset by 64 so that 1 reads as `'A'`: letter `i` is bits
/// `10 - 5 i .. 14 - 5 i` of the word.
pub proof fn law_manufacturer_id_letters(d8: u8, d9: u8)
    ensures
        manufacturer_id(d8, d9).len() == 3,
        manufacturer_id(d8, d9)[0] as u32 == ((((d8 as u32 * 256 + d9 as u32) as u32) >> 10u32) & 0x1fu32)
            + 64,
        manufacturer_id(d8, d9)[1] as u32 == ((((d8 as u32 * 256 + d9 as u32) as u32) >> 5u32) & 0x1fu32)
            + 64,
        manufacturer_id(d8, d9)[2] as u32 == (((d8 as u32 * 256 + d9 as u32) as u32) & 0x1fu32) + 64,
{
    assert(((d8 >> 2u8) & 0x1fu8) <= 31u8) by (bit_vector);
    assert((((d8 & 0x03u8) << 3u8) | ((d9 >> 5u8) & 0x07u8)) <= 31u8) by (bit_vector);
    assert((d9 & 0x1fu8) <= 31u8) by (bit_vector);
    assert((((d8 >> 2u8) & 0x1fu8) as u32) == ((((d8 as u32 * 256 + d9 as u32) as u32) >> 10u32)
        & 0x1fu32)) by (bit_vector);
    assert(((((d8 & 0x03u8) << 3u8) | ((d9 >> 5u8) & 0x07u8)) as u32) == ((((d8 as u32 * 256
        + d9 as u32) as u32) >> 5u32) & 0x1fu32)) by (bit_vector);
    assert(((d9 & 0x1fu8) as u32) == (((d8 as u32 * 256 + d9 as u32) as u32) & 0x1fu32)) by (bit_vector);
}

/// A PNP manufacturer ID of three letters `A..Z`, encoded as the EDID stores it (five bits a
/// letter, `'A'` as 1, first letter highest, in bytes 8 and 9), decodes back to itself.
pub proof fn law_manufacturer_id_roundtrip(l0: char, l1: char, l2: char)
    requires
        'A' <= l0 <= 'Z',
        'A' <= l1 <= 'Z',
        'A' <= l2 <= 'Z',
    ensures
        ({
            let word = ((l0 as u32 - 64) * 1024 + (l1 as u32 - 64) * 32 + (l2 as u32 - 64)) as u32;
            manufacturer_id((word / 256) as u8, (word % 256) as u8) == seq![l0, l1, l2]
        }),
{
    let x0 = (l0 as u32 - 64) as u32;
    let x1 = (l1 as u32 - 64) as u32;
    let x2 = (l2 as u32 - 64) as u32;
    let word = (x0 * 1024 + x1 * 32 + x2) as u32;
    let d8 = (word / 256) as u8;
    let d9 = (word % 256) as u8;
    law_manufacturer_id_letters(d8, d9);
    assert(1 <= x0 <= 26 && 1 <= x1 <= 26 && 1 <= x2 <= 26);
    assert(word < 32768);
    assert(((d8 as u32 * 256 + d9 as u32) as u32) == word);
    assert(((word >> 10u32) & 0x1fu32) == x0 && ((word >> 5u32) & 0x1fu32) == x1 && (word
        & 0x1fu32) == x2) by (bit_vector)
        requires
            1 <= x0 <= 26,
            1 <= x1 <= 26,
            1 <= x2 <= 26,
            word == x0 * 1024 + x1 * 32 + x2,
    ;
    let m = manufacturer_id(d8, d9);
    vstd::utf8::char_u32_cast(m[0], m[0] as u32);
    vstd::utf8::char_u32_cast(l0, l0 as u32);
    vstd::utf8::char_u32_cast(m[1], m[1] as u32);
    vstd::utf8::char_u32_cast(l1, l1 as u32);
    vstd::utf8::char_u32_cast(m[2], m[2] as u32);
    vstd::utf8::char_u32_cast(l2, l2 as u32);
    assert(m =~= seq![l0, l1, l2]);
}

} // verus!
