//! A minimal sRGB ICC profile, generated rather than shipped.
//!
//! Output files carry no colour space of their own otherwise, and a colour-managed
//! application has nothing to read. Every number is visible here: the sRGB primaries and
//! white point as published, and a tone curve whose samples the caller takes from the
//! transfer function that its decoder uses, so that the profile cannot drift from it.
//!
//! ICC.1:2001-04 (v2.4): a display-class matrix and tone curve profile, the simplest form
//! that a colour-managed reader will accept for RGB.

use vstd::prelude::*;
use vstd::string::StringSliceAdditionalSpecFns;
use vstd::utf8::is_ascii_chars_encode_utf8;

verus! {

/// Samples in each tone curve: small, and still fine enough for the curve's toe, where
/// the transfer function is linear and a coarse table would visibly kink.
pub const TRC_ENTRIES: usize = 1024;

/// Bytes in the profile header.
pub const HEADER: usize = 128;

/// Tags in the profile.
pub const TAGS: usize = 9;

/// Elements that the tags name; the three tone curves share one.
pub const ELEMENTS: usize = 7;

/// Three coordinates, in hundred-thousandths.
#[derive(Clone, Copy, Debug, PartialEq, Eq)]
pub struct Tristimulus {
    pub x: u32,
    pub y: u32,
    pub z: u32,
}

pub open spec fn red_of() -> Tristimulus {
    Tristimulus { x: 43607, y: 22249, z: 1392 }
}

pub open spec fn green_of() -> Tristimulus {
    Tristimulus { x: 38515, y: 71687, z: 9708 }
}

pub open spec fn blue_of() -> Tristimulus {
    Tristimulus { x: 14307, y: 6061, z: 71410 }
}

/// The D50 white point of the profile connection space.
pub open spec fn white_of() -> Tristimulus {
    Tristimulus { x: 96420, y: 100000, z: 82491 }
}

/// Two bytes, the high one first.
pub open spec fn be16(n: int) -> Seq<u8> {
    seq![(n / 0x100) as u8, (n % 0x100) as u8]
}

/// Four bytes, the highest first.
pub open spec fn be32(n: int) -> Seq<u8> {
    seq![
        (n / 0x1000000) as u8,
        (n / 0x10000 % 0x100) as u8,
        (n / 0x100 % 0x100) as u8,
        (n % 0x100) as u8,
    ]
}

/// The number that two bytes of a file hold.
pub open spec fn read16(s: Seq<u8>, at: int) -> int {
    s[at] * 0x100 + s[at + 1]
}

/// The number that four bytes of a file hold.
pub open spec fn read32(s: Seq<u8>, at: int) -> int {
    s[at] * 0x1000000 + s[at + 1] * 0x10000 + s[at + 2] * 0x100 + s[at + 3]
}

pub open spec fn zeros(n: int) -> Seq<u8> {
    Seq::new(n as nat, |i: int| 0u8)
}

/// A coordinate as a fixed-point number with sixteen fractional bits, to the nearest.
pub open spec fn fixed(v: int) -> int {
    (v * 131072 + 100000) / 200000
}

pub open spec fn triple(t: Tristimulus) -> Seq<u8> {
    be32(fixed(t.x as int)) + be32(fixed(t.y as int)) + be32(fixed(t.z as int))
}

/// `XYZType`: three fixed-point values behind a type header.
pub open spec fn xyz_of(t: Tristimulus) -> Seq<u8> {
    seq![0x58u8, 0x59, 0x5a, 0x20] + zeros(4) + triple(t)
}

/// The first `n` samples of a tone curve.
pub open spec fn samples_of(samples: Seq<u16>, n: nat) -> Seq<u8>
    decreases n,
{
    if n == 0 {
        seq![]
    } else {
        samples_of(samples, (n - 1) as nat) + be16(samples[n - 1] as int)
    }
}

/// `curveType`: a table of samples.
pub open spec fn curve_of(samples: Seq<u16>) -> Seq<u8> {
    seq![0x63u8, 0x75, 0x72, 0x76] + zeros(4) + be32(samples.len() as int) + samples_of(
        samples,
        samples.len(),
    )
}

/// `textDescriptionType`: ASCII, and the Unicode and script blocks that have to be there
/// even when they are empty.
pub open spec fn description_of(ascii: Seq<u8>) -> Seq<u8> {
    seq![0x64u8, 0x65, 0x73, 0x63] + zeros(4) + be32(ascii.len() as int + 1) + ascii + zeros(79)
}

/// `textType`: text that ends in a zero.
pub open spec fn text_of(ascii: Seq<u8>) -> Seq<u8> {
    seq![0x74u8, 0x65, 0x78, 0x74] + zeros(4) + ascii + zeros(1)
}

/// The elements that follow the tag table.
pub open spec fn elements_of(samples: Seq<u16>) -> Seq<Seq<u8>> {
    seq![
        description_of("sRGB IEC61966-2.1".spec_bytes()),
        xyz_of(white_of()),
        xyz_of(red_of()),
        xyz_of(green_of()),
        xyz_of(blue_of()),
        curve_of(samples),
        text_of("Public domain".spec_bytes()),
    ]
}

/// The next multiple of four.
pub open spec fn aligned(n: int) -> int {
    (n + 3) / 4 * 4
}

/// Where an element starts: right after the one before it, on a word boundary.
pub open spec fn offset_of(elements: Seq<Seq<u8>>, k: nat) -> int
    decreases k,
{
    if k == 0 {
        HEADER + 4 + TAGS * 12
    } else {
        aligned(offset_of(elements, (k - 1) as nat) + elements[k - 1].len())
    }
}

/// The signatures of the tags, in the order in which a reader sees them.
pub open spec fn signature_of(i: int) -> Seq<u8> {
    if i == 0 {
        seq![0x64u8, 0x65, 0x73, 0x63]
    } else if i == 1 {
        seq![0x77u8, 0x74, 0x70, 0x74]
    } else if i == 2 {
        seq![0x72u8, 0x58, 0x59, 0x5a]
    } else if i == 3 {
        seq![0x67u8, 0x58, 0x59, 0x5a]
    } else if i == 4 {
        seq![0x62u8, 0x58, 0x59, 0x5a]
    } else if i == 5 {
        seq![0x72u8, 0x54, 0x52, 0x43]
    } else if i == 6 {
        seq![0x67u8, 0x54, 0x52, 0x43]
    } else if i == 7 {
        seq![0x62u8, 0x54, 0x52, 0x43]
    } else {
        seq![0x63u8, 0x70, 0x72, 0x74]
    }
}

/// The element that a tag names.
pub open spec fn element_of(i: int) -> int {
    if i <= 5 {
        i
    } else if i <= 7 {
        5
    } else {
        6
    }
}

/// One entry of the tag table.
pub open spec fn entry_of(elements: Seq<Seq<u8>>, i: int) -> Seq<u8> {
    let e = element_of(i);
    signature_of(i) + be32(offset_of(elements, e as nat)) + be32(elements[e].len() as int)
}

/// The first `n` entries of the tag table.
pub open spec fn entries_of(elements: Seq<Seq<u8>>, n: nat) -> Seq<u8>
    decreases n,
{
    if n == 0 {
        seq![]
    } else {
        entries_of(elements, (n - 1) as nat) + entry_of(elements, n - 1)
    }
}

/// The first `n` elements, each filled up to a word boundary.
pub open spec fn bodies_of(elements: Seq<Seq<u8>>, n: nat) -> Seq<u8>
    decreases n,
{
    if n == 0 {
        seq![]
    } else {
        let e = elements[n - 1];
        bodies_of(elements, (n - 1) as nat) + e + zeros(aligned(e.len() as int) - e.len())
    }
}

/// The front of the header: the size, version 2.4.0, a display device, RGB data and the
/// XYZ connection space.
pub open spec fn header_front(size: int) -> Seq<u8> {
    be32(size) + zeros(4) + be32(0x02400000) + seq![0x6du8, 0x6e, 0x74, 0x72] + seq![
        0x52u8,
        0x47,
        0x42,
        0x20,
    ] + seq![0x58u8, 0x59, 0x5a, 0x20]
}

/// The date in the header.
pub open spec fn header_date() -> Seq<u8> {
    be16(2026) + be16(8) + be16(18) + zeros(6)
}

/// The back of the header: the signature, perceptual intent and the D50 illuminant.
pub open spec fn header_back() -> Seq<u8> {
    seq![0x61u8, 0x63, 0x73, 0x70] + zeros(28) + triple(white_of()) + zeros(48)
}

/// The profile header.
pub open spec fn header_of(size: int) -> Seq<u8> {
    header_front(size) + header_date() + header_back()
}

/// The whole profile.
pub open spec fn profile_of(samples: Seq<u16>) -> Seq<u8> {
    let elements = elements_of(samples);
    header_of(offset_of(elements, ELEMENTS as nat)) + be32(TAGS as int) + entries_of(
        elements,
        TAGS as nat,
    ) + bodies_of(elements, ELEMENTS as nat)
}

fn push_zeros(out: &mut Vec<u8>, n: usize)
    ensures
        final(out)@ == old(out)@ + zeros(n as int),
{
    let ghost before = out@;
    let mut i: usize = 0;
    assert(before + zeros(0) =~= before);
    while i < n
        invariant
            i <= n,
            out@ == before + zeros(i as int),
        decreases n - i,
    {
        out.push(0);
        i += 1;
        assert(out@ =~= before + zeros(i as int));
    }
}

fn push_all(out: &mut Vec<u8>, bytes: &[u8])
    ensures
        final(out)@ == old(out)@ + bytes@,
{
    let ghost before = out@;
    let mut i: usize = 0;
    assert(before + bytes@.take(0) =~= before);
    while i < bytes.len()
        invariant
            i <= bytes@.len(),
            out@ == before + bytes@.take(i as int),
        decreases bytes@.len() - i,
    {
        out.push(bytes[i]);
        i += 1;
        assert(out@ =~= before + bytes@.take(i as int));
    }
    assert(bytes@.take(bytes@.len() as int) =~= bytes@);
}

fn push_tag(out: &mut Vec<u8>, a: u8, b: u8, c: u8, d: u8)
    ensures
        final(out)@ == old(out)@ + seq![a, b, c, d],
{
    let ghost before = out@;
    out.push(a);
    out.push(b);
    out.push(c);
    out.push(d);
    assert(out@ =~= before + seq![a, b, c, d]);
}

fn push_16(out: &mut Vec<u8>, n: u16)
    ensures
        final(out)@ == old(out)@ + be16(n as int),
{
    let ghost before = out@;
    out.push((n / 0x100) as u8);
    out.push((n % 0x100) as u8);
    assert(out@ =~= before + be16(n as int));
}

fn push_32(out: &mut Vec<u8>, n: u32)
    ensures
        final(out)@ == old(out)@ + be32(n as int),
{
    push_tag(
        out,
        (n / 0x1000000) as u8,
        (n / 0x10000 % 0x100) as u8,
        (n / 0x100 % 0x100) as u8,
        (n % 0x100) as u8,
    );
}

/// A coordinate as a fixed-point number with sixteen fractional bits.
pub fn s15_fixed_16(v: u32) -> (r: u32)
    requires
        v <= 100000,
    ensures
        r == fixed(v as int),
{
    ((v as u64 * 131072 + 100000) / 200000) as u32
}

/// Three coordinates as fixed-point numbers.
pub fn s15_fixed_16_triple(t: Tristimulus) -> (out: Vec<u8>)
    requires
        t.x <= 100000,
        t.y <= 100000,
        t.z <= 100000,
    ensures
        out@ == triple(t),
{
    let mut out: Vec<u8> = Vec::new();
    push_32(&mut out, s15_fixed_16(t.x));
    push_32(&mut out, s15_fixed_16(t.y));
    push_32(&mut out, s15_fixed_16(t.z));
    assert(out@ =~= triple(t));
    out
}

/// `XYZType`.
pub fn xyz(t: Tristimulus) -> (out: Vec<u8>)
    requires
        t.x <= 100000,
        t.y <= 100000,
        t.z <= 100000,
    ensures
        out@ == xyz_of(t),
{
    let mut out: Vec<u8> = Vec::new();
    push_tag(&mut out, 0x58, 0x59, 0x5a, 0x20);
    push_zeros(&mut out, 4);
    let t3 = s15_fixed_16_triple(t);
    push_all(&mut out, t3.as_slice());
    assert(out@ =~= xyz_of(t));
    out
}

/// `curveType`.
pub fn tone_curve(samples: &[u16]) -> (out: Vec<u8>)
    requires
        samples@.len() <= u32::MAX,
    ensures
        out@ == curve_of(samples@),
{
    let mut out: Vec<u8> = Vec::new();
    push_tag(&mut out, 0x63, 0x75, 0x72, 0x76);
    push_zeros(&mut out, 4);
    push_32(&mut out, samples.len() as u32);
    let ghost head = out@;
    let mut i: usize = 0;
    assert(head + samples_of(samples@, 0) =~= head);
    while i < samples.len()
        invariant
            i <= samples@.len(),
            out@ == head + samples_of(samples@, i as nat),
        decreases samples@.len() - i,
    {
        push_16(&mut out, samples[i]);
        i += 1;
        assert(out@ =~= head + samples_of(samples@, i as nat));
    }
    assert(out@ =~= curve_of(samples@));
    out
}

/// `textDescriptionType`.
pub fn text_description(value: &str) -> (out: Vec<u8>)
    requires
        value.spec_bytes().len() < u32::MAX,
    ensures
        out@ == description_of(value.spec_bytes()),
{
    let ascii = value.as_bytes();
    let mut out: Vec<u8> = Vec::new();
    push_tag(&mut out, 0x64, 0x65, 0x73, 0x63);
    push_zeros(&mut out, 4);
    push_32(&mut out, ascii.len() as u32 + 1);
    push_all(&mut out, ascii);
    push_zeros(&mut out, 79);
    assert(out@ =~= description_of(value.spec_bytes()));
    out
}

/// `textType`.
pub fn text(value: &str) -> (out: Vec<u8>)
    ensures
        out@ == text_of(value.spec_bytes()),
{
    let mut out: Vec<u8> = Vec::new();
    push_tag(&mut out, 0x74, 0x65, 0x78, 0x74);
    push_zeros(&mut out, 4);
    push_all(&mut out, value.as_bytes());
    push_zeros(&mut out, 1);
    assert(out@ =~= text_of(value.spec_bytes()));
    out
}

/// The profile header.
///
/// The date is fixed: two runs of the same pipeline on the same frames have to write the
/// same file, byte for byte.
pub fn header(size: u32) -> (out: Vec<u8>)
    ensures
        out@ == header_of(size as int),
        out@.len() == HEADER,
{
    let mut out: Vec<u8> = Vec::new();
    push_32(&mut out, size);
    push_zeros(&mut out, 4);
    push_32(&mut out, 0x02400000);
    push_tag(&mut out, 0x6d, 0x6e, 0x74, 0x72);
    push_tag(&mut out, 0x52, 0x47, 0x42, 0x20);
    push_tag(&mut out, 0x58, 0x59, 0x5a, 0x20);
    assert(out@ =~= header_front(size as int));
    let ghost front = out@;
    push_16(&mut out, 2026);
    push_16(&mut out, 8);
    push_16(&mut out, 18);
    push_zeros(&mut out, 6);
    assert(out@ =~= front + header_date());
    let ghost dated = out@;
    push_tag(&mut out, 0x61, 0x63, 0x73, 0x70);
    push_zeros(&mut out, 28);
    let white = s15_fixed_16_triple(Tristimulus { x: 96420, y: 100000, z: 82491 });
    push_all(&mut out, white.as_slice());
    push_zeros(&mut out, 48);
    assert(out@ =~= dated + header_back());
    proof {
        lemma_header(size as int);
    }
    out
}

/// Where the header's fields stand.
proof fn lemma_header(size: int)
    ensures
        header_of(size).len() == HEADER,
        header_of(size).subrange(0, 4) == be32(size),
        header_of(size).subrange(16, 20) == seq![0x52u8, 0x47, 0x42, 0x20],
        header_of(size).subrange(36, 40) == seq![0x61u8, 0x63, 0x73, 0x70],
{
    let (front, date, back) = (header_front(size), header_date(), header_back());
    assert(front.len() == 24);
    assert(date.len() == 12);
    assert(back.len() == 92);
    assert(front.subrange(0, 4) =~= be32(size));
    assert(front.subrange(16, 20) =~= seq![0x52u8, 0x47, 0x42, 0x20]);
    assert(back.subrange(0, 4) =~= seq![0x61u8, 0x63, 0x73, 0x70]);
    let all = header_of(size);
    assert(all.subrange(0, 4) =~= front.subrange(0, 4));
    assert(all.subrange(16, 20) =~= front.subrange(16, 20));
    assert(all.subrange(36, 40) =~= back.subrange(0, 4));
}

/// A number that stands in a part of a file.
proof fn lemma_read_part(s: Seq<u8>, from: int, part: Seq<u8>, at: int)
    requires
        0 <= from,
        from + part.len() <= s.len(),
        s.subrange(from, from + part.len()) == part,
        0 <= at,
    ensures
        at + 4 <= part.len() ==> read32(s, from + at) == read32(part, at),
        at + 2 <= part.len() ==> read16(s, from + at) == read16(part, at),
{
    let p = s.subrange(from, from + part.len());
    assert(at < part.len() ==> p[at] == s[from + at]);
    assert(at + 1 < part.len() ==> p[at + 1] == s[from + at + 1]);
    assert(at + 2 < part.len() ==> p[at + 2] == s[from + at + 2]);
    assert(at + 3 < part.len() ==> p[at + 3] == s[from + at + 3]);
}

/// A number that was written is read.
proof fn lemma_written(s: Seq<u8>, at: int, n: int)
    requires
        0 <= at,
        at + 4 <= s.len(),
        s.subrange(at, at + 4) == be32(n),
        0 <= n < 0x1_0000_0000,
    ensures
        read32(s, at) == n,
{
    lemma_read_part(s, at, be32(n), 0);
}

/// How long the elements are.
proof fn lemma_lengths(samples: Seq<u16>)
    requires
        samples.len() == TRC_ENTRIES,
    ensures
        elements_of(samples)[0].len() == 108,
        elements_of(samples)[1].len() == 20,
        elements_of(samples)[2].len() == 20,
        elements_of(samples)[3].len() == 20,
        elements_of(samples)[4].len() == 20,
        elements_of(samples)[5].len() == 2060,
        elements_of(samples)[6].len() == 22,
        "sRGB IEC61966-2.1".spec_bytes().len() == 17,
        offset_of(elements_of(samples), 0) == 240,
        offset_of(elements_of(samples), 1) == 348,
        offset_of(elements_of(samples), 2) == 368,
        offset_of(elements_of(samples), 3) == 388,
        offset_of(elements_of(samples), 4) == 408,
        offset_of(elements_of(samples), 5) == 428,
        offset_of(elements_of(samples), 6) == 2488,
        offset_of(elements_of(samples), 7) == 2512,
{
    let e = elements_of(samples);
    lemma_text_lengths();
    lemma_samples(samples, samples.len(), 0);
    assert(e[0] == description_of("sRGB IEC61966-2.1".spec_bytes()));
    assert(e[1] == xyz_of(white_of()));
    assert(e[2] == xyz_of(red_of()));
    assert(e[3] == xyz_of(green_of()));
    assert(e[4] == xyz_of(blue_of()));
    assert(e[5] == curve_of(samples));
    assert(e[6] == text_of("Public domain".spec_bytes()));
    lemma_step(e, 1);
    lemma_step(e, 2);
    lemma_step(e, 3);
    lemma_step(e, 4);
    lemma_step(e, 5);
    lemma_step(e, 6);
    lemma_step(e, 7);
}

/// How an element's offset follows from the one before.
proof fn lemma_step(elements: Seq<Seq<u8>>, k: nat)
    requires
        k > 0,
    ensures
        offset_of(elements, 0) == 240,
        offset_of(elements, k) == aligned(
            offset_of(elements, (k - 1) as nat) + elements[k - 1].len(),
        ),
{
}

/// How long the two texts are.
proof fn lemma_text_lengths()
    ensures
        "sRGB IEC61966-2.1".spec_bytes().len() == 17,
        "Public domain".spec_bytes().len() == 13,
{
    reveal_strlit("sRGB IEC61966-2.1");
    reveal_strlit("Public domain");
    is_ascii_chars_encode_utf8("sRGB IEC61966-2.1"@);
    is_ascii_chars_encode_utf8("Public domain"@);
}

/// Where a sample stands in a curve.
proof fn lemma_samples(samples: Seq<u16>, n: nat, i: int)
    requires
        n <= samples.len(),
    ensures
        samples_of(samples, n).len() == 2 * n,
        0 <= i < n ==> read16(samples_of(samples, n), 2 * i) == samples[i],
    decreases n,
{
    if n > 0 {
        lemma_samples(samples, (n - 1) as nat, i);
    }
}

/// How far the elements reach.
proof fn lemma_bodies(elements: Seq<Seq<u8>>, n: nat, k: int)
    requires
        n <= elements.len(),
    ensures
        offset_of(elements, 0) + bodies_of(elements, n).len() == offset_of(elements, n),
        offset_of(elements, n) % 4 == 0,
        0 <= k < n ==> {
            let from = offset_of(elements, k as nat) - offset_of(elements, 0);
            &&& 0 <= from
            &&& from + elements[k].len() <= bodies_of(elements, n).len()
            &&& bodies_of(elements, n).subrange(from, from + elements[k].len()) == elements[k]
        },
    decreases n,
{
    if n > 0 {
        lemma_bodies(elements, (n - 1) as nat, k);
        let before = bodies_of(elements, (n - 1) as nat);
        let all = bodies_of(elements, n);
        let e = elements[n - 1];
        assert(all.len() == before.len() + aligned(e.len() as int));
        if 0 <= k < n {
            let from = offset_of(elements, k as nat) - offset_of(elements, 0);
            if k == n - 1 {
                assert(all.subrange(from, from + e.len()) =~= e);
            } else {
                assert(all.subrange(from, from + elements[k].len()) =~= before.subrange(
                    from,
                    from + elements[k].len(),
                ));
            }
        }
    }
}

/// Where an entry stands in the tag table.
proof fn lemma_entries(elements: Seq<Seq<u8>>, n: nat, i: int)
    ensures
        entries_of(elements, n).len() == 12 * n,
        0 <= i < n ==> entries_of(elements, n).subrange(12 * i, 12 * i + 12) == entry_of(
            elements,
            i,
        ),
    decreases n,
{
    if n > 0 {
        lemma_entries(elements, (n - 1) as nat, i);
        let before = entries_of(elements, (n - 1) as nat);
        let all = entries_of(elements, n);
        if i == n - 1 {
            assert(all.subrange(12 * i, 12 * i + 12) =~= entry_of(elements, i));
        } else if 0 <= i < n {
            assert(all.subrange(12 * i, 12 * i + 12) =~= before.subrange(12 * i, 12 * i + 12));
        }
    }
}

fn signature(i: usize) -> (r: (u8, u8, u8, u8))
    requires
        i < TAGS,
    ensures
        seq![r.0, r.1, r.2, r.3] == signature_of(i as int),
{
    if i == 0 {
        (0x64, 0x65, 0x73, 0x63)
    } else if i == 1 {
        (0x77, 0x74, 0x70, 0x74)
    } else if i == 2 {
        (0x72, 0x58, 0x59, 0x5a)
    } else if i == 3 {
        (0x67, 0x58, 0x59, 0x5a)
    } else if i == 4 {
        (0x62, 0x58, 0x59, 0x5a)
    } else if i == 5 {
        (0x72, 0x54, 0x52, 0x43)
    } else if i == 6 {
        (0x67, 0x54, 0x52, 0x43)
    } else if i == 7 {
        (0x62, 0x54, 0x52, 0x43)
    } else {
        (0x63, 0x70, 0x72, 0x74)
    }
}

/// The complete profile.
///
/// The three tone curve tags point at one curve: identical data, and tags may share it.
pub fn srgb_profile(samples: &[u16]) -> (out: Vec<u8>)
    requires
        samples@.len() == TRC_ENTRIES,
    ensures
        out@ == profile_of(samples@),
{
    let ghost spec_elements = elements_of(samples@);
    proof {
        lemma_lengths(samples@);
    }
    let mut elements: Vec<Vec<u8>> = Vec::new();
    elements.push(text_description("sRGB IEC61966-2.1"));
    elements.push(xyz(Tristimulus { x: 96420, y: 100000, z: 82491 }));
    elements.push(xyz(Tristimulus { x: 43607, y: 22249, z: 1392 }));
    elements.push(xyz(Tristimulus { x: 38515, y: 71687, z: 9708 }));
    elements.push(xyz(Tristimulus { x: 14307, y: 6061, z: 71410 }));
    elements.push(tone_curve(samples));
    elements.push(text("Public domain"));

    let mut offsets: Vec<u32> = Vec::new();
    let mut cursor: u32 = 240;
    let mut k: usize = 0;
    while k < ELEMENTS
        invariant
            k <= ELEMENTS,
            elements@.len() == ELEMENTS,
            spec_elements == elements_of(samples@),
            samples@.len() == TRC_ENTRIES,
            forall|i: int|
                0 <= i < ELEMENTS ==> (#[trigger] elements@[i])@ == spec_elements[i],
            offsets@.len() == k,
            cursor == offset_of(spec_elements, k as nat),
            forall|i: int|
                0 <= i < k ==> offsets@[i] == #[trigger] offset_of(spec_elements, i as nat),
        decreases ELEMENTS - k,
    {
        proof {
            lemma_lengths(samples@);
        }
        assert(elements@[k as int]@ == spec_elements[k as int]);
        offsets.push(cursor);
        cursor = (cursor + elements[k].len() as u32 + 3) / 4 * 4;
        k += 1;
    }

    let mut out: Vec<u8> = header(cursor);
    push_32(&mut out, TAGS as u32);
    let ghost head = out@;
    assert(head + entries_of(spec_elements, 0) =~= head);
    let mut i: usize = 0;
    while i < TAGS
        invariant
            i <= TAGS,
            elements@.len() == ELEMENTS,
            offsets@.len() == ELEMENTS,
            spec_elements == elements_of(samples@),
            samples@.len() == TRC_ENTRIES,
            forall|i: int|
                0 <= i < ELEMENTS ==> (#[trigger] elements@[i])@ == spec_elements[i],
            forall|i: int|
                0 <= i < ELEMENTS ==> offsets@[i] == #[trigger] offset_of(spec_elements, i as nat),
            out@ == head + entries_of(spec_elements, i as nat),
        decreases TAGS - i,
    {
        let ghost before = out@;
        let e: usize = if i <= 5 {
            i
        } else if i <= 7 {
            5
        } else {
            6
        };
        proof {
            lemma_lengths(samples@);
            assert(offsets@[e as int] == offset_of(spec_elements, e as nat));
            assert(elements@[e as int]@ == spec_elements[e as int]);
        }
        let s = signature(i);
        push_tag(&mut out, s.0, s.1, s.2, s.3);
        push_32(&mut out, offsets[e]);
        push_32(&mut out, elements[e].len() as u32);
        assert(out@ =~= before + entry_of(spec_elements, i as int));
        i += 1;
        assert(out@ =~= head + entries_of(spec_elements, i as nat));
    }

    let ghost table = out@;
    assert(table + bodies_of(spec_elements, 0) =~= table);
    let mut k: usize = 0;
    while k < ELEMENTS
        invariant
            k <= ELEMENTS,
            elements@.len() == ELEMENTS,
            spec_elements == elements_of(samples@),
            samples@.len() == TRC_ENTRIES,
            forall|i: int|
                0 <= i < ELEMENTS ==> (#[trigger] elements@[i])@ == spec_elements[i],
            out@ == table + bodies_of(spec_elements, k as nat),
        decreases ELEMENTS - k,
    {
        proof {
            lemma_lengths(samples@);
            assert(elements@[k as int]@ == spec_elements[k as int]);
        }
        push_all(&mut out, elements[k].as_slice());
        let n = elements[k].len();
        push_zeros(&mut out, (n + 3) / 4 * 4 - n);
        k += 1;
        assert(out@ =~= table + bodies_of(spec_elements, k as nat));
    }
    out
}

/// The parts of a profile.
proof fn lemma_parts(samples: Seq<u16>)
    requires
        samples.len() == TRC_ENTRIES,
    ensures
        profile_of(samples).len() == 2512,
        profile_of(samples).subrange(0, 128) == header_of(2512),
        profile_of(samples).subrange(128, 132) == be32(TAGS as int),
        profile_of(samples).subrange(132, 240) == entries_of(elements_of(samples), TAGS as nat),
        profile_of(samples).subrange(240, 2512) == bodies_of(
            elements_of(samples),
            ELEMENTS as nat,
        ),
{
    let elements = elements_of(samples);
    let p = profile_of(samples);
    lemma_lengths(samples);
    lemma_header(2512);
    lemma_bodies(elements, ELEMENTS as nat, 0);
    lemma_entries(elements, TAGS as nat, 0);
    let (head, table, bodies) = (
        header_of(2512),
        entries_of(elements, TAGS as nat),
        bodies_of(elements, ELEMENTS as nat),
    );
    assert(p == head + be32(TAGS as int) + table + bodies);
    assert(p.subrange(0, 128) =~= head);
    assert(p.subrange(128, 132) =~= be32(TAGS as int));
    assert(p.subrange(132, 240) =~= table);
    assert(p.subrange(240, 2512) =~= bodies);
}

/// The header describes the profile that follows: its size field is the profile's length,
/// which is a whole number of words, and the signature stands where a reader looks for it.
pub proof fn lemma_header_describes_the_profile(samples: Seq<u16>)
    requires
        samples.len() == TRC_ENTRIES,
    ensures
        read32(profile_of(samples), 0) == profile_of(samples).len(),
        profile_of(samples).len() % 4 == 0,
        profile_of(samples).subrange(36, 40) == seq![0x61u8, 0x63, 0x73, 0x70],
        profile_of(samples).subrange(16, 20) == seq![0x52u8, 0x47, 0x42, 0x20],
        read32(profile_of(samples), HEADER as int) == TAGS,
{
    let p = profile_of(samples);
    let head = header_of(2512);
    lemma_parts(samples);
    lemma_header(2512);
    assert(p.subrange(0, 4) =~= head.subrange(0, 4));
    assert(p.subrange(16, 20) =~= head.subrange(16, 20));
    assert(p.subrange(36, 40) =~= head.subrange(36, 40));
    lemma_written(p, 0, 2512);
    lemma_written(p, 128, TAGS as int);
}

/// Every tag names data that starts on a word boundary, lies inside the profile, and is
/// the element the tag stands for.
pub proof fn lemma_every_tag_points_inside(samples: Seq<u16>, i: int)
    requires
        samples.len() == TRC_ENTRIES,
        0 <= i < TAGS,
    ensures
        ({
            let p = profile_of(samples);
            let entry = HEADER + 4 + i * 12;
            let offset = read32(p, entry + 4);
            let size = read32(p, entry + 8);
            &&& p.subrange(entry, entry + 4) == signature_of(i)
            &&& offset % 4 == 0
            &&& 0 <= offset
            &&& offset + size <= p.len()
            &&& p.subrange(offset, offset + size) == elements_of(samples)[element_of(i)]
        }),
{
    let elements = elements_of(samples);
    let p = profile_of(samples);
    let e = element_of(i);
    lemma_lengths(samples);
    lemma_parts(samples);
    lemma_bodies(elements, ELEMENTS as nat, e);
    lemma_bodies(elements, e as nat, 0);
    lemma_tag_reads(samples, i);
    let (offset, size) = (offset_of(elements, e as nat), elements[e].len() as int);
    let bodies = bodies_of(elements, ELEMENTS as nat);
    let from = offset - 240;
    assert(p.subrange(offset, offset + size) =~= p.subrange(240, 2512).subrange(from, from + size));
}

/// The tone curve in the profile is the one it was made with: the three curve tags share
/// one element, and each of its entries is the sample it stands for.
pub proof fn lemma_tone_curve_is_the_callers(samples: Seq<u16>, i: int)
    requires
        samples.len() == TRC_ENTRIES,
        0 <= i < TRC_ENTRIES,
    ensures
        ({
            let p = profile_of(samples);
            let curve = read32(p, HEADER + 4 + 5 * 12 + 4);
            &&& read32(p, HEADER + 4 + 6 * 12 + 4) == curve
            &&& read32(p, HEADER + 4 + 7 * 12 + 4) == curve
            &&& read32(p, curve + 8) == TRC_ENTRIES
            &&& read16(p, curve + 12 + 2 * i) == samples[i]
        }),
{
    let p = profile_of(samples);
    lemma_lengths(samples);
    lemma_parts(samples);
    lemma_tag_reads(samples, 5);
    lemma_tag_reads(samples, 6);
    lemma_tag_reads(samples, 7);
    lemma_every_tag_points_inside(samples, 5);
    let data = curve_of(samples);
    lemma_curve_reads(samples, i);
    lemma_read_part(p, 428, data, 8);
    lemma_read_part(p, 428, data, 12 + 2 * i);
}

/// What stands in a curve.
proof fn lemma_curve_reads(samples: Seq<u16>, i: int)
    requires
        samples.len() == TRC_ENTRIES,
        0 <= i < TRC_ENTRIES,
    ensures
        curve_of(samples).len() == 2060,
        read32(curve_of(samples), 8) == TRC_ENTRIES,
        read16(curve_of(samples), 12 + 2 * i) == samples[i],
{
    let data = curve_of(samples);
    let body = samples_of(samples, samples.len());
    lemma_samples(samples, samples.len(), i);
    assert(data.subrange(8, 12) =~= be32(1024));
    lemma_written(data, 8, 1024);
    assert(data.subrange(12, 2060) =~= body);
    lemma_read_part(data, 12, body, 2 * i);
}

/// What a reader finds in a tag's entry.
proof fn lemma_tag_reads(samples: Seq<u16>, i: int)
    requires
        samples.len() == TRC_ENTRIES,
        0 <= i < TAGS,
    ensures
        ({
            let p = profile_of(samples);
            let entry = HEADER + 4 + i * 12;
            let elements = elements_of(samples);
            &&& p.subrange(entry, entry + 4) == signature_of(i)
            &&& read32(p, entry + 4) == offset_of(elements, element_of(i) as nat)
            &&& read32(p, entry + 8) == elements[element_of(i)].len()
        }),
{
    let elements = elements_of(samples);
    let p = profile_of(samples);
    let entry = HEADER + 4 + i * 12;
    let e = element_of(i);
    lemma_lengths(samples);
    lemma_parts(samples);
    lemma_entries(elements, TAGS as nat, i);
    let one = entry_of(elements, i);
    let (offset, size) = (offset_of(elements, e as nat), elements[e].len() as int);
    assert(p.subrange(entry, entry + 12) =~= p.subrange(132, 240).subrange(12 * i, 12 * i + 12));
    assert(one.len() == 12);
    assert(one.subrange(0, 4) =~= signature_of(i));
    assert(one.subrange(4, 8) =~= be32(offset));
    assert(one.subrange(8, 12) =~= be32(size));
    assert(p.subrange(entry, entry + 4) =~= p.subrange(entry, entry + 12).subrange(0, 4));
    lemma_written(one, 4, offset);
    lemma_written(one, 8, size);
    lemma_read_part(p, entry, one, 4);
    lemma_read_part(p, entry, one, 8);
}

} // verus!
