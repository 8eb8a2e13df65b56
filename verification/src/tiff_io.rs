//! What is decided about a 16-bit RGB TIFF: whether it is accepted, how its strips are
//! cached, and where its rows stand in them.

use std::collections::VecDeque;
use vstd::prelude::*;
use crate::error::{Error, Found};
use crate::image::{larger, FrameInfo};
use crate::sample::Sample;

verus! {

/// Rows buffered per output strip.
pub const OUT_ROWS_PER_STRIP: u32 = 64;

/// Roughly how many input rows the strip cache is allowed to hold.
pub const CACHE_ROWS: u32 = 256;

/// The largest single chunk the decoder is allowed to allocate for: two gibibytes. A
/// corrupt header claiming absurd dimensions is refused rather than turned into an
/// allocation.
pub const MAX_CHUNK_BYTES: u64 = 0x8000_0000;

/// What a chunk's budget exceeds its size by: the decoder compares element counts against
/// byte budgets, and an exact fit lands on the boundary.
pub const CHUNK_SLACK: u64 = 0x10_0000;

/// What the decoder allows a chunk by itself.
pub const DEFAULT_CHUNK_BYTES: u64 = 0x1000_0000;

/// The decoder's own budget for a chunk: `decoding_buffer_size` of
/// `tiff::decoder::Limits::default`, which is 256 mebibytes.
#[verifier::external_body]
fn default_budget() -> (n: usize)
    ensures
        n == DEFAULT_CHUNK_BYTES,
{
    tiff::decoder::Limits::default().decoding_buffer_size
}

/// The decoder budget for a file whose largest chunk has this many bytes, or nothing for
/// a chunk that is refused.
///
/// Never below the decoder's own: this only ever raises the ceiling for a large chunk. An
/// exporter that writes a frame as a single strip easily exceeds the default.
pub fn chunk_limits(chunk_bytes: u64) -> (r: Option<u64>)
    ensures
        r == (if chunk_bytes > MAX_CHUNK_BYTES {
            None
        } else {
            Some(larger(chunk_bytes + CHUNK_SLACK, DEFAULT_CHUNK_BYTES as int) as u64)
        }),
{
    if chunk_bytes > MAX_CHUNK_BYTES {
        return None;
    }
    let budget: u64 = chunk_bytes + CHUNK_SLACK;
    let least: u64 = default_budget() as u64;
    if budget >= least {
        Some(budget)
    } else {
        Some(least)
    }
}

/// What a TIFF's header says.
#[derive(Debug, PartialEq, Eq)]
pub struct Header {
    /// The file that it is the header of.
    pub path: String,
    pub width: u32,
    pub height: u32,
    /// The name of the colour type, where it is not 16-bit RGB.
    pub other_color: Option<String>,
    pub rows_per_strip: u32,
}

/// Bytes in one strip of 16-bit RGB.
pub open spec fn strip_bytes(width: int, rows_per_strip: int) -> int {
    width * rows_per_strip * 3 * 2
}

/// Why a header is refused, if it is.
pub open spec fn refusal(h: Header) -> Option<Found> {
    match h.other_color {
        Some(color) => Some(Found::Color { color }),
        None => if h.rows_per_strip == 0 {
            Some(Found::ZeroHeightStrips)
        } else if strip_bytes(h.width as int, h.rows_per_strip as int) > MAX_CHUNK_BYTES {
            Some(
                Found::ChunkTooLarge {
                    megabytes: (strip_bytes(h.width as int, h.rows_per_strip as int) / 0x10_0000)
                        as u128,
                },
            )
        } else {
            None
        },
    }
}

/// How many strips a cache of a frame's strips holds.
pub open spec fn cache_cap_of(rows_per_strip: int) -> int {
    larger(CACHE_ROWS as int / rows_per_strip, 1)
}

/// How an accepted frame is laid out.
#[derive(Debug, Clone, Copy, PartialEq, Eq, Structural)]
pub struct FrameLayout {
    pub info: FrameInfo,
    pub rows_per_strip: u32,
    pub cache_cap: usize,
    /// The decoder budget for one of its chunks.
    pub budget: u64,
}

/// The layout of a header that is not refused.
pub open spec fn layout_of(h: Header) -> FrameLayout {
    FrameLayout {
        info: FrameInfo { width: h.width, height: h.height, samples: 3, bits_per_sample: 16 },
        rows_per_strip: h.rows_per_strip,
        cache_cap: cache_cap_of(h.rows_per_strip as int) as usize,
        budget: larger(
            strip_bytes(h.width as int, h.rows_per_strip as int) + CHUNK_SLACK,
            DEFAULT_CHUNK_BYTES as int,
        ) as u64,
    }
}

/// The most that a cache of a frame's strips can hold, in bytes.
pub open spec fn most_held(l: FrameLayout) -> int {
    l.cache_cap * l.rows_per_strip * (l.info.width * 3) * 2
}

impl FrameLayout {
    /// Strips have rows, and fit the decoder.
    pub open spec fn well_formed(self) -> bool {
        &&& self.rows_per_strip > 0
        &&& self.info.samples == 3
        &&& strip_bytes(self.info.width as int, self.rows_per_strip as int) <= MAX_CHUNK_BYTES
        &&& self.cache_cap == cache_cap_of(self.rows_per_strip as int)
    }

    /// Accepts a header, or says why not.
    pub fn open(header: Header) -> (r: Result<Self, Error>)
        ensures
            match r {
                Ok(layout) => refusal(header) is None && layout == layout_of(header)
                    && layout.well_formed(),
                Err(Error::UnsupportedFormat { path, found }) => {
                    &&& path == header.path
                    &&& refusal(header) == Some(found)
                },
                Err(_) => false,
            },
    {
        let path = header.path;
        match header.other_color {
            Some(color) => {
                return Err(Error::UnsupportedFormat { path, found: Found::Color { color } });
            },
            None => {},
        }
        if header.rows_per_strip == 0 {
            return Err(Error::UnsupportedFormat { path, found: Found::ZeroHeightStrips });
        }
        assert(0 <= header.width * header.rows_per_strip <= 0xffff_ffff * 0xffff_ffff)
            by (nonlinear_arith)
            requires
                header.width <= 0xffff_ffff,
                header.rows_per_strip <= 0xffff_ffff,
        ;
        let chunk: u128 = header.width as u128 * header.rows_per_strip as u128;
        let chunk_bytes: u128 = chunk * 3 * 2;
        if chunk_bytes > MAX_CHUNK_BYTES as u128 {
            return Err(
                Error::UnsupportedFormat {
                    path,
                    found: Found::ChunkTooLarge { megabytes: chunk_bytes / 0x10_0000 },
                },
            );
        }
        let budget = match chunk_limits(chunk_bytes as u64) {
            Some(budget) => budget,
            None => 0,
        };
        let strips: u32 = CACHE_ROWS / header.rows_per_strip;
        let cache_cap: usize = if strips >= 1 {
            strips as usize
        } else {
            1
        };
        Ok(
            FrameLayout {
                info: FrameInfo {
                    width: header.width,
                    height: header.height,
                    samples: 3,
                    bits_per_sample: 16,
                },
                rows_per_strip: header.rows_per_strip,
                cache_cap,
                budget,
            },
        )
    }

    /// The most the strip cache can ever hold, in bytes.
    ///
    /// About [`CACHE_ROWS`] rows for a striped frame, and the whole frame for one in a
    /// single strip.
    pub fn cache_bytes_max(&self) -> (n: u64)
        requires
            self.well_formed(),
        ensures
            n == most_held(*self),
    {
        proof {
            lemma_cache_rows(self.rows_per_strip as int);
            let (r, s, w) = (
                self.cache_cap * self.rows_per_strip,
                self.rows_per_strip as int,
                self.info.width as int,
            );
            assert(s * w * 3 * 2 == w * s * 3 * 2) by (nonlinear_arith);
            assert(r * (w * 3) * 2 <= 256 * w * 6 + s * w * 3 * 2) by (nonlinear_arith)
                requires
                    r <= 256 || r <= s,
                    0 <= r,
                    0 <= s,
                    0 <= w,
            ;
            assert(0 <= r * (w * 3)) by (nonlinear_arith)
                requires
                    0 <= r,
                    0 <= w,
            ;
        }
        let rows: u64 = self.cache_cap as u64 * self.rows_per_strip as u64;
        let row: u64 = self.info.width as u64 * self.info.samples as u64;
        rows * row * 2
    }
}

/// A cache holds no more rows than [`CACHE_ROWS`], unless a single strip does.
pub proof fn lemma_cache_rows(rows_per_strip: int)
    requires
        0 < rows_per_strip <= u32::MAX,
    ensures
        0 < cache_cap_of(rows_per_strip) <= CACHE_ROWS,
        cache_cap_of(rows_per_strip) * rows_per_strip <= larger(
            CACHE_ROWS as int,
            rows_per_strip,
        ),
        0 <= cache_cap_of(rows_per_strip) * rows_per_strip,
{
    let q = CACHE_ROWS as int / rows_per_strip;
    vstd::arithmetic::div_mod::lemma_fundamental_div_mod(CACHE_ROWS as int, rows_per_strip);
    assert(q * rows_per_strip <= 256) by (nonlinear_arith)
        requires
            256 == rows_per_strip * q + 256int % rows_per_strip,
            0 <= 256int % rows_per_strip,
    ;
    assert(0 <= q <= 256) by (nonlinear_arith)
        requires
            q * rows_per_strip <= 256,
            q == 256int / rows_per_strip,
            rows_per_strip > 0,
    ;
    assert(0 <= q * rows_per_strip) by (nonlinear_arith)
        requires
            0 <= q,
            0 < rows_per_strip,
    ;
    if q < 1 {
        assert(1 * rows_per_strip == rows_per_strip);
    }
}

/// Read a frame's geometry from its header.
pub fn probe(header: Header) -> (r: Result<FrameInfo, Error>)
    ensures
        match r {
            Ok(info) => {
                &&& refusal(header) is None
                &&& info == (FrameInfo {
                    width: header.width,
                    height: header.height,
                    samples: 3,
                    bits_per_sample: 16,
                })
            },
            Err(Error::UnsupportedFormat { path, found }) => {
                &&& path == header.path
                &&& refusal(header) == Some(found)
            },
            Err(_) => false,
        },
{
    match FrameLayout::open(header) {
        Ok(layout) => Ok(layout.info),
        Err(e) => Err(e),
    }
}

/// What one reader over a file costs while it is in flight, in bytes, from its header.
pub fn cache_bytes_max(header: Header) -> (r: Result<u64, Error>)
    ensures
        match r {
            Ok(n) => refusal(header) is None && n == most_held(layout_of(header)),
            Err(Error::UnsupportedFormat { path, found }) => {
                &&& path == header.path
                &&& refusal(header) == Some(found)
            },
            Err(_) => false,
        },
{
    match FrameLayout::open(header) {
        Ok(layout) => Ok(layout.cache_bytes_max()),
        Err(e) => Err(e),
    }
}

/// Checks a request for `count` rows from `y0` on, into a buffer of `got` samples.
pub fn check_request(info: FrameInfo, y0: u32, count: u32, got: usize) -> (r: Result<(), Error>)
    requires
        info.width * info.samples <= usize::MAX,
        count * (info.width * info.samples) <= usize::MAX,
    ensures
        r == (if got != count * (info.width * info.samples) {
            Err(
                Error::BufferSize {
                    got,
                    want: (count * (info.width * info.samples)) as usize,
                },
            )
        } else if y0 + count > info.height {
            Err(
                Error::Bounds {
                    start: y0 as u64,
                    end: (y0 + count) as u64,
                    height: info.height,
                },
            )
        } else {
            Ok(())
        }),
{
    let want: usize = count as usize * info.row_len();
    if got != want {
        return Err(Error::BufferSize { got, want });
    }
    let end: u64 = y0 as u64 + count as u64;
    if end > info.height as u64 {
        return Err(Error::Bounds { start: y0 as u64, end, height: info.height });
    }
    Ok(())
}

/// The strip a row is in, and the row's number inside it.
pub fn strip_of(y: u32, rows_per_strip: u32) -> (r: (u32, u32))
    requires
        rows_per_strip > 0,
    ensures
        r.0 == y / rows_per_strip,
        r.1 == y % rows_per_strip,
        r.0 * rows_per_strip + r.1 == y,
        r.1 < rows_per_strip,
{
    proof {
        vstd::arithmetic::div_mod::lemma_fundamental_div_mod(y as int, rows_per_strip as int);
        assert((y / rows_per_strip) * rows_per_strip == rows_per_strip * (y / rows_per_strip))
            by (nonlinear_arith);
    }
    (y / rows_per_strip, y % rows_per_strip)
}

/// One row of a strip, in linear light: each sample looked up in a table that has an
/// entry for every 16-bit value.
pub fn row_in_linear_light<S: Sample>(
    strip: &[u16],
    row: u32,
    row_len: usize,
    table: &[S],
) -> (out: Vec<S>)
    requires
        row * row_len + row_len <= strip@.len(),
        table@.len() == 0x1_0000,
    ensures
        out@ == Seq::new(
            row_len as nat,
            |i: int| table@[strip@[row * row_len + i] as int],
        ),
{
    assert(strip@.len() == strip.len());
    assert(0 <= row * row_len) by (nonlinear_arith);
    let at: usize = row as usize * row_len;
    let mut out: Vec<S> = Vec::with_capacity(row_len);
    let mut i: usize = 0;
    while i < row_len
        invariant
            i <= row_len,
            at == row * row_len,
            at + row_len <= strip@.len(),
            strip@.len() <= usize::MAX,
            table@.len() == 0x1_0000,
            out@.len() == i,
            forall|k: int| 0 <= k < i ==> #[trigger] out@[k] == table@[strip@[at + k] as int],
        decreases row_len - i,
    {
        out.push(table[strip[at + i] as usize]);
        i += 1;
    }
    assert(out@ =~= Seq::new(
        row_len as nat,
        |i: int| table@[strip@[row * row_len + i] as int],
    ));
    out
}

/// A bounded first-in, first-out cache of decoded strips, so that a sequential walk
/// decodes each strip once.
///
/// Strips are held as they are on disk, which halves what a reader holds.
pub struct StripCache {
    pub strips: VecDeque<(u32, Vec<u16>)>,
    pub cap: usize,
}

/// What a cache holds, oldest first.
pub open spec fn held(c: StripCache) -> Seq<(u32, Seq<u16>)> {
    c.strips@.map_values(|e: (u32, Vec<u16>)| (e.0, e.1@))
}

/// Is a strip in the cache?
pub open spec fn holds(c: StripCache, index: u32) -> bool {
    exists|k: int| 0 <= k < c.strips@.len() && (#[trigger] c.strips@[k]).0 == index
}

/// Bytes in the first `n` strips of a cache.
pub open spec fn bytes_held(c: StripCache, n: nat) -> nat
    decreases n,
{
    if n == 0 {
        0
    } else {
        bytes_held(c, (n - 1) as nat) + 2 * c.strips@[n - 1].1@.len()
    }
}

proof fn lemma_bytes_grow(c: StripCache, n: nat, m: nat)
    requires
        n <= m,
    ensures
        bytes_held(c, n) <= bytes_held(c, m),
    decreases m - n,
{
    if n < m {
        lemma_bytes_grow(c, n, (m - 1) as nat);
    }
}

impl StripCache {
    /// There is room for a strip, no more are held than there is room for, and none is held
    /// twice.
    pub open spec fn well_formed(self) -> bool {
        &&& self.cap > 0
        &&& self.strips@.len() <= self.cap
        &&& forall|i: int, j: int|
            0 <= i < j < self.strips@.len() ==> (#[trigger] self.strips@[i]).0 != (
            #[trigger] self.strips@[j]).0
    }

    pub fn new(cap: usize) -> (r: Self)
        requires
            cap > 0,
        ensures
            r.well_formed(),
            r.cap == cap,
            held(r) == Seq::<(u32, Seq<u16>)>::empty(),
    {
        let strips: VecDeque<(u32, Vec<u16>)> = VecDeque::new();
        let r = StripCache { strips, cap };
        assert(held(r) =~= Seq::<(u32, Seq<u16>)>::empty());
        r
    }

    /// Where a strip stands in the cache, if it does.
    pub fn position(&self, index: u32) -> (r: Option<usize>)
        ensures
            match r {
                Some(k) => k < self.strips@.len() && self.strips@[k as int].0 == index,
                None => !holds(*self, index),
            },
    {
        let mut k: usize = 0;
        while k < self.strips.len()
            invariant
                k <= self.strips@.len(),
                forall|j: int| 0 <= j < k ==> (#[trigger] self.strips@[j]).0 != index,
            decreases self.strips@.len() - k,
        {
            if self.strips[k].0 == index {
                return Some(k);
            }
            k += 1;
        }
        None
    }

    /// The samples of a strip in the cache.
    pub fn strip(&self, k: usize) -> (r: &[u16])
        requires
            k < self.strips@.len(),
        ensures
            r@ == held(*self)[k as int].1,
    {
        self.strips[k].1.as_slice()
    }

    /// Keeps a decoded strip. Where the cache is full, the strip that has been in it the
    /// longest leaves.
    pub fn insert(&mut self, index: u32, samples: Vec<u16>)
        requires
            old(self).well_formed(),
            !holds(*old(self), index),
        ensures
            final(self).well_formed(),
            final(self).cap == old(self).cap,
            holds(*final(self), index),
            held(*final(self)) == (if old(self).strips@.len() == old(self).cap {
                held(*old(self)).drop_first()
            } else {
                held(*old(self))
            }).push((index, samples@)),
    {
        let ghost before = *self;
        if self.strips.len() == self.cap {
            let _ = self.strips.pop_front();
            assert(self.strips@ =~= before.strips@.drop_first());
        }
        self.strips.push_back((index, samples));
        proof {
            let n = self.strips@.len();
            assert(self.strips@[n - 1].0 == index);
            let kept = if before.strips@.len() == before.cap {
                held(before).drop_first()
            } else {
                held(before)
            };
            assert(held(*self) =~= kept.push((index, samples@)));
            assert forall|i: int, j: int| 0 <= i < j < n implies (#[trigger] self.strips@[i]).0 != (
            #[trigger] self.strips@[j]).0 by {
                let shift: int = if before.strips@.len() == before.cap {
                    1
                } else {
                    0
                };
                assert(self.strips@[i] == before.strips@[i + shift]);
                if j < n - 1 {
                    assert(self.strips@[j] == before.strips@[j + shift]);
                }
            }
        }
    }

    /// Drops every strip. Correctness never depends on this, only memory does.
    pub fn release(&mut self)
        requires
            old(self).well_formed(),
        ensures
            final(self).well_formed(),
            final(self).cap == old(self).cap,
            held(*final(self)) == Seq::<(u32, Seq<u16>)>::empty(),
    {
        self.strips = VecDeque::new();
        assert(held(*self) =~= Seq::<(u32, Seq<u16>)>::empty());
    }
}

/// A strip that was just kept is found again, with the samples it was kept with.
pub proof fn lemma_kept_strip_is_found(before: StripCache, after: StripCache, index: u32, samples: Seq<u16>)
    requires
        before.well_formed(),
        held(after) == (if before.strips@.len() == before.cap {
            held(before).drop_first()
        } else {
            held(before)
        }).push((index, samples)),
    ensures
        held(after).last() == (index, samples),
        held(after).len() <= before.cap,
{
}

/// Does the cache hold a strip, with these samples?
pub open spec fn keeps(c: StripCache, index: u32, samples: Seq<u16>) -> bool {
    exists|k: int|
        0 <= k < c.strips@.len() && (#[trigger] c.strips@[k]).0 == index && c.strips@[k].1@
            == samples
}

/// Could decoding a strip give these samples?
pub open spec fn decodes<E, D: Fn(u32) -> Result<Option<Vec<u16>>, E>>(
    decode: D,
    index: u32,
    samples: Seq<u16>,
) -> bool {
    exists|v: Vec<u16>| #[trigger] call_ensures(decode, (index,), Ok(Some(v))) && v@ == samples
}

/// Are these a strip's samples, as it was cached or as it is decoded?
pub open spec fn serves<E, D: Fn(u32) -> Result<Option<Vec<u16>>, E>>(
    c: StripCache,
    decode: D,
    index: u32,
    samples: Seq<u16>,
) -> bool {
    keeps(c, index, samples) || decodes(decode, index, samples)
}

/// Every strip of one cache comes from another, or was decoded.
pub open spec fn all_served<E, D: Fn(u32) -> Result<Option<Vec<u16>>, E>>(
    before: StripCache,
    decode: D,
    c: StripCache,
) -> bool {
    forall|k: int|
        0 <= k < c.strips@.len() ==> serves(
            before,
            decode,
            (#[trigger] c.strips@[k]).0,
            c.strips@[k].1@,
        )
}

/// One past the last sample of a row, inside its strip.
pub open spec fn row_end(l: FrameLayout, y: u32) -> int {
    (y % l.rows_per_strip) * (l.info.width * 3) + l.info.width * 3
}

/// Is a strip long enough for every row of the frame that is in it, and no longer than a
/// whole strip?
pub open spec fn strip_fits(l: FrameLayout, index: u32, len: nat) -> bool {
    &&& len <= l.rows_per_strip * (l.info.width * 3)
    &&& forall|y: u32|
        y < l.info.height && y / l.rows_per_strip == index ==> #[trigger] row_end(l, y) <= len
}

/// A decoder that can be asked for any strip, and gives whole ones.
pub open spec fn decodable<E, D: Fn(u32) -> Result<Option<Vec<u16>>, E>>(
    decode: D,
    l: FrameLayout,
) -> bool {
    &&& forall|i: u32| #[trigger] call_requires(decode, (i,))
    &&& forall|i: u32, v: Vec<u16>|
        #[trigger] call_ensures(decode, (i,), Ok(Some(v))) ==> strip_fits(l, i, v@.len())
}

/// A row of a strip in linear light.
pub open spec fn linear_row<S>(strip: Seq<u16>, row: int, row_len: int, table: Seq<S>) -> Seq<S> {
    Seq::new(row_len as nat, |i: int| table[strip[row * row_len + i] as int])
}

/// Is this a row of the frame, from a strip that was cached or decoded?
pub open spec fn row_served<S, E, D: Fn(u32) -> Result<Option<Vec<u16>>, E>>(
    c: StripCache,
    decode: D,
    l: FrameLayout,
    table: Seq<S>,
    y: u32,
    row: Seq<S>,
) -> bool {
    exists|strip: Seq<u16>|
        #[trigger] serves(c, decode, (y / l.rows_per_strip) as u32, strip) && row == linear_row(
            strip,
            (y % l.rows_per_strip) as int,
            l.info.width * 3,
            table,
        )
}

/// Could decoding a strip fail this way?
pub open spec fn decode_fails<E, D: Fn(u32) -> Result<Option<Vec<u16>>, E>>(
    decode: D,
    index: u32,
    e: E,
) -> bool {
    call_ensures(decode, (index,), Err(e))
}

/// Could a strip turn out to hold samples of another depth?
pub open spec fn decode_mismatches<E, D: Fn(u32) -> Result<Option<Vec<u16>>, E>>(
    decode: D,
    index: u32,
) -> bool {
    call_ensures(decode, (index,), Ok(None))
}

/// The strip that holds the `i`th row of a band.
pub open spec fn strip_at(l: FrameLayout, y0: u32, i: u32) -> u32 {
    ((y0 + i) as u32 / l.rows_per_strip) as u32
}

/// The samples of the `i`th row of a band.
pub open spec fn band_row<S>(band: Seq<S>, i: int, row_len: int) -> Seq<S> {
    band.subrange(i * row_len, i * row_len + row_len)
}

/// The first `n` rows of a band have been read, and the rest is as it was.
pub open spec fn read_until<S, E, D: Fn(u32) -> Result<Option<Vec<u16>>, E>>(
    c: StripCache,
    decode: D,
    l: FrameLayout,
    table: Seq<S>,
    y0: u32,
    n: int,
    before: Seq<S>,
    after: Seq<S>,
) -> bool {
    &&& after.len() == before.len()
    &&& forall|i: int|
        #![trigger band_row(after, i, l.info.width * 3)]
        0 <= i < n ==> row_served(
            c,
            decode,
            l,
            table,
            (y0 + i) as u32,
            band_row(after, i, l.info.width * 3),
        )
    &&& forall|k: int| n * (l.info.width * 3) <= k < before.len() ==> #[trigger] after[k] == before[k]
}

/// Why rows could not be read.
#[derive(Debug, PartialEq, Eq)]
pub enum Unread<E> {
    /// The request or the file is refused.
    Refused(Error),
    /// A strip could not be decoded.
    Failed(E),
}

/// A request that lies in the frame, into a buffer of its size.
pub open spec fn fair_request(info: FrameInfo, y0: u32, count: u32, got: nat) -> bool {
    got == count * (info.width * 3) && y0 + count <= info.height
}

/// Lazy row reader over one 16-bit RGB TIFF.
///
/// Rows are served from the strip cache, so a sequential band walk decodes each strip once.
pub struct FrameReader {
    /// The file that is read.
    pub path: String,
    pub layout: FrameLayout,
    pub cache: StripCache,
}

impl FrameReader {
    /// The cache has the layout's size, and its strips are whole.
    pub open spec fn well_formed(self) -> bool {
        &&& self.layout.well_formed()
        &&& self.cache.well_formed()
        &&& self.cache.cap == self.layout.cache_cap
        &&& forall|k: int|
            0 <= k < self.cache.strips@.len() ==> strip_fits(
                self.layout,
                (#[trigger] self.cache.strips@[k]).0,
                self.cache.strips@[k].1@.len(),
            )
    }

    /// A reader with nothing cached, or why the file is not accepted.
    pub fn open(header: Header) -> (r: Result<Self, Error>)
        ensures
            match r {
                Ok(reader) => {
                    &&& refusal(header) is None
                    &&& reader.well_formed()
                    &&& reader.path == header.path
                    &&& reader.layout == layout_of(header)
                    &&& held(reader.cache) == Seq::<(u32, Seq<u16>)>::empty()
                },
                Err(Error::UnsupportedFormat { path, found }) => {
                    &&& path == header.path
                    &&& refusal(header) == Some(found)
                },
                Err(_) => false,
            },
    {
        let path = header.path.clone();
        match FrameLayout::open(header) {
            Ok(layout) => {
                proof {
                    lemma_cache_rows(layout.rows_per_strip as int);
                }
                let cache = StripCache::new(layout.cache_cap);
                assert(held(cache).len() == 0);
                Ok(FrameReader { path, layout, cache })
            },
            Err(e) => Err(e),
        }
    }

    /// The file that is read.
    pub fn path(&self) -> (r: &str)
        ensures
            r@ == self.path@,
    {
        self.path.as_str()
    }

    pub fn info(&self) -> (r: FrameInfo)
        ensures
            r == self.layout.info,
    {
        self.layout.info
    }

    /// The most the strip cache can ever hold, in bytes.
    pub fn cache_bytes_max(&self) -> (n: u64)
        requires
            self.well_formed(),
        ensures
            n == most_held(self.layout),
    {
        self.layout.cache_bytes_max()
    }

    /// Bytes the strip cache is holding now.
    pub fn cache_bytes(&self) -> (n: usize)
        requires
            bytes_held(self.cache, self.cache.strips@.len()) <= usize::MAX,
        ensures
            n == bytes_held(self.cache, self.cache.strips@.len()),
            self.well_formed() ==> n <= most_held(self.layout),
    {
        proof {
            if self.well_formed() {
                lemma_cache_stays_within_its_maximum(*self);
            }
        }
        let mut total: usize = 0;
        let mut k: usize = 0;
        while k < self.cache.strips.len()
            invariant
                k <= self.cache.strips@.len(),
                total == bytes_held(self.cache, k as nat),
                bytes_held(self.cache, self.cache.strips@.len()) <= usize::MAX,
            decreases self.cache.strips@.len() - k,
        {
            proof {
                lemma_bytes_grow(self.cache, (k + 1) as nat, self.cache.strips@.len());
            }
            total = total + 2 * self.cache.strips[k].1.len();
            k += 1;
        }
        total
    }

    /// Drops every cached strip.
    pub fn release_cache(&mut self)
        requires
            old(self).well_formed(),
        ensures
            final(self).well_formed(),
            final(self).path == old(self).path,
            final(self).layout == old(self).layout,
            held(final(self).cache) == Seq::<(u32, Seq<u16>)>::empty(),
    {
        self.cache.release();
        assert(held(self.cache).len() == 0);
    }

    /// Where a strip stands in the cache, decoding it if it is not in it.
    fn strip<E, D: Fn(u32) -> Result<Option<Vec<u16>>, E>>(&mut self, index: u32, decode: &D) -> (r:
        Result<usize, Unread<E>>)
        requires
            old(self).well_formed(),
            decodable(*decode, old(self).layout),
        ensures
            final(self).well_formed(),
            final(self).path == old(self).path,
            final(self).layout == old(self).layout,
            all_served(old(self).cache, *decode, final(self).cache),
            match r {
                Ok(k) => {
                    &&& k < final(self).cache.strips@.len()
                    &&& final(self).cache.strips@[k as int].0 == index
                },
                Err(Unread::Refused(e)) => {
                    &&& e == (Error::UnsupportedFormat {
                        path: old(self).path,
                        found: Found::OtherDepth,
                    })
                    &&& decode_mismatches(*decode, index)
                },
                Err(Unread::Failed(e)) => decode_fails(*decode, index, e),
            },
    {
        let ghost before = self.cache;
        proof {
            lemma_served_itself(before, *decode);
        }
        match self.cache.position(index) {
            Some(k) => {
                return Ok(k);
            },
            None => {},
        }
        match decode(index) {
            Ok(Some(samples)) => {
                let ghost raw = samples@;
                assert(decodes(*decode, index, raw));
                self.cache.insert(index, samples);
                proof {
                    lemma_inserted(before, self.cache, index, raw);
                    let after = self.cache;
                    assert forall|k: int| 0 <= k < after.strips@.len() implies serves(
                        before,
                        *decode,
                        (#[trigger] after.strips@[k]).0,
                        after.strips@[k].1@,
                    ) && strip_fits(self.layout, after.strips@[k].0, after.strips@[k].1@.len()) by {
                        if k < after.strips@.len() - 1 {
                            let j = if before.strips@.len() == before.cap {
                                k + 1
                            } else {
                                k
                            };
                            assert(after.strips@[k].0 == before.strips@[j].0);
                            assert(keeps(before, before.strips@[j].0, before.strips@[j].1@));
                        }
                    }
                }
                Ok(self.cache.strips.len() - 1)
            },
            Ok(None) => Err(
                Unread::Refused(
                    Error::UnsupportedFormat {
                        path: self.path.clone(),
                        found: Found::OtherDepth,
                    },
                ),
            ),
            Err(e) => {
                let halt = Unread::Failed(e);
                assert(halt->Failed_0 == e);
                Err(halt)
            },
        }
    }

    /// Fills `out` with `count` rows in linear light starting at row `y0`.
    ///
    /// `out` has to be exactly as long as those rows. Each row comes from its strip, as it
    /// was cached or as `decode` gives it: nothing where the file's samples are of another
    /// depth. Where reading stops early, the rows from there on are left as they were.
    pub fn read_rows<S: Sample, E, D: Fn(u32) -> Result<Option<Vec<u16>>, E>>(
        &mut self,
        y0: u32,
        count: u32,
        out: &mut Vec<S>,
        table: &[S],
        decode: D,
    ) -> (r: Result<(), Unread<E>>)
        requires
            old(self).well_formed(),
            table@.len() == 0x1_0000,
            count * (old(self).layout.info.width * 3) <= usize::MAX,
            decodable(decode, old(self).layout),
        ensures
            final(self).well_formed(),
            final(self).path == old(self).path,
            final(self).layout == old(self).layout,
            all_served(old(self).cache, decode, final(self).cache),
            ({
                let l = old(self).layout;
                let fair = fair_request(l.info, y0, count, old(out)@.len());
                match r {
                    Ok(()) => fair && read_until(
                        old(self).cache,
                        decode,
                        l,
                        table@,
                        y0,
                        count as int,
                        old(out)@,
                        final(out)@,
                    ),
                    Err(Unread::Refused(e)) => if fair {
                        &&& e == (Error::UnsupportedFormat {
                            path: old(self).path,
                            found: Found::OtherDepth,
                        })
                        &&& exists|i: u32|
                            i < count && #[trigger] decode_mismatches(
                                decode,
                                strip_at(l, y0, i),
                            ) && read_until(
                                old(self).cache,
                                decode,
                                l,
                                table@,
                                y0,
                                i as int,
                                old(out)@,
                                final(out)@,
                            )
                    } else {
                        &&& *final(out) == *old(out)
                        &&& e == (if old(out)@.len() != count * (l.info.width * 3) {
                            Error::BufferSize {
                                got: old(out)@.len() as usize,
                                want: (count * (l.info.width * 3)) as usize,
                            }
                        } else {
                            Error::Bounds {
                                start: y0 as u64,
                                end: (y0 + count) as u64,
                                height: l.info.height,
                            }
                        })
                    },
                    Err(Unread::Failed(e)) => fair && exists|i: u32|
                        i < count && #[trigger] decode_fails(decode, strip_at(l, y0, i), e)
                            && read_until(
                            old(self).cache,
                            decode,
                            l,
                            table@,
                            y0,
                            i as int,
                            old(out)@,
                            final(out)@,
                        ),
                }
            }),
    {
        let info = self.layout.info;
        let ghost start = *self;
        let ghost before = out@;
        proof {
            lemma_served_itself(start.cache, decode);
            lemma_row_fits(start.layout);
            assert(out@.len() == out.len());
        }
        match check_request(info, y0, count, out.len()) {
            Ok(()) => {},
            Err(e) => {
                return Err(Unread::Refused(e));
            },
        }
        let row_len: usize = info.row_len();
        let rows_per_strip: u32 = self.layout.rows_per_strip;
        let mut i: u32 = 0;
        while i < count
            invariant
                i <= count,
                start == *old(self),
                before == old(out)@,
                self.well_formed(),
                start.well_formed(),
                self.path == start.path,
                self.layout == start.layout,
                info == start.layout.info,
                rows_per_strip == start.layout.rows_per_strip,
                row_len == info.width * 3,
                table@.len() == 0x1_0000,
                fair_request(info, y0, count, before.len()),
                decodable(decode, start.layout),
                all_served(start.cache, decode, self.cache),
                before.len() <= usize::MAX,
                read_until(start.cache, decode, start.layout, table@, y0, i as int, before, out@),
            decreases count - i,
        {
            let y: u32 = y0 + i;
            let (index, row) = strip_of(y, rows_per_strip);
            let ghost middle = self.cache;
            assert(strip_at(start.layout, y0, i) == index);
            let at = match self.strip(index, &decode) {
                Ok(at) => at,
                Err(Unread::Refused(e)) => {
                    proof {
                        lemma_served_again(start.cache, middle, self.cache, decode);
                        assert(decode_mismatches(decode, strip_at(start.layout, y0, i)));
                    }
                    return Err(Unread::Refused(e));
                },
                Err(Unread::Failed(e)) => {
                    proof {
                        lemma_served_again(start.cache, middle, self.cache, decode);
                        assert(decode_fails(decode, strip_at(start.layout, y0, i), e));
                    }
                    let halt = Unread::Failed(e);
                    assert(halt->Failed_0 == e);
                    return Err(halt);
                },
            };
            proof {
                lemma_served_again(start.cache, middle, self.cache, decode);
                assert(row_end(start.layout, y) <= self.cache.strips@[at as int].1@.len());
                lemma_row_inside(i as int, count as int, row_len as int);
            }
            let strip = self.cache.strip(at);
            let line = row_in_linear_light(strip, row, row_len, table);
            let ghost was = out@;
            let place: usize = i as usize * row_len;
            put_row(out, place, &line);
            proof {
                let ghost samples = self.cache.strips@[at as int].1@;
                assert(strip@ == samples);
                assert(serves(start.cache, decode, index, samples));
                assert(line@ =~= linear_row(samples, row as int, row_len as int, table@));
                assert(band_row(out@, i as int, row_len as int) =~= line@);
                assert(row_served(
                    start.cache,
                    decode,
                    start.layout,
                    table@,
                    (y0 + i) as u32,
                    band_row(out@, i as int, row_len as int),
                ));
                assert forall|j: int|
                    #![trigger band_row(out@, j, row_len as int)]
                    0 <= j < i implies band_row(out@, j, row_len as int) == band_row(
                    was,
                    j,
                    row_len as int,
                ) by {
                    lemma_rows_apart(j, i as int, row_len as int);
                    assert(band_row(out@, j, row_len as int) =~= band_row(
                        was,
                        j,
                        row_len as int,
                    ));
                }
                assert((i + 1) * row_len == i * row_len + row_len) by (nonlinear_arith);
            }
            i += 1;
        }
        Ok(())
    }
}

/// The first strips of a cache are no larger than as many whole ones.
proof fn lemma_strips_are_bounded(c: StripCache, most: int, n: nat)
    requires
        n <= c.strips@.len(),
        forall|k: int| 0 <= k < c.strips@.len() ==> (#[trigger] c.strips@[k]).1@.len() <= most,
    ensures
        bytes_held(c, n) <= n * most * 2,
    decreases n,
{
    if n == 0 {
        assert(0 * most * 2 == 0) by (nonlinear_arith);
    } else {
        lemma_strips_are_bounded(c, most, (n - 1) as nat);
        assert(c.strips@[n - 1].1@.len() <= most);
        assert(n * most * 2 == (n - 1) * most * 2 + 2 * most) by (nonlinear_arith);
    }
}

/// A reader never holds more than its maximum, whatever was read through it: every
/// operation leaves it well-formed, and a well-formed one holds no more.
pub proof fn lemma_cache_stays_within_its_maximum(reader: FrameReader)
    requires
        reader.well_formed(),
    ensures
        bytes_held(reader.cache, reader.cache.strips@.len()) <= most_held(reader.layout),
{
    let l = reader.layout;
    let most = l.rows_per_strip * (l.info.width * 3);
    let (n, cap) = (reader.cache.strips@.len() as int, l.cache_cap as int);
    lemma_strips_are_bounded(reader.cache, most, n as nat);
    assert(0 <= most) by (nonlinear_arith)
        requires
            most == l.rows_per_strip * (l.info.width * 3),
    ;
    assert(n * most * 2 <= cap * most * 2) by (nonlinear_arith)
        requires
            0 <= n <= cap,
            0 <= most,
    ;
    assert(cap * most * 2 == most_held(l)) by (nonlinear_arith)
        requires
            most == l.rows_per_strip * (l.info.width * 3),
            most_held(l) == cap * l.rows_per_strip * (l.info.width * 3) * 2,
    ;
}

/// Every sample of a row that is read stands in the table: a table in the unit range gives
/// samples in the unit range.
pub proof fn lemma_samples_come_from_the_table<S>(
    strip: Seq<u16>,
    row: int,
    row_len: int,
    table: Seq<S>,
    i: int,
)
    requires
        table.len() == 0x1_0000,
        0 <= i < row_len,
    ensures
        table.contains(linear_row(strip, row, row_len, table)[i]),
{
    let v = strip[row * row_len + i] as int;
    assert(table[v] == linear_row(strip, row, row_len, table)[i]);
}

/// What a cache holds after a strip was kept, entry by entry.
proof fn lemma_inserted(before: StripCache, after: StripCache, index: u32, samples: Seq<u16>)
    requires
        before.well_formed(),
        held(after) == (if before.strips@.len() == before.cap {
            held(before).drop_first()
        } else {
            held(before)
        }).push((index, samples)),
    ensures
        after.strips@.len() >= 1,
        after.strips@.last().0 == index,
        after.strips@.last().1@ == samples,
        forall|k: int|
            0 <= k < after.strips@.len() - 1 ==> {
                let j = if before.strips@.len() == before.cap {
                    k + 1
                } else {
                    k
                };
                &&& 0 <= j < before.strips@.len()
                &&& (#[trigger] after.strips@[k]).0 == before.strips@[j].0
                &&& after.strips@[k].1@ == before.strips@[j].1@
            },
{
    let shift: int = if before.strips@.len() == before.cap {
        1
    } else {
        0
    };
    assert(held(after).len() == after.strips@.len());
    assert(held(before).len() == before.strips@.len());
    let n = after.strips@.len();
    assert(held(after)[n - 1] == (index, samples));
    assert forall|k: int| 0 <= k < n - 1 implies {
        &&& 0 <= k + shift < before.strips@.len()
        &&& (#[trigger] after.strips@[k]).0 == before.strips@[k + shift].0
        &&& after.strips@[k].1@ == before.strips@[k + shift].1@
    } by {
        assert(held(after)[k] == held(before)[k + shift]);
    }
}

/// A cache serves itself.
pub(crate) proof fn lemma_served_itself<E, D: Fn(u32) -> Result<Option<Vec<u16>>, E>>(c: StripCache, decode: D)
    ensures
        all_served(c, decode, c),
{
    assert forall|k: int| 0 <= k < c.strips@.len() implies serves(
        c,
        decode,
        (#[trigger] c.strips@[k]).0,
        c.strips@[k].1@,
    ) by {
        assert(keeps(c, c.strips@[k].0, c.strips@[k].1@));
    }
}

/// A row of an accepted frame is short.
proof fn lemma_row_fits(l: FrameLayout)
    requires
        l.well_formed(),
    ensures
        l.info.width * 3 <= MAX_CHUNK_BYTES,
{
    let (w, r) = (l.info.width as int, l.rows_per_strip as int);
    assert(w * 3 <= w * r * 3 * 2) by (nonlinear_arith)
        requires
            w >= 0,
            r >= 1,
    ;
}

/// What is served from a cache that was itself served is served from the first one.
pub(crate) proof fn lemma_served_again<E, D: Fn(u32) -> Result<Option<Vec<u16>>, E>>(
    first: StripCache,
    second: StripCache,
    third: StripCache,
    decode: D,
)
    requires
        all_served(first, decode, second),
        all_served(second, decode, third),
    ensures
        all_served(first, decode, third),
{
    assert forall|k: int| 0 <= k < third.strips@.len() implies serves(
        first,
        decode,
        (#[trigger] third.strips@[k]).0,
        third.strips@[k].1@,
    ) by {
        let (index, samples) = (third.strips@[k].0, third.strips@[k].1@);
        assert(serves(second, decode, index, samples));
        if keeps(second, index, samples) {
            let j = choose|j: int|
                0 <= j < second.strips@.len() && (#[trigger] second.strips@[j]).0 == index
                    && second.strips@[j].1@ == samples;
            assert(serves(first, decode, second.strips@[j].0, second.strips@[j].1@));
        }
    }
}

/// A row of a band lies inside the band.
proof fn lemma_row_inside(i: int, count: int, row_len: int)
    requires
        0 <= i < count,
        0 <= row_len,
    ensures
        0 <= i * row_len,
        i * row_len + row_len <= count * row_len,
{
    assert(0 <= i * row_len && i * row_len + row_len <= count * row_len) by (nonlinear_arith)
        requires
            0 <= i < count,
            0 <= row_len,
    ;
}

/// An earlier row ends before a later one starts.
proof fn lemma_rows_apart(j: int, i: int, row_len: int)
    requires
        0 <= j < i,
        0 <= row_len,
    ensures
        0 <= j * row_len,
        j * row_len + row_len <= i * row_len,
{
    lemma_row_inside(j, i, row_len);
}

/// Writes a row into a band.
fn put_row<S: Sample>(out: &mut Vec<S>, at: usize, row: &Vec<S>)
    requires
        at + row@.len() <= old(out)@.len(),
    ensures
        final(out)@.len() == old(out)@.len(),
        forall|k: int|
            0 <= k < old(out)@.len() ==> #[trigger] final(out)@[k] == (if at <= k < at + row@.len() {
                row@[k - at]
            } else {
                old(out)@[k]
            }),
{
    let ghost before = out@;
    assert(out@.len() == out.len());
    let mut i: usize = 0;
    while i < row.len()
        invariant
            i <= row@.len(),
            at + row@.len() <= before.len(),
            out@.len() == before.len() <= usize::MAX,
            forall|k: int|
                0 <= k < before.len() ==> #[trigger] out@[k] == (if at <= k < at + i {
                    row@[k - at]
                } else {
                    before[k]
                }),
        decreases row@.len() - i,
    {
        out.set(at + i, row[i]);
        i += 1;
    }
}

/// Does everything that is cached or decoded come from the same file?
pub open spec fn true_to<E, D: Fn(u32) -> Result<Option<Vec<u16>>, E>>(
    file: spec_fn(u32) -> Seq<u16>,
    c: StripCache,
    decode: D,
) -> bool {
    &&& forall|k: int|
        0 <= k < c.strips@.len() ==> (#[trigger] c.strips@[k]).1@ == file(c.strips@[k].0)
    &&& forall|i: u32, v: Vec<u16>|
        #[trigger] call_ensures(decode, (i,), Ok(Some(v))) ==> v@ == file(i)
}

/// A row that is read is the file's own row, whatever the cache held: bands read in any
/// order, again, or after a release agree.
pub proof fn lemma_reads_do_not_depend_on_the_cache<
    S,
    E,
    D: Fn(u32) -> Result<Option<Vec<u16>>, E>,
>(
    file: spec_fn(u32) -> Seq<u16>,
    c: StripCache,
    decode: D,
    l: FrameLayout,
    table: Seq<S>,
    y: u32,
    row: Seq<S>,
)
    requires
        true_to(file, c, decode),
        row_served(c, decode, l, table, y, row),
    ensures
        row == linear_row(
            file((y / l.rows_per_strip) as u32),
            (y % l.rows_per_strip) as int,
            l.info.width * 3,
            table,
        ),
{
}

/// A cache that is true to its file stays so through any read.
pub proof fn lemma_cache_stays_true<E, D: Fn(u32) -> Result<Option<Vec<u16>>, E>>(
    file: spec_fn(u32) -> Seq<u16>,
    before: StripCache,
    decode: D,
    after: StripCache,
)
    requires
        true_to(file, before, decode),
        all_served(before, decode, after),
    ensures
        true_to(file, after, decode),
{
    assert forall|k: int| 0 <= k < after.strips@.len() implies (#[trigger] after.strips@[k]).1@
        == file(after.strips@[k].0) by {
        assert(serves(before, decode, after.strips@[k].0, after.strips@[k].1@));
    }
}

/// How many rows an output strip of `wanted` samples takes.
pub fn rows_in_strip(wanted: usize, row_len: usize) -> (r: Result<usize, Error>)
    requires
        row_len > 0,
    ensures
        r == (if wanted == 0 || wanted % row_len != 0 {
            Err(Error::BufferSize { got: wanted, want: row_len })
        } else {
            Ok((wanted / row_len) as usize)
        }),
{
    if wanted == 0 || wanted % row_len != 0 {
        Err(Error::BufferSize { got: wanted, want: row_len })
    } else {
        Ok(wanted / row_len)
    }
}

/// Is this the header of a file that was written for a frame: 16-bit RGB, in strips of
/// [`OUT_ROWS_PER_STRIP`] rows?
pub open spec fn written_for(h: Header, info: FrameInfo) -> bool {
    &&& h.width == info.width
    &&& h.height == info.height
    &&& h.other_color is None
    &&& h.rows_per_strip == OUT_ROWS_PER_STRIP
}

/// The header of a file that is written for a frame.
pub fn output_header(path: String, info: FrameInfo) -> (r: Result<Header, Error>)
    ensures
        match r {
            Ok(h) => info.samples == 3 && h.path == path && written_for(h, info),
            Err(e) => info.samples != 3 && e == (Error::UnsupportedFormat {
                path,
                found: Found::OutputSamples { samples: info.samples },
            }),
        },
{
    if info.samples != 3 {
        return Err(
            Error::UnsupportedFormat {
                path,
                found: Found::OutputSamples { samples: info.samples },
            },
        );
    }
    Ok(
        Header {
            path,
            width: info.width,
            height: info.height,
            other_color: None,
            rows_per_strip: OUT_ROWS_PER_STRIP,
        },
    )
}

/// What is written is read back in its own geometry, whatever the height: the header of a
/// written file is accepted, with the frame's own size, samples and depth. A strip of the
/// widest frames is more than the decoder may allocate for; those are left out.
pub proof fn lemma_a_written_frame_is_accepted(h: Header, info: FrameInfo)
    requires
        written_for(h, info),
        info.samples == 3,
        info.bits_per_sample == 16,
        strip_bytes(info.width as int, OUT_ROWS_PER_STRIP as int) <= MAX_CHUNK_BYTES,
    ensures
        refusal(h) is None,
        layout_of(h).info == info,
        layout_of(h).rows_per_strip == OUT_ROWS_PER_STRIP,
        layout_of(h).cache_cap == CACHE_ROWS / OUT_ROWS_PER_STRIP,
{
}

} // verus!
