//! Frames that are read, and planes that are made, a band of rows at a time.
//!
//! No stage holds more of a frame than a band of it. What a stage makes of a frame is
//! therefore stated band by band; whether the bands join without a seam is a law of its
//! own.

use vstd::prelude::*;
use crate::image::{smaller, BAND_ROWS};

verus! {

/// `count` rows of a frame, from `from` on, with `n` samples in a row.
pub open spec fn rows_of<S>(frame: Seq<S>, n: int, from: int, count: int) -> Seq<S> {
    frame.subrange(from * n, (from + count) * n)
}

/// A reader that can be asked for any band of `h` rows of `n` samples, and gives whole ones.
pub open spec fn readable<S, E, F: Fn(u32, u32) -> Result<Vec<S>, E>>(
    read: &F,
    h: u32,
    n: int,
) -> bool {
    &&& forall|from: u32, count: u32|
        from + count <= h ==> #[trigger] call_requires(*read, (from, count))
    &&& forall|from: u32, count: u32, v: Vec<S>|
        from + count <= h && #[trigger] call_ensures(*read, (from, count), Ok(v)) ==> v@.len()
            == count * n
}

/// Every band that a reader gives is a band of this frame.
pub open spec fn reads_from<S, E, F: Fn(u32, u32) -> Result<Vec<S>, E>>(
    read: &F,
    frame: Seq<S>,
    h: u32,
    n: int,
) -> bool {
    &&& frame.len() == h * n
    &&& forall|from: u32, count: u32, v: Vec<S>|
        from + count <= h && #[trigger] call_ensures(*read, (from, count), Ok(v)) ==> v@
            == rows_of(frame, n, from as int, count as int)
}

/// Could reading a band fail this way?
pub open spec fn read_fails<S, E, F: Fn(u32, u32) -> Result<Vec<S>, E>>(
    read: &F,
    h: u32,
    from: u32,
    count: u32,
    e: E,
) -> bool {
    from + count <= h && call_ensures(*read, (from, count), Err(e))
}

/// Could reading some band fail this way?
pub open spec fn unread<S, E, F: Fn(u32, u32) -> Result<Vec<S>, E>>(read: &F, h: u32, e: E) -> bool {
    exists|from: u32, count: u32| #[trigger] read_fails(read, h, from, count, e)
}

/// How many rows the band that starts at a row has.
pub open spec fn rows_at(h: int, y0: int) -> int {
    smaller(BAND_ROWS as int, h - y0)
}

/// The `k`th band of a plane with `n` samples in a row.
pub open spec fn band_slice<S>(data: Seq<S>, h: int, n: int, k: int) -> Seq<S> {
    rows_of(data, n, k * BAND_ROWS, rows_at(h, k * BAND_ROWS))
}

/// Is a plane made of what `goal` makes of a frame, band by band?
pub open spec fn made_of<S, T>(
    data: Seq<T>,
    h: int,
    n: int,
    goal: spec_fn(Seq<S>, int) -> Seq<T>,
    frame: Seq<S>,
) -> bool {
    &&& data.len() == h * n
    &&& forall|k: int|
        0 <= k && k * BAND_ROWS < h ==> #[trigger] band_slice(data, h, n, k) == goal(
            frame,
            k * BAND_ROWS,
        )
}

/// Could making a band give these samples?
pub open spec fn piece_gives<S, E, G: Fn(u32) -> Result<Vec<S>, E>>(
    piece: G,
    y0: int,
    samples: Seq<S>,
) -> bool {
    exists|v: Vec<S>| #[trigger] call_ensures(piece, (y0 as u32,), Ok(v)) && v@ == samples
}

/// Could making a band fail this way?
pub open spec fn piece_fails<S, E, G: Fn(u32) -> Result<Vec<S>, E>>(piece: G, y0: u32, e: E) -> bool {
    call_ensures(piece, (y0,), Err(e))
}

/// A band lies inside its plane, and ends where the next one starts.
pub proof fn lemma_band(h: int, n: int, k: int)
    requires
        0 <= k,
        k * BAND_ROWS < h,
        0 <= n,
    ensures
        0 < rows_at(h, k * BAND_ROWS) <= BAND_ROWS,
        0 <= k * BAND_ROWS * n <= (k * BAND_ROWS + rows_at(h, k * BAND_ROWS)) * n <= h * n,
        k * BAND_ROWS + rows_at(h, k * BAND_ROWS) == smaller((k + 1) * BAND_ROWS, h),
{
    let (a, b) = (k * BAND_ROWS, k * BAND_ROWS + rows_at(h, k * BAND_ROWS));
    assert(0 <= a * n <= b * n <= h * n) by (nonlinear_arith)
        requires
            0 <= a <= b <= h,
            0 <= n,
    ;
}

/// Makes a plane of `h` rows of `n` samples, a band at a time.
pub(crate) fn gather<S: Copy, E, G: Fn(u32) -> Result<Vec<S>, E>>(h: u32, n: usize, piece: G) -> (r:
    Result<Vec<S>, E>)
    requires
        h * n <= usize::MAX,
        forall|y0: u32| y0 < h ==> #[trigger] call_requires(piece, (y0,)),
        forall|y0: u32, v: Vec<S>|
            y0 < h && #[trigger] call_ensures(piece, (y0,), Ok(v)) ==> v@.len() == rows_at(
                h as int,
                y0 as int,
            ) * n,
    ensures
        match r {
            Ok(data) => {
                &&& data@.len() == h * n
                &&& forall|k: int|
                    0 <= k && k * BAND_ROWS < h ==> piece_gives(
                        piece,
                        k * BAND_ROWS,
                        #[trigger] band_slice(data@, h as int, n as int, k),
                    )
            },
            Err(e) => exists|y0: u32| y0 < h && #[trigger] piece_fails(piece, y0, e),
        },
{
    let mut data: Vec<S> = Vec::new();
    let mut y0: u32 = 0;
    let ghost mut done: int = 0;
    assert(0 * n == 0) by (nonlinear_arith);
    while y0 < h
        invariant
            y0 <= h,
            0 <= done,
            y0 == smaller(done * BAND_ROWS, h as int),
            h * n <= usize::MAX,
            forall|y0: u32| y0 < h ==> #[trigger] call_requires(piece, (y0,)),
            forall|y0: u32, v: Vec<S>|
                y0 < h && #[trigger] call_ensures(piece, (y0,), Ok(v)) ==> v@.len() == rows_at(
                    h as int,
                    y0 as int,
                ) * n,
            data@.len() == y0 * n,
            forall|k: int|
                0 <= k < done ==> piece_gives(
                    piece,
                    k * BAND_ROWS,
                    #[trigger] band_slice(data@, h as int, n as int, k),
                ),
        decreases h - y0,
    {
        let rows: u32 = if h - y0 < BAND_ROWS {
            h - y0
        } else {
            BAND_ROWS
        };
        let band = match piece(y0) {
            Ok(band) => band,
            Err(e) => {
                assert(piece_fails(piece, y0, e));
                return Err(e);
            },
        };
        let ghost before = data@;
        append(&mut data, &band);
        proof {
            lemma_band(h as int, n as int, done);
            assert((y0 + rows) * n == y0 * n + rows * n) by (nonlinear_arith);
            assert(band_slice(data@, h as int, n as int, done) =~= band@);
            assert(y0 == done * BAND_ROWS);
            assert(call_ensures(piece, ((done * BAND_ROWS) as u32,), Ok(band)));
            assert(piece_gives(piece, done * BAND_ROWS, band@));
            assert forall|k: int| 0 <= k < done implies piece_gives(
                piece,
                k * BAND_ROWS,
                #[trigger] band_slice(data@, h as int, n as int, k),
            ) by {
                lemma_band(h as int, n as int, k);
                let (a, b) = (k * BAND_ROWS + rows_at(h as int, k * BAND_ROWS), y0 as int);
                assert(a * n <= b * n) by (nonlinear_arith)
                    requires
                        a <= b,
                        0 <= n,
                ;
                assert(band_slice(data@, h as int, n as int, k) =~= band_slice(
                    before,
                    h as int,
                    n as int,
                    k,
                ));
            }
            done = done + 1;
        }
        y0 = y0 + rows;
    }
    Ok(data)
}

/// Makes a plane of what `goal` makes of a frame that is read a band at a time.
pub(crate) fn gather_frame<
    S,
    T: Copy,
    E,
    F: Fn(u32, u32) -> Result<Vec<S>, E>,
    G: Fn(u32) -> Result<Vec<T>, E>,
>(
    read: &F,
    h: u32,
    Ghost(wide): Ghost<int>,
    n: usize,
    piece: G,
    Ghost(goal): Ghost<spec_fn(Seq<S>, int) -> Seq<T>>,
) -> (r: Result<Vec<T>, E>)
    requires
        h * n <= usize::MAX,
        forall|y0: u32| y0 < h ==> #[trigger] call_requires(piece, (y0,)),
        forall|y0: u32, v: Vec<T>|
            y0 < h && #[trigger] call_ensures(piece, (y0,), Ok(v)) ==> {
                &&& v@.len() == rows_at(h as int, y0 as int) * n
                &&& forall|frame: Seq<S>| #[trigger]
                    reads_from(read, frame, h, wide) ==> v@ == goal(frame, y0 as int)
            },
        forall|y0: u32, e: E|
            y0 < h && #[trigger] call_ensures(piece, (y0,), Err(e)) ==> unread(
                read,
                h,
                e,
            ),
    ensures
        match r {
            Ok(data) => {
                &&& data@.len() == h * n
                &&& forall|frame: Seq<S>| #[trigger]
                    reads_from(read, frame, h, wide) ==> made_of(
                        data@,
                        h as int,
                        n as int,
                        goal,
                        frame,
                    )
            },
            Err(e) => unread(read, h, e),
        },
{
    match gather(h, n, piece) {
        Ok(data) => {
            proof {
                assert forall|frame: Seq<S>| #[trigger] reads_from(read, frame, h, wide) implies made_of(
                    data@,
                    h as int,
                    n as int,
                    goal,
                    frame,
                ) by {
                    assert forall|k: int|
                        0 <= k && k * BAND_ROWS < h implies #[trigger] band_slice(
                        data@,
                        h as int,
                        n as int,
                        k,
                    ) == goal(frame, k * BAND_ROWS) by {
                        assert(piece_gives(
                            piece,
                            k * BAND_ROWS,
                            band_slice(data@, h as int, n as int, k),
                        ));
                    }
                }
            }
            Ok(data)
        },
        Err(e) => {
            proof {
                let y0 = choose|y0: u32| y0 < h && #[trigger] piece_fails(piece, y0, e);
                assert(unread(read, h, e));
            }
            Err(e)
        },
    }
}

/// Puts samples behind others.
pub(crate) fn append<S: Copy>(data: &mut Vec<S>, more: &Vec<S>)
    ensures
        final(data)@ == old(data)@ + more@,
{
    let ghost before = data@;
    let mut i: usize = 0;
    while i < more.len()
        invariant
            i <= more@.len(),
            data@ == before + more@.subrange(0, i as int),
        decreases more@.len() - i,
    {
        data.push(more[i]);
        proof {
            assert(more@.subrange(0, i + 1) =~= more@.subrange(0, i as int).push(more@[i as int]));
            assert(data@ =~= before + more@.subrange(0, i + 1));
        }
        i += 1;
    }
    assert(more@.subrange(0, i as int) =~= more@);
    assert(before + more@.subrange(0, i as int) =~= before + more@);
}

/// Two planes that are made of the same bands are the same.
pub proof fn lemma_bands_decide<S>(a: Seq<S>, b: Seq<S>, h: int, n: int)
    requires
        0 <= h,
        0 < n,
        a.len() == h * n,
        b.len() == h * n,
        forall|k: int|
            0 <= k && k * BAND_ROWS < h ==> #[trigger] band_slice(a, h, n, k) == band_slice(b, h, n, k),
    ensures
        a == b,
{
    assert forall|i: int| 0 <= i < a.len() implies a[i] == b[i] by {
        let y = i / n;
        let k = y / 256;
        vstd::arithmetic::div_mod::lemma_fundamental_div_mod(i, n);
        assert(0 <= y < h) by (nonlinear_arith)
            requires
                i == n * y + i % n,
                0 <= i % n < n,
                0 <= i < h * n,
                n > 0,
        ;
        assert(0 <= k * 256 <= y < k * 256 + 256);
        lemma_band(h, n, k);
        let (from, rows) = (k * BAND_ROWS, rows_at(h, k * BAND_ROWS));
        assert(from * n <= i < (from + rows) * n) by (nonlinear_arith)
            requires
                i == n * y + i % n,
                0 <= i % n < n,
                from <= y < from + rows,
                n > 0,
        ;
        assert(band_slice(a, h, n, k) == band_slice(b, h, n, k));
        assert(a[i] == band_slice(a, h, n, k)[i - from * n]);
        assert(b[i] == band_slice(b, h, n, k)[i - from * n]);
    }
    assert(a =~= b);
}

} // verus!
