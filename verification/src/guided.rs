//! One frame's weight: its guide, read from the frame, and its mask, refined against it.

use vstd::prelude::*;
use vstd::slice::slice_subrange;
use crate::drive::Halt;
use crate::focus::{band_at, band_of, kept, lemma_bands_cover, measurable};
use crate::image::{FrameInfo, BAND_ROWS};
use crate::labels::champion;
use crate::pipeline::{
    asked, may_cancel, may_continue, Checkpoints, Event, RunControl, Transform,
};
use crate::plane::{warp_plane, warped_sheet, whole_sheet, Plane, Sheet};
use crate::reading::{
    append, band_slice, gather_frame, lemma_band, lemma_bands_decide, made_of, read_fails, readable,
    reads_from, rows_at, rows_of, unread,
};
use crate::sample::{Exact, Sample};
use crate::weights::{
    contend, filled, guide_rows, guide_value, guided, lemma_refined_bands_leave_no_seam, mask, not_negative,
    refine_band, refine_halo, GuideSpace,
};

verus! {

/// Edge-aware weights: a frame's mask, refined by guided filtering against the frame's own
/// aligned image.
#[derive(Debug)]
pub struct GuidedWeights<S> {
    pub radius: u32,
    pub epsilon: S,
    pub guide_space: GuideSpace,
}

/// The guide of a frame, before any tone encoding.
pub open spec fn guide_of<S: Sample>(frame: Seq<S>, space: GuideSpace) -> Seq<S> {
    Seq::new(
        (frame.len() / 3) as nat,
        |i: int| guide_value(space, frame[3 * i], frame[3 * i + 1], frame[3 * i + 2]),
    )
}

/// The guide of each band of a frame, by its first row.
spec fn guide_pieces<S: Sample>(space: GuideSpace, w: int, h: int) -> spec_fn(Seq<S>, int) -> Seq<S> {
    |frame: Seq<S>, y0: int| guide_of(rows_of(frame, w * 3, y0, rows_at(h, y0)), space)
}

/// A guide is encoded pixel by pixel where it is measured as the eye would, and left alone
/// where it is measured in linear light.
pub open spec fn toned<S, T: Fn(S) -> S>(data: Seq<S>, raw: Seq<S>, space: GuideSpace, tone: &T) -> bool {
    &&& data.len() == raw.len()
    &&& forall|i: int|
        0 <= i < data.len() ==> match space {
            GuideSpace::Linear => #[trigger] data[i] == raw[i],
            GuideSpace::Perceptual => call_ensures(*tone, (raw[i],), data[i]),
        }
}

/// Is a plane a frame's guide, encoded and warped after?
pub open spec fn guides<S: Sample, T: Fn(S) -> S>(
    out: Sheet<S>,
    info: FrameInfo,
    space: GuideSpace,
    tone: &T,
    transform: Transform<S>,
    frame: Seq<S>,
) -> bool {
    exists|native: Sheet<S>|
        native.w == info.width && native.h == info.height && #[trigger] toned(
            native.data,
            guide_of(frame, space),
            space,
            tone,
        ) && out == warped_sheet(native, transform)
}

/// The refined weights of a band, from the labels that it reads.
pub open spec fn refined_piece<S: Sample>(
    guide: Seq<S>,
    labels: Seq<usize>,
    index: int,
    w: int,
    h: int,
    radius: int,
    epsilon: S,
    y0: int,
) -> Seq<S> {
    let b = band_of(h, y0, refine_halo(radius), 1);
    kept(
        guided(
            guide.subrange(b.from * w, b.to * w),
            mask::<S>(rows_of(labels, w, b.from as int, b.to - b.from), index),
            w,
            b.to - b.from,
            radius,
            epsilon,
        ),
        w,
        b,
    ).map_values(|v: S| not_negative(v))
}

/// The refined weights of each band, by its first row.
pub open spec fn refined_pieces<S: Sample>(
    guide: Seq<S>,
    index: int,
    w: int,
    h: int,
    radius: int,
    epsilon: S,
) -> spec_fn(Seq<usize>, int) -> Seq<S> {
    |labels: Seq<usize>, y0: int|
        refined_piece(guide, labels, index, w, h, radius, epsilon, y0)
}

/// A band of a frame's guide is the guide of the band.
proof fn lemma_guide_of_rows<S: Sample>(frame: Seq<S>, space: GuideSpace, w: int, from: int, to: int)
    requires
        0 <= w,
        0 <= from <= to,
        to * (w * 3) <= frame.len(),
    ensures
        guide_of(rows_of(frame, w * 3, from, to - from), space) == rows_of(
            guide_of(frame, space),
            w,
            from,
            to - from,
        ),
{
    assert(from * (w * 3) == 3 * (from * w) && to * (w * 3) == 3 * (to * w)) by (nonlinear_arith);
    assert(0 <= from * w <= to * w) by (nonlinear_arith)
        requires
            0 <= w,
            0 <= from <= to,
    ;
    assert(guide_of(rows_of(frame, w * 3, from, to - from), space) =~= rows_of(
        guide_of(frame, space),
        w,
        from,
        to - from,
    ));
}

/// A guide that is made band by band is the guide.
proof fn lemma_guide_has_no_seam<S: Sample>(
    data: Seq<S>,
    frame: Seq<S>,
    space: GuideSpace,
    w: int,
    h: int,
)
    requires
        0 < w,
        0 <= h,
        frame.len() == h * (w * 3),
        made_of(data, h, w, guide_pieces(space, w, h), frame),
    ensures
        data == guide_of(frame, space),
{
    let whole = guide_of(frame, space);
    assert(h * (w * 3) == 3 * (h * w)) by (nonlinear_arith);
    assert(0 <= h * w) by (nonlinear_arith)
        requires
            0 < w,
            0 <= h,
    ;
    assert forall|k: int| 0 <= k && k * BAND_ROWS < h implies #[trigger] band_slice(data, h, w, k)
        == band_slice(whole, h, w, k) by {
        let y0 = k * BAND_ROWS;
        let to = y0 + rows_at(h, y0);
        lemma_band(h, w * 3, k);
        lemma_guide_of_rows(frame, space, w, y0, to);
        assert(band_slice(data, h, w, k) == guide_pieces::<S>(space, w, h)(frame, y0));
    }
    lemma_bands_decide(data, whole, h, w);
}

/// A reader of `n` planes that can be asked for any band of any of them, and gives whole
/// ones.
pub open spec fn planes_readable<S, E, F: Fn(usize, u32, u32) -> Result<Vec<S>, E>>(
    read: &F,
    n: usize,
    w: int,
    h: u32,
) -> bool {
    &&& forall|k: usize, from: u32, count: u32|
        k < n && from + count <= h ==> #[trigger] call_requires(*read, (k, from, count))
    &&& forall|k: usize, from: u32, count: u32, v: Vec<S>|
        k < n && from + count <= h && #[trigger] call_ensures(*read, (k, from, count), Ok(v))
            ==> v@.len() == count * w
}

/// Every band that a reader gives is a band of one of these planes.
pub open spec fn planes_read<S, E, F: Fn(usize, u32, u32) -> Result<Vec<S>, E>>(
    read: &F,
    planes: Seq<Seq<S>>,
    n: usize,
    w: int,
    h: u32,
) -> bool {
    &&& planes.len() == n
    &&& forall|k: int| 0 <= k < n ==> (#[trigger] planes[k]).len() == h * w
    &&& forall|k: usize, from: u32, count: u32, v: Vec<S>|
        k < n && from + count <= h && #[trigger] call_ensures(*read, (k, from, count), Ok(v))
            ==> v@ == rows_of(planes[k as int], w, from as int, count as int)
}

/// Could reading a band of a plane fail this way?
pub open spec fn plane_fails<S, E, F: Fn(usize, u32, u32) -> Result<Vec<S>, E>>(
    read: &F,
    k: usize,
    from: u32,
    count: u32,
    e: E,
) -> bool {
    call_ensures(*read, (k, from, count), Err(e))
}

/// Could reading some band of some plane fail this way?
pub open spec fn plane_unread<S, E, F: Fn(usize, u32, u32) -> Result<Vec<S>, E>>(
    read: &F,
    n: usize,
    h: u32,
    e: E,
) -> bool {
    exists|k: usize, from: u32, count: u32|
        k < n && from + count <= h && #[trigger] plane_fails(read, k, from, count, e)
}

/// The values that the planes have at one place.
pub open spec fn values_at<S>(planes: Seq<Seq<S>>, i: int) -> spec_fn(int) -> S {
    |k: int| planes[k][i]
}

/// The index of the sharpest frame at a place: the first that no other is sharper than.
pub open spec fn sharpest<S: Sample>(planes: Seq<Seq<S>>, i: int) -> int {
    champion(values_at(planes, i), S::spec_lowest(), planes.len()).1
}

/// Do these hold the winners of a contest between the first `k` frames, from place `base`
/// on?
spec fn contested<S: Sample>(
    best: Seq<S>,
    winner: Seq<usize>,
    planes: Seq<Seq<S>>,
    base: int,
    k: nat,
) -> bool {
    forall|i: int|
        0 <= i < best.len() ==> (#[trigger] best[i], winner[i] as int) == champion(
            values_at(planes, base + i),
            S::spec_lowest(),
            k,
        )
}

/// The sharpest frame at each place of a band.
fn contest<S: Sample, E, F: Fn(usize, u32, u32) -> Result<Vec<S>, E>>(
    n: usize,
    width: u32,
    height: u32,
    maps: &F,
    y0: u32,
    rows: u32,
) -> (r: Result<Vec<usize>, E>)
    requires
        width * height <= usize::MAX,
        y0 + rows <= height,
        planes_readable(maps, n, width as int, height),
    ensures
        match r {
            Ok(out) => {
                &&& out@.len() == rows * width
                &&& forall|planes: Seq<Seq<S>>, i: int|
                    #![trigger planes_read(maps, planes, n, width as int, height), out@[i]]
                    planes_read(maps, planes, n, width as int, height) && 0 <= i < out@.len()
                        ==> out@[i] == sharpest(planes, y0 * width + i)
            },
            Err(e) => plane_unread(maps, n, height, e),
        },
{
    let ghost w = width as int;
    proof {
        assert(rows * width <= width * height) by (nonlinear_arith)
            requires
                rows <= height,
        ;
    }
    let len: usize = rows as usize * width as usize;
    let mut best = filled(S::lowest(), len);
    let mut winner = filled(0usize, len);
    let mut k: usize = 0;
    while k < n
        invariant
            k <= n,
            w == width,
            y0 + rows <= height,
            len == rows * width,
            planes_readable(maps, n, w, height),
            best@.len() == len,
            winner@.len() == len,
            forall|planes: Seq<Seq<S>>| #[trigger]
                planes_read(maps, planes, n, w, height) ==> contested(
                    best@,
                    winner@,
                    planes,
                    y0 * w,
                    k as nat,
                ),
        decreases n - k,
    {
        let band = match maps(k, y0, rows) {
            Ok(band) => band,
            Err(e) => {
                assert(plane_fails(maps, k, y0, rows, e));
                return Err(e);
            },
        };
        let ghost (b, v) = (best@, winner@);
        contend(&mut best, &mut winner, band.as_slice(), k);
        proof {
            assert forall|planes: Seq<Seq<S>>| #[trigger]
                planes_read(maps, planes, n, w, height) implies contested(
                best@,
                winner@,
                planes,
                y0 * w,
                (k + 1) as nat,
            ) by {
                assert(contested(b, v, planes, y0 * w, k as nat));
                assert(band@ == rows_of(planes[k as int], w, y0 as int, rows as int));
                assert((y0 + rows) * w == y0 * w + rows * w) by (nonlinear_arith);
                assert(0 <= y0 * w) by (nonlinear_arith)
                    requires
                        0 <= y0,
                        0 <= w,
                ;
                assert((y0 + rows) * w <= height * w) by (nonlinear_arith)
                    requires
                        y0 + rows <= height,
                        0 <= w,
                ;
                assert forall|i: int| 0 <= i < best@.len() implies (
                    #[trigger] best@[i],
                    winner@[i] as int,
                ) == champion(values_at(planes, y0 * w + i), S::spec_lowest(), (k + 1) as nat) by {
                    assert((b[i], v[i] as int) == champion(
                        values_at(planes, y0 * w + i),
                        S::spec_lowest(),
                        k as nat,
                    ));
                    assert(band@[i] == planes[k as int][y0 * w + i]);
                }
            }
        }
        k += 1;
    }
    proof {
        assert forall|planes: Seq<Seq<S>>, i: int|
            #![trigger planes_read(maps, planes, n, w, height), winner@[i]]
            planes_read(maps, planes, n, w, height) && 0 <= i < winner@.len() implies winner@[i]
            == sharpest(planes, y0 * width + i) by {
            assert(contested(best@, winner@, planes, y0 * w, n as nat));
            assert((best@[i], winner@[i] as int) == champion(
                values_at(planes, y0 * w + i),
                S::spec_lowest(),
                planes.len(),
            ));
        }
    }
    Ok(winner)
}

/// How many bands a plane of this height is gone through in.
pub open spec fn bands_in(height: int) -> nat {
    ((height + BAND_ROWS - 1) / BAND_ROWS as int) as nat
}

impl<S: Sample> GuidedWeights<S> {
    pub fn new(radius: u32, epsilon: S, guide_space: GuideSpace) -> (r: Self)
        ensures
            r == (GuidedWeights { radius, epsilon, guide_space }),
    {
        GuidedWeights { radius, epsilon, guide_space }
    }

    /// Per-pixel index of the sharpest of `n` frames, read from their focus maps a band at a
    /// time, with a look at the run before each band.
    pub fn labels<R: RunControl, E, F: Fn(usize, u32, u32) -> Result<Vec<S>, E>>(
        &self,
        n: usize,
        width: u32,
        height: u32,
        maps: &F,
        run: &mut Checkpoints<R>,
    ) -> (r: Result<Vec<usize>, Halt<E>>)
        requires
            n > 0,
            width * height <= usize::MAX,
            planes_readable(maps, n, width as int, height),
        ensures
            final(run).control() == old(run).control(),
            match r {
                Ok(out) => {
                    &&& final(run).log() == old(run).log() + asked(bands_in(height as int))
                    &&& out@.len() == height * width
                    &&& forall|planes: Seq<Seq<S>>, i: int|
                        #![trigger planes_read(maps, planes, n, width as int, height), out@[i]]
                        planes_read(maps, planes, n, width as int, height) && 0 <= i < out@.len()
                            ==> out@[i] == sharpest(planes, i)
                },
                Err(Halt::Cancelled) => may_cancel(old(run).control()) && exists|k: nat|
                    k < bands_in(height as int) && final(run).log() == old(run).log()
                        + #[trigger] asked(k).push(Event::Asked { stop: true }),
                Err(Halt::Failed(e)) => plane_unread(maps, n, height, e) && exists|k: nat|
                    k < bands_in(height as int) && final(run).log() == old(run).log()
                        + #[trigger] asked(k + 1),
            },
            r is Ok && height > 0 ==> may_continue(old(run).control()),
    {
        let ghost w = width as int;
        let mut data: Vec<usize> = Vec::new();
        let mut y0: u32 = 0;
        let ghost (control, from) = (run.control(), run.log());
        let ghost mut k: nat = 0;
        assert(run.log() =~= from + asked(0));
        assert(0 * w == 0) by (nonlinear_arith);
        while y0 < height
            invariant
                y0 <= height,
                w == width,
                width * height <= usize::MAX,
                planes_readable(maps, n, w, height),
                data@.len() == y0 * w,
                control == old(run).control(),
                from == old(run).log(),
                run.control() == control,
                run.log() == from + asked(k),
                y0 < height ==> y0 == k * BAND_ROWS,
                y0 == height ==> k == bands_in(height as int),
                y0 > 0 ==> may_continue(control),
                forall|planes: Seq<Seq<S>>, i: int|
                    #![trigger planes_read(maps, planes, n, w, height), data@[i]]
                    planes_read(maps, planes, n, w, height) && 0 <= i < data@.len() ==> data@[i]
                        == sharpest(planes, i),
            decreases height - y0,
        {
            if run.cancelled() {
                assert(run.log() =~= from + asked(k).push(Event::Asked { stop: true }));
                return Err(Halt::Cancelled);
            }
            assert(asked(k + 1) =~= asked(k).push(Event::Asked { stop: false }));
            assert(run.log() =~= from + asked(k + 1));
            let left: u32 = height - y0;
            let rows: u32 = if left < BAND_ROWS {
                left
            } else {
                BAND_ROWS
            };
            let band = match contest(n, width, height, maps, y0, rows) {
                Ok(band) => band,
                Err(e) => {
                    let halt = Halt::Failed(e);
                    assert(halt->Failed_0 == e);
                    return Err(halt);
                },
            };
            let ghost before = data@;
            append(&mut data, &band);
            proof {
                assert((y0 + rows) * w == y0 * w + rows * w) by (nonlinear_arith);
                assert forall|planes: Seq<Seq<S>>, i: int|
                    #![trigger planes_read(maps, planes, n, w, height), data@[i]]
                    planes_read(maps, planes, n, w, height) && 0 <= i < data@.len() implies data@[i]
                    == sharpest(planes, i) by {
                    if i < before.len() {
                        assert(data@[i] == before[i]);
                    } else {
                        assert(data@[i] == band@[i - y0 * w]);
                    }
                }
            }
            y0 = y0 + rows;
            proof {
                k = k + 1;
            }
        }
        let done: Result<Vec<usize>, Halt<E>> = Ok(data);
        done
    }

    /// The frame's luminance in its own coordinates, before any tone encoding.
    fn native_guide<E, F: Fn(u32, u32) -> Result<Vec<S>, E>>(&self, info: FrameInfo, read: &F) -> (r:
        Result<Vec<S>, E>)
        requires
            measurable(info),
            readable(read, info.height, info.width * 3),
        ensures
            match r {
                Ok(data) => {
                    &&& data@.len() == info.height * info.width
                    &&& forall|frame: Seq<S>| #[trigger]
                        reads_from(read, frame, info.height, info.width * 3) ==> data@ == guide_of(
                            frame,
                            self.guide_space,
                        )
                },
                Err(e) => unread(read, info.height, e),
            },
    {
        let space = self.guide_space;
        let piece = |y0: u32| -> (out: Result<Vec<S>, E>)
            requires
                y0 < info.height,
            ensures
                match out {
                    Ok(v) => {
                        &&& v@.len() == rows_at(info.height as int, y0 as int) * info.width
                        &&& forall|frame: Seq<S>| #[trigger]
                            reads_from(read, frame, info.height, info.width * 3) ==> v@ == guide_of(
                                rows_of(
                                    frame,
                                    info.width * 3,
                                    y0 as int,
                                    rows_at(info.height as int, y0 as int),
                                ),
                                space,
                            )
                    },
                    Err(e) => unread(read, info.height, e),
                },
            {
                let left: u32 = info.height - y0;
                let rows: u32 = if left < BAND_ROWS {
                    left
                } else {
                    BAND_ROWS
                };
                match read(y0, rows) {
                    Ok(band) => {
                        let out = guide_rows(band.as_slice(), space);
                        proof {
                            assert(rows * (info.width * 3) == 3 * (rows * info.width))
                                by (nonlinear_arith);
                            assert(out@ =~= guide_of(band@, space));
                        }
                        Ok(out)
                    },
                    Err(e) => {
                        assert(read_fails(read, info.height, y0, rows, e));
                        Err(e)
                    },
                }
            };
        proof {
            assert(info.width * info.height == info.height * info.width) by (nonlinear_arith);
        }
        let ghost goal = guide_pieces::<S>(space, info.width as int, info.height as int);
        match gather_frame(
            read,
            info.height,
            Ghost(info.width * 3),
            info.width as usize,
            piece,
            Ghost(goal),
        ) {
            Ok(data) => {
                proof {
                    assert forall|frame: Seq<S>| #[trigger]
                        reads_from(read, frame, info.height, info.width * 3) implies data@
                        == guide_of(frame, space) by {
                        lemma_guide_has_no_seam(
                            data@,
                            frame,
                            space,
                            info.width as int,
                            info.height as int,
                        );
                    }
                }
                Ok(data)
            },
            Err(e) => Err(e),
        }
    }

    /// The frame's luminance, aligned into the anchor's coordinates, in the space that the
    /// guide is measured in. `tone` encodes linear light as the eye perceives it.
    pub fn guide<E, F: Fn(u32, u32) -> Result<Vec<S>, E>, T: Fn(S) -> S>(
        &self,
        info: FrameInfo,
        transform: Transform<S>,
        read: &F,
        tone: &T,
    ) -> (r: Result<Plane<S>, E>)
        requires
            measurable(info),
            info.height > 0,
            readable(read, info.height, info.width * 3),
            forall|v: S| #[trigger] call_requires(*tone, (v,)),
        ensures
            match r {
                Ok(plane) => {
                    &&& plane.width == info.width
                    &&& plane.height == info.height
                    &&& whole_sheet(plane@)
                    &&& forall|frame: Seq<S>| #[trigger]
                        reads_from(read, frame, info.height, info.width * 3) ==> guides(
                            plane@,
                            info,
                            self.guide_space,
                            tone,
                            transform,
                            frame,
                        )
                },
                Err(e) => unread(read, info.height, e),
            },
    {
        let raw = match self.native_guide(info, read) {
            Ok(raw) => raw,
            Err(e) => {
                return Err(e);
            },
        };
        let mut data: Vec<S> = Vec::with_capacity(raw.len());
        let mut i: usize = 0;
        while i < raw.len()
            invariant
                i <= raw@.len(),
                data@.len() == i,
                forall|v: S| #[trigger] call_requires(*tone, (v,)),
                forall|k: int|
                    0 <= k < i ==> match self.guide_space {
                        GuideSpace::Linear => #[trigger] data@[k] == raw@[k],
                        GuideSpace::Perceptual => call_ensures(*tone, (raw@[k],), data@[k]),
                    },
            decreases raw@.len() - i,
        {
            let v = match self.guide_space {
                GuideSpace::Linear => raw[i],
                GuideSpace::Perceptual => tone(raw[i]),
            };
            data.push(v);
            i += 1;
        }
        assert(info.width * info.height == info.height * info.width) by (nonlinear_arith);
        let native = Plane { width: info.width, height: info.height, data };
        let plane = warp_plane(&native, transform);
        proof {
            assert forall|frame: Seq<S>| #[trigger]
                reads_from(read, frame, info.height, info.width * 3) implies guides(
                plane@,
                info,
                self.guide_space,
                tone,
                transform,
                frame,
            ) by {
                assert(toned(
                    native@.data,
                    guide_of(frame, self.guide_space),
                    self.guide_space,
                    tone,
                ));
            }
        }
        Ok(plane)
    }

    /// A frame's mask, refined against its own guide: where the frame is the sharpest,
    /// spread along its edges. The labels are read a band at a time.
    pub fn refine<E, L: Fn(u32, u32) -> Result<Vec<usize>, E>>(
        &self,
        index: usize,
        guide: &Plane<S>,
        labels: &L,
    ) -> (r: Result<Plane<S>, E>)
        requires
            whole_sheet(guide@),
            guide.width > 0,
            refine_halo(self.radius as int) <= u32::MAX,
            readable(labels, guide.height, guide.width as int),
        ensures
            match r {
                Ok(plane) => {
                    &&& plane.width == guide.width
                    &&& plane.height == guide.height
                    &&& whole_sheet(plane@)
                    &&& forall|field: Seq<usize>| #[trigger]
                        reads_from(labels, field, guide.height, guide.width as int) ==> made_of(
                            plane.data@,
                            guide.height as int,
                            guide.width as int,
                            refined_pieces(
                                guide.data@,
                                index as int,
                                guide.width as int,
                                guide.height as int,
                                self.radius as int,
                                self.epsilon,
                            ),
                            field,
                        )
                },
                Err(e) => unread(labels, guide.height, e),
            },
    {
        let (width, height): (u32, u32) = (guide.width, guide.height);
        let halo: u32 = 2 * self.radius;
        let pixels = guide.data.as_slice();
        let piece = |y0: u32| -> (out: Result<Vec<S>, E>)
            requires
                y0 < height,
            ensures
                match out {
                    Ok(v) => {
                        &&& v@.len() == rows_at(height as int, y0 as int) * width
                        &&& forall|field: Seq<usize>| #[trigger]
                            reads_from(labels, field, height, width as int) ==> v@ == refined_piece(
                                guide.data@,
                                field,
                                index as int,
                                width as int,
                                height as int,
                                self.radius as int,
                                self.epsilon,
                                y0 as int,
                            )
                    },
                    Err(e) => unread(labels, height, e),
                },
            {
                let b = band_at(height, y0, halo, 1);
                let count: u32 = b.to - b.from;
                match labels(b.from, count) {
                    Ok(names) => {
                        let w: usize = width as usize;
                        proof {
                            let (from, to) = (b.from as int, b.to as int);
                            assert(0 <= from * w <= to * w <= width * height && to * w - from * w
                                == width * count) by (nonlinear_arith)
                                requires
                                    0 <= from <= to <= height,
                                    count == to - from,
                                    w == width,
                            ;
                            assert(count * width == width * count) by (nonlinear_arith);
                            assert(guide.data@.len() == pixels.len());
                        }
                        let part = slice_subrange(pixels, b.from as usize * w, b.to as usize * w);
                        let out = refine_band(
                            part,
                            names.as_slice(),
                            index,
                            width,
                            self.radius,
                            self.epsilon,
                            b,
                        );
                        proof {
                            let first = b.y0 - b.from;
                            assert((first + b.rows) * width - first * width == b.rows * width)
                                by (nonlinear_arith);
                            assert(0 <= first * width && (first + b.rows) * width <= width * count)
                                by (nonlinear_arith)
                                requires
                                    0 <= first,
                                    first + b.rows <= count,
                            ;
                        }
                        Ok(out)
                    },
                    Err(e) => {
                        assert(read_fails(labels, height, b.from, count, e));
                        Err(e)
                    },
                }
            };
        proof {
            assert(width * height == height * width) by (nonlinear_arith);
            assert(guide.data@.len() == pixels.len());
        }
        let ghost goal = refined_pieces(
            guide.data@,
            index as int,
            width as int,
            height as int,
            self.radius as int,
            self.epsilon,
        );
        match gather_frame(
            labels,
            height,
            Ghost(width as int),
            width as usize,
            piece,
            Ghost(goal),
        ) {
            Ok(data) => Ok(Plane { width, height, data }),
            Err(e) => Err(e),
        }
    }
}

/// A mask is taken pixel by pixel, so a band's is a band of the whole.
proof fn lemma_mask_of_rows<S: Sample>(labels: Seq<usize>, index: int, w: int, from: int, to: int)
    requires
        0 <= from * w <= to * w <= labels.len(),
    ensures
        mask::<S>(rows_of(labels, w, from, to - from), index) == mask::<S>(labels, index).subrange(
            from * w,
            to * w,
        ),
{
    assert(mask::<S>(rows_of(labels, w, from, to - from), index) =~= mask::<S>(
        labels,
        index,
    ).subrange(from * w, to * w));
}

/// A frame's weight refined a band at a time is refined as a whole: no seam shows where one
/// band ends and the next begins.
pub proof fn lemma_refined_frame_has_no_seam<S: Exact>(
    data: Seq<S>,
    guide: Seq<S>,
    labels: Seq<usize>,
    index: int,
    w: int,
    h: int,
    radius: int,
    epsilon: S,
)
    requires
        0 < w,
        0 <= h <= u32::MAX,
        0 <= radius,
        guide.len() == w * h,
        labels.len() == w * h,
        made_of(data, h, w, refined_pieces(guide, index, w, h, radius, epsilon), labels),
    ensures
        data == guided(guide, mask::<S>(labels, index), w, h, radius, epsilon).map_values(
            |v: S| not_negative(v),
        ),
{
    let input = mask::<S>(labels, index);
    let filtered = guided(guide, input, w, h, radius, epsilon);
    let whole = filtered.map_values(|v: S| not_negative(v));
    assert(w * h == h * w) by (nonlinear_arith);
    assert forall|k: int| 0 <= k && k * BAND_ROWS < h implies #[trigger] band_slice(data, h, w, k)
        == band_slice(whole, h, w, k) by {
        let y0 = k * BAND_ROWS;
        let b = band_of(h, y0, refine_halo(radius), 1);
        lemma_bands_cover(h, y0, refine_halo(radius), 1);
        lemma_band(h, w, k);
        assert(0 <= b.from * w <= b.to * w <= w * h) by (nonlinear_arith)
            requires
                0 <= b.from <= b.to <= h,
                0 < w,
        ;
        lemma_mask_of_rows::<S>(labels, index, w, b.from as int, b.to as int);
        lemma_refined_bands_leave_no_seam(guide, input, w, h, radius, epsilon, y0);
        assert(band_slice(data, h, w, k) == refined_pieces(guide, index, w, h, radius, epsilon)(
            labels,
            y0,
        ));
        assert(filtered.len() == w * h);
        assert(filtered.subrange(b.y0 * w, (b.y0 + b.rows) * w).map_values(
            |v: S| not_negative(v),
        ) =~= band_slice(whole, h, w, k));
    }
    lemma_bands_decide(data, whole, h, w);
}

} // verus!
