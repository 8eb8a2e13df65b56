//! Finding the frames of a stack among what a directory holds, and checking that they
//! agree on geometry.

use vstd::prelude::*;
use vstd::seq_lib::{to_multiset_build, to_multiset_contains, to_multiset_insert, to_multiset_len, to_multiset_remove};
use vstd::string::StringSliceAdditionalSpecFns;
use vstd::utf8::encode_utf8;
use crate::error::Error;
use crate::image::FrameInfo;
use crate::natural::{
    bytes_place, bytes_sign, lemma_names_are_totally_ordered, name_place, name_sign,     Place,
};
use crate::text::same_bytes;

verus! {

/// One thing in a directory.
#[derive(Debug, PartialEq, Eq)]
pub struct Entry {
    /// Its name, where that is text.
    pub name: Option<String>,
    pub is_file: bool,
}

/// A letter without regard to case.
pub open spec fn lower(b: u8) -> u8 {
    if 0x41 <= b <= 0x5a {
        (b + 0x20) as u8
    } else {
        b
    }
}

/// Two byte strings that differ at most in the case of their letters.
pub open spec fn same_but_case(a: Seq<u8>, b: Seq<u8>) -> bool {
    a.len() == b.len() && forall|i: int|
        0 <= i < a.len() ==> lower(#[trigger] a[i]) == lower(b[i])
}

/// Where the last full stop of a name stands, or -1.
pub open spec fn last_stop(s: Seq<u8>) -> int
    decreases s.len(),
{
    if s.len() == 0 {
        -1
    } else if s.last() == 0x2e {
        s.len() - 1
    } else {
        last_stop(s.drop_last())
    }
}

/// Stems of TIFFs that live alongside a stack's frames but are not frames: ground truth
/// and reference renders, and our own output.
pub open spec fn is_non_frame_stem(stem: Seq<u8>) -> bool {
    ||| stem == "ground_truth_all_in_focus".spec_bytes()
    ||| stem == "depth_map".spec_bytes()
    ||| stem == "stackaroni_fused".spec_bytes()
    ||| stem == "reference_pmax".spec_bytes()
}

/// Is this the name of a frame? A TIFF that is not hidden, and not one of the known
/// exceptions.
pub open spec fn names_frame(name: Seq<u8>) -> bool {
    let k = last_stop(name);
    &&& name.len() > 0
    &&& name[0] != 0x2e
    &&& k >= 0
    &&& (same_but_case(name.skip(k + 1), "tif".spec_bytes()) || same_but_case(
        name.skip(k + 1),
        "tiff".spec_bytes(),
    ))
    &&& !is_non_frame_stem(name.take(k))
}

fn fold(b: u8) -> (r: u8)
    ensures
        r == lower(b),
{
    if b >= 0x41 && b <= 0x5a {
        b + 0x20
    } else {
        b
    }
}

fn eq_ignore_case(a: &[u8], b: &[u8]) -> (r: bool)
    ensures
        r == same_but_case(a@, b@),
{
    if a.len() != b.len() {
        return false;
    }
    let mut i: usize = 0;
    while i < a.len()
        invariant
            i <= a@.len(),
            a@.len() == b@.len(),
            forall|k: int| 0 <= k < i ==> lower(#[trigger] a@[k]) == lower(b@[k]),
        decreases a@.len() - i,
    {
        if fold(a[i]) != fold(b[i]) {
            return false;
        }
        i += 1;
    }
    true
}

fn find_last_stop(s: &[u8]) -> (r: Option<usize>)
    ensures
        match r {
            Some(k) => k == last_stop(s@) && k < s@.len(),
            None => last_stop(s@) == -1,
        },
{
    let mut i: usize = s.len();
    assert(s@.take(s@.len() as int) =~= s@);
    while i > 0
        invariant
            i <= s@.len(),
            last_stop(s@.take(i as int)) == last_stop(s@),
        decreases i,
    {
        assert(s@.take(i as int).last() == s@[i - 1]);
        if s[i - 1] == 0x2e {
            return Some(i - 1);
        }
        assert(s@.take(i as int).drop_last() =~= s@.take(i - 1));
        i -= 1;
    }
    None
}

/// Is this entry a frame of a stack?
pub fn is_frame(name: Option<&str>, is_file: bool) -> (r: bool)
    ensures
        r == (is_file && match name {
            Some(name) => names_frame(name.spec_bytes()),
            None => false,
        }),
{
    if !is_file {
        return false;
    }
    let name = match name {
        Some(name) => name.as_bytes(),
        None => {
            return false;
        },
    };
    // Skips dotfiles and the sidecars that some systems leave beside a file.
    if name.len() == 0 || name[0] == 0x2e {
        return false;
    }
    let k = match find_last_stop(name) {
        Some(k) => k,
        None => {
            return false;
        },
    };
    let (stem, dotted) = name.split_at(k);
    let (_, extension) = dotted.split_at(1);
    proof {
        assert(stem@ =~= name@.take(k as int));
        assert(extension@ =~= name@.skip(k + 1));
    }
    let is_tiff = eq_ignore_case(extension, "tif".as_bytes()) || eq_ignore_case(
        extension,
        "tiff".as_bytes(),
    );
    is_tiff && !same_bytes(stem, "ground_truth_all_in_focus".as_bytes()) && !same_bytes(
        stem,
        "depth_map".as_bytes(),
    ) && !same_bytes(stem, "stackaroni_fused".as_bytes()) && !same_bytes(
        stem,
        "reference_pmax".as_bytes(),
    )
}

/// The bytes of a list of names.
pub open spec fn name_bytes(names: Seq<String>) -> Seq<Seq<u8>> {
    names.map_values(|s: String| encode_utf8(s@))
}

/// Names in order: each before every later one.
pub open spec fn in_order(names: Seq<Seq<u8>>) -> bool {
    forall|i: int, j: int|
        0 <= i < j < names.len() ==> name_sign(#[trigger] names[i], #[trigger] names[j]) <= 0
}

/// The names of the frames among the first `n` entries, as they were listed.
pub open spec fn listed_frames(entries: Seq<Entry>, n: nat) -> Seq<Seq<u8>>
    decreases n,
{
    if n == 0 {
        seq![]
    } else {
        let before = listed_frames(entries, (n - 1) as nat);
        let e = entries[n - 1];
        match e.name {
            Some(name) => if e.is_file && names_frame(encode_utf8(name@)) {
                before.push(encode_utf8(name@))
            } else {
                before
            },
            None => before,
        }
    }
}

/// Does one name stand after another in stacking order?
fn stands_after(a: &String, b: &String) -> (r: bool)
    ensures
        r == (name_sign(encode_utf8(a@), encode_utf8(b@)) > 0),
{
    match name_place(a.as_str().as_bytes(), b.as_str().as_bytes()) {
        Place::After => true,
        _ => false,
    }
}

/// Puts a name into a list that is in order.
fn put_in_order(names: &mut Vec<String>, name: String)
    requires
        in_order(name_bytes(old(names)@)),
    ensures
        in_order(name_bytes(final(names)@)),
        name_bytes(final(names)@).to_multiset() == name_bytes(old(names)@).to_multiset().insert(
            encode_utf8(name@),
        ),
{
    let ghost before = name_bytes(names@);
    let ghost bytes = encode_utf8(name@);
    let mut k: usize = names.len();
    while k > 0 && stands_after(&names[k - 1], &name)
        invariant
            k <= names@.len(),
            before == name_bytes(names@),
            bytes == encode_utf8(name@),
            forall|i: int| k <= i < before.len() ==> name_sign(#[trigger] before[i], bytes) > 0,
        decreases k,
    {
        assert(before[k - 1] == encode_utf8(names@[k - 1]@));
        k -= 1;
    }
    proof {
        if k > 0 {
            assert(before[k - 1] == encode_utf8(names@[k - 1]@));
            assert(name_sign(before[k - 1], bytes) <= 0);
        }
    }
    names.insert(k, name);
    proof {
        let after = name_bytes(names@);
        assert(after =~= before.insert(k as int, bytes));
        to_multiset_insert(before, k as int, bytes);
        assert forall|i: int, j: int| 0 <= i < j < after.len() implies name_sign(
            #[trigger] after[i],
            #[trigger] after[j],
        ) <= 0 by {
            if i < k && j == k {
                if i < k - 1 {
                    assert(name_sign(before[i], before[k - 1]) <= 0);
                    lemma_names_are_totally_ordered(before[i], before[k - 1], bytes);
                }
            } else if i == k {
                assert(after[j] == before[j - 1]);
                lemma_names_are_totally_ordered(bytes, before[j - 1], bytes);
            } else {
                let (p, q) = (
                    if i < k {
                        i
                    } else {
                        i - 1
                    },
                    if j < k {
                        j
                    } else {
                        j - 1
                    },
                );
                assert(after[i] == before[p] && after[j] == before[q]);
            }
        }
    }
}

/// A directory of frames, in stacking order.
#[derive(Debug, PartialEq, Eq)]
pub struct Stack {
    pub name: String,
    pub dir: String,
    pub frames: Vec<String>,
}

/// Are a stack's frames the ones among a directory's entries, in stacking order?
pub open spec fn is_stack_of(s: Stack, entries: Seq<Entry>) -> bool {
    &&& s.frames@.len() > 0
    &&& in_order(name_bytes(s.frames@))
    &&& name_bytes(s.frames@).to_multiset() == listed_frames(entries, entries.len()).to_multiset()
}

/// The frames among a directory's entries, in stacking order.
///
/// Sorted in natural order, so `frame_2` precedes `frame_10` whether or not the numbering
/// is padded. This order is the focus order: registration chains outward from the middle
/// frame on the assumption that adjacent files are adjacent focus positions, and a stack
/// in the wrong order does not fail, it aligns badly. Names that are numerically equal
/// are ordered by their bytes, so the order does not depend on how a directory happens to
/// be listed.
pub fn discover_stack(name: String, dir: String, entries: &Vec<Entry>) -> (r: Result<Stack, Error>)
    ensures
        match r {
            Ok(stack) => {
                &&& stack.name == name
                &&& stack.dir == dir
                &&& is_stack_of(stack, entries@)
                &&& listed_frames(entries@, entries@.len()).len() > 0
            },
            Err(e) => listed_frames(entries@, entries@.len()).len() == 0 && e == (Error::NoFrames {
                dir,
            }),
        },
{
    let mut frames: Vec<String> = Vec::new();
    let mut i: usize = 0;
    proof {
        assert(name_bytes(frames@) =~= seq![]);
    }
    while i < entries.len()
        invariant
            i <= entries@.len(),
            in_order(name_bytes(frames@)),
            name_bytes(frames@).to_multiset() == listed_frames(entries@, i as nat).to_multiset(),
        decreases entries@.len() - i,
    {
        let ghost listed = listed_frames(entries@, i as nat);
        match &entries[i].name {
            Some(name) => {
                if is_frame(Some(name.as_str()), entries[i].is_file) {
                    proof {
                        to_multiset_build(listed, encode_utf8(name@));
                    }
                    put_in_order(&mut frames, name.clone());
                }
            },
            None => {},
        }
        i += 1;
    }
    proof {
        to_multiset_len(name_bytes(frames@));
        to_multiset_len(listed_frames(entries@, entries@.len()));
    }
    if frames.len() == 0 {
        return Err(Error::NoFrames { dir });
    }
    Ok(Stack { name, dir, frames })
}

/// Names in order are determined by which names they are.
proof fn lemma_order_is_unique(a: Seq<Seq<u8>>, b: Seq<Seq<u8>>)
    requires
        in_order(a),
        in_order(b),
        a.to_multiset() == b.to_multiset(),
    ensures
        a == b,
    decreases a.len(),
{
    to_multiset_len(a);
    to_multiset_len(b);
    if a.len() == 0 {
        assert(a =~= b);
    } else {
        let (x, y) = (a[0], b[0]);
        to_multiset_contains(a, x);
        to_multiset_contains(b, x);
        to_multiset_contains(a, y);
        to_multiset_contains(b, y);
        assert(a.contains(x) && b.contains(y));
        let i = choose|i: int| 0 <= i < b.len() && b[i] == x;
        let j = choose|j: int| 0 <= j < a.len() && a[j] == y;
        lemma_names_are_totally_ordered(x, y, x);
        lemma_names_are_totally_ordered(y, x, y);
        if i > 0 {
            assert(name_sign(b[0], b[i]) <= 0);
        }
        if j > 0 {
            assert(name_sign(a[0], a[j]) <= 0);
        }
        assert(x == y);
        to_multiset_remove(a, 0);
        to_multiset_remove(b, 0);
        let (p, q) = (a.remove(0), b.remove(0));
        assert forall|i: int, j: int| 0 <= i < j < p.len() implies name_sign(
            #[trigger] p[i],
            #[trigger] p[j],
        ) <= 0 by {
            assert(name_sign(a[i + 1], a[j + 1]) <= 0);
        }
        assert forall|i: int, j: int| 0 <= i < j < q.len() implies name_sign(
            #[trigger] q[i],
            #[trigger] q[j],
        ) <= 0 by {
            assert(name_sign(b[i + 1], b[j + 1]) <= 0);
        }
        lemma_order_is_unique(p, q);
        assert(a =~= seq![x] + p);
        assert(b =~= seq![y] + q);
    }
}

/// Repeated discovery agrees: two listings of the same frames, in whatever order, give
/// stacks in the same order.
pub proof fn lemma_listing_order_does_not_matter(
    one: Seq<Entry>,
    other: Seq<Entry>,
    a: Stack,
    b: Stack,
)
    requires
        listed_frames(one, one.len()).to_multiset() == listed_frames(
            other,
            other.len(),
        ).to_multiset(),
        is_stack_of(a, one),
        is_stack_of(b, other),
    ensures
        name_bytes(a.frames@) == name_bytes(b.frames@),
{
    lemma_order_is_unique(name_bytes(a.frames@), name_bytes(b.frames@));
}

/// A directory under a test set's root.
#[derive(Debug, PartialEq, Eq)]
pub struct Listing {
    pub name: String,
    pub dir: String,
    /// What the directory holds, or nothing if it could not be listed.
    pub entries: Option<Vec<Entry>>,
}

/// Does a directory hold a stack? One without frames does not, and is skipped.
pub open spec fn is_stack(l: Listing) -> bool {
    match l.entries {
        Some(entries) => listed_frames(entries@, entries@.len()).len() > 0,
        None => false,
    }
}

/// The directories that hold a stack, among the first `n`.
pub open spec fn stack_dirs(listings: Seq<Listing>, n: nat) -> Seq<Listing>
    decreases n,
{
    if n == 0 {
        seq![]
    } else {
        let before = stack_dirs(listings, (n - 1) as nat);
        if is_stack(listings[n - 1]) {
            before.push(listings[n - 1])
        } else {
            before
        }
    }
}

/// Is this the stack that a directory holds?
pub open spec fn stack_of(s: Stack, l: Listing) -> bool {
    match l.entries {
        Some(entries) => {
            &&& s.name == l.name
            &&& s.dir == l.dir
            &&& is_stack_of(s, entries@)
        },
        None => false,
    }
}

/// Are these directories the given ones, in order?
pub open spec fn sorted_from(sorted: Seq<Listing>, listings: Seq<Listing>) -> bool {
    listings_in_order(sorted) && sorted.to_multiset() == listings.to_multiset()
}

/// Directories in the order of the bytes of their names.
pub open spec fn listings_in_order(l: Seq<Listing>) -> bool {
    forall|i: int, j: int|
        0 <= i < j < l.len() ==> bytes_sign(
            encode_utf8((#[trigger] l[i]).name@),
            encode_utf8((#[trigger] l[j]).name@),
        ) <= 0
}

/// Collect the stack of every directory under a root, sorted by name.
///
/// A directory with no frames is not a stack; it is skipped rather than failing the run.
pub fn discover_test_set(root: String, listings: Vec<Listing>) -> (r: Result<Vec<Stack>, Error>)
    ensures
        exists|sorted: Seq<Listing>| #[trigger]
            sorted_from(sorted, listings@) && {
                let dirs = stack_dirs(sorted, sorted.len());
                match r {
                    Ok(stacks) => {
                        &&& stacks@.len() == dirs.len() > 0
                        &&& forall|k: int|
                            0 <= k < stacks@.len() ==> stack_of(#[trigger] stacks@[k], dirs[k])
                    },
                    Err(e) => dirs.len() == 0 && e == (Error::NoStacks { root }),
                }
            },
{
    let mut left = sort_listings(listings);
    let ghost all = left@;
    let mut stacks: Vec<Stack> = Vec::new();
    let n = left.len();
    let mut i: usize = 0;
    assert(sorted_from(all, listings@));
    assert(all.skip(0) =~= all);
    while i < n
        invariant
            i <= n,
            n == all.len(),
            left@ == all.skip(i as int),
            stacks@.len() == stack_dirs(all, i as nat).len(),
            forall|k: int|
                0 <= k < stacks@.len() ==> stack_of(
                    #[trigger] stacks@[k],
                    stack_dirs(all, i as nat)[k],
                ),
        decreases n - i,
    {
        let here = left.remove(0);
        assert(here == all[i as int]);
        assert(left@ =~= all.skip(i + 1));
        match here.entries {
            Some(entries) => {
                match discover_stack(here.name, here.dir, &entries) {
                    Ok(stack) => {
                        assert(is_stack(all[i as int]));
                        assert(stack_of(stack, all[i as int]));
                        stacks.push(stack);
                    },
                    Err(_) => {},
                }
            },
            None => {},
        }
        i += 1;
    }
    if stacks.len() == 0 {
        return Err(Error::NoStacks { root });
    }
    Ok(stacks)
}

/// Sorts directories by the bytes of their names.
fn sort_listings(listings: Vec<Listing>) -> (out: Vec<Listing>)
    ensures
        listings_in_order(out@),
        out@.to_multiset() == listings@.to_multiset(),
{
    let ghost all = listings@;
    let mut left = listings;
    let n = left.len();
    let mut out: Vec<Listing> = Vec::new();
    let mut i: usize = 0;
    assert(all.take(0) =~= seq![]);
    assert(all.skip(0) =~= all);
    while i < n
        invariant
            i <= n,
            n == all.len(),
            left@ == all.skip(i as int),
            listings_in_order(out@),
            out@.to_multiset() == all.take(i as int).to_multiset(),
        decreases n - i,
    {
        let here = left.remove(0);
        proof {
            assert(here == all[i as int]);
            assert(left@ =~= all.skip(i + 1));
            assert(all.take(i + 1) =~= all.take(i as int).push(here));
            to_multiset_build(all.take(i as int), here);
        }
        put_listing(&mut out, here);
        i += 1;
    }
    assert(all.take(n as int) =~= all);
    out
}

/// Does one name stand after another by its bytes?
fn sorts_after(a: &String, b: &String) -> (r: bool)
    ensures
        r == (bytes_sign(encode_utf8(a@), encode_utf8(b@)) > 0),
{
    match bytes_place(a.as_str().as_bytes(), b.as_str().as_bytes()) {
        Place::After => true,
        _ => false,
    }
}

/// Puts a directory into a list that is in order.
fn put_listing(out: &mut Vec<Listing>, here: Listing)
    requires
        listings_in_order(old(out)@),
    ensures
        listings_in_order(final(out)@),
        final(out)@.to_multiset() == old(out)@.to_multiset().insert(here),
{
    let ghost before = out@;
    let ghost bytes = encode_utf8(here.name@);
    let mut k: usize = out.len();
    while k > 0 && sorts_after(&out[k - 1].name, &here.name)
        invariant
            k <= out@.len(),
            before == out@,
            bytes == encode_utf8(here.name@),
            forall|i: int|
                k <= i < before.len() ==> bytes_sign(
                    encode_utf8((#[trigger] before[i]).name@),
                    bytes,
                ) > 0,
        decreases k,
    {
        k -= 1;
    }
    out.insert(k, here);
    proof {
        let after = out@;
        assert(after =~= before.insert(k as int, here));
        to_multiset_insert(before, k as int, here);
        assert forall|i: int, j: int| 0 <= i < j < after.len() implies bytes_sign(
            encode_utf8((#[trigger] after[i]).name@),
            encode_utf8((#[trigger] after[j]).name@),
        ) <= 0 by {
            if i < k && j == k {
                if i < k - 1 {
                    let (p, q) = (
                        encode_utf8(before[i].name@),
                        encode_utf8(before[k - 1].name@),
                    );
                    assert(bytes_sign(p, q) <= 0);
                    crate::natural::lemma_bytes_chain(p, q, bytes);
                }
            } else if i == k {
                assert(after[j] == before[j - 1]);
                crate::natural::lemma_bytes_flip(bytes, encode_utf8(before[j - 1].name@));
            } else {
                let (p, q) = (
                    if i < k {
                        i
                    } else {
                        i - 1
                    },
                    if j < k {
                        j
                    } else {
                        j - 1
                    },
                );
                assert(after[i] == before[p] && after[j] == before[q]);
            }
        }
    }
}

/// Per-frame geometry, and the geometry they all share.
#[derive(Debug, PartialEq, Eq)]
pub struct StackProbe {
    pub frames: Vec<(String, FrameInfo)>,
    pub info: FrameInfo,
}

/// The first frame whose geometry is not the first one's, if there is one.
pub open spec fn first_mismatch(frames: Seq<(String, FrameInfo)>, k: int) -> bool {
    &&& 0 < k < frames.len()
    &&& frames[k].1 != frames[0].1
    &&& forall|i: int| 0 <= i < k ==> (#[trigger] frames[i]).1 == frames[0].1
}

/// Checks that a stack's frames agree on geometry. The error names the odd frame and the
/// one it was held against.
pub fn probe(frames: Vec<(String, FrameInfo)>) -> (r: Result<StackProbe, Error>)
    requires
        frames@.len() > 0,
    ensures
        match r {
            Ok(probe) => {
                &&& probe.frames == frames
                &&& probe.info == frames@[0].1
                &&& forall|i: int| 0 <= i < frames@.len() ==> (#[trigger] frames@[i]).1
                    == frames@[0].1
            },
            Err(e) => exists|k: int| #[trigger]
                first_mismatch(frames@, k) && is_mismatch_of(e, frames@[k], frames@[0]),
        },
{
    let info = frames[0].1;
    let mut k: usize = 1;
    while k < frames.len()
        invariant
            1 <= k <= frames@.len(),
            info == frames@[0].1,
            forall|i: int| 0 <= i < k ==> (#[trigger] frames@[i]).1 == info,
        decreases frames@.len() - k,
    {
        let other = frames[k].1;
        if other != info {
            let e = Error::Geometry {
                path: frames[k].0.clone(),
                width: other.width,
                height: other.height,
                bits: other.bits_per_sample,
                reference: frames[0].0.clone(),
                ref_width: info.width,
                ref_height: info.height,
                ref_bits: info.bits_per_sample,
            };
            assert(first_mismatch(frames@, k as int));
            return Err(e);
        }
        k += 1;
    }
    Ok(StackProbe { frames, info })
}

/// The error that names a frame and the one it does not match.
pub open spec fn is_mismatch_of(
    e: Error,
    odd: (String, FrameInfo),
    first: (String, FrameInfo),
) -> bool {
    match e {
        Error::Geometry {
            path,
            width,
            height,
            bits,
            reference,
            ref_width,
            ref_height,
            ref_bits,
        } => {
            &&& path@ == odd.0@
            &&& width == odd.1.width
            &&& height == odd.1.height
            &&& bits == odd.1.bits_per_sample
            &&& reference@ == first.0@
            &&& ref_width == first.1.width
            &&& ref_height == first.1.height
            &&& ref_bits == first.1.bits_per_sample
        },
        _ => false,
    }
}

/// Refuse to write a fused result into the directory it was stacked from.
///
/// A fused frame has the same geometry and bit depth as its sources, so nothing
/// downstream could tell it apart. The two directories are given as canonical paths, so
/// that a roundabout path is caught too; one that cannot be made canonical does not exist
/// yet, and so is not the stack's.
pub fn ensure_output_outside_stack(
    output: String,
    stack_dir: String,
    parent: Option<&[u8]>,
    dir: Option<&[u8]>,
) -> (r: Result<(), Error>)
    ensures
        r == (match (parent, dir) {
            (Some(parent), Some(dir)) => if parent@ == dir@ {
                Err(Error::OutputInsideStack { output, dir: stack_dir })
            } else {
                Ok(())
            },
            _ => Ok(()),
        }),
{
    match (parent, dir) {
        (Some(parent), Some(canonical)) => if same_bytes(parent, canonical) {
            Err(Error::OutputInsideStack { output, dir: stack_dir })
        } else {
            Ok(())
        },
        _ => Ok(()),
    }
}

} // verus!
