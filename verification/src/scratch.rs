//! Where a run keeps its working files: how they are named, how much room they need, and
//! what is removed when the run ends.

use vstd::prelude::*;
use vstd::string::StringSliceAdditionalSpecFns;
use vstd::utf8::{encode_utf8, is_ascii_chars, is_ascii_chars_encode_utf8};
use crate::image::{smaller, FrameInfo};
use crate::natural::{all_digits, is_digit, number};
use crate::reap::{after_prefix, first_field, last_field, owner, without_suffix, written_number};

verus! {

/// A decimal digit.
pub open spec fn digit_of(d: int) -> char {
    if d == 0 {
        '0'
    } else if d == 1 {
        '1'
    } else if d == 2 {
        '2'
    } else if d == 3 {
        '3'
    } else if d == 4 {
        '4'
    } else if d == 5 {
        '5'
    } else if d == 6 {
        '6'
    } else if d == 7 {
        '7'
    } else if d == 8 {
        '8'
    } else {
        '9'
    }
}

/// A number written in decimal digits, without leading zeros.
pub open spec fn decimal_of(n: nat) -> Seq<char>
    decreases n,
{
    if n < 10 {
        seq![digit_of(n as int)]
    } else {
        decimal_of(n / 10).push(digit_of((n % 10) as int))
    }
}

fn digit(d: u64) -> (r: &'static str)
    requires
        d < 10,
    ensures
        r@ == seq![digit_of(d as int)],
{
    proof {
        reveal_strlit("0");
        reveal_strlit("1");
        reveal_strlit("2");
        reveal_strlit("3");
        reveal_strlit("4");
        reveal_strlit("5");
        reveal_strlit("6");
        reveal_strlit("7");
        reveal_strlit("8");
        reveal_strlit("9");
    }
    if d == 0 {
        "0"
    } else if d == 1 {
        "1"
    } else if d == 2 {
        "2"
    } else if d == 3 {
        "3"
    } else if d == 4 {
        "4"
    } else if d == 5 {
        "5"
    } else if d == 6 {
        "6"
    } else if d == 7 {
        "7"
    } else if d == 8 {
        "8"
    } else {
        "9"
    }
}

/// A number in decimal digits.
pub fn decimal(n: u64) -> (r: String)
    ensures
        r@ == decimal_of(n as nat),
    decreases n,
{
    if n < 10 {
        digit(n).to_owned()
    } else {
        let mut head = decimal(n / 10);
        head.append(digit(n % 10));
        assert(head@ =~= decimal_of(n as nat));
        head
    }
}

/// Two digits, with a leading zero where it takes one.
pub open spec fn two_digits_of(n: int) -> Seq<char> {
    seq![digit_of(n / 10), digit_of(n % 10)]
}

fn two_digits(n: u64) -> (r: String)
    requires
        n < 100,
    ensures
        r@ == two_digits_of(n as int),
{
    let mut r = digit(n / 10).to_owned();
    r.append(digit(n % 10));
    assert(r@ =~= two_digits_of(n as int));
    r
}

/// `m:ss`, or `h:mm:ss` once a run is long enough to need it.
pub fn clock(seconds: u64) -> (r: String)
    ensures
        r@ == (if seconds >= 3600 {
            decimal_of((seconds / 3600) as nat) + ":"@ + two_digits_of(
                (seconds % 3600 / 60) as int,
            ) + ":"@ + two_digits_of((seconds % 60) as int)
        } else {
            decimal_of((seconds / 60) as nat) + ":"@ + two_digits_of((seconds % 60) as int)
        }),
{
    if seconds >= 3600 {
        let mut r = decimal(seconds / 3600);
        r.append(":");
        r.append(two_digits(seconds % 3600 / 60).as_str());
        r.append(":");
        r.append(two_digits(seconds % 60).as_str());
        r
    } else {
        let mut r = decimal(seconds / 60);
        r.append(":");
        r.append(two_digits(seconds % 60).as_str());
        r
    }
}

/// What a run's scratch directory is called: unique for each run of a process.
pub open spec fn run_name_of(pid: u32, sequence: u64) -> Seq<char> {
    "stackaroni-run-"@ + decimal_of(pid as nat) + "-"@ + decimal_of(sequence as nat)
}

/// What a headless run's scratch directory is called.
pub open spec fn stack_name_of(stack: Seq<char>, pid: u32) -> Seq<char> {
    "stackaroni-"@ + stack + "-"@ + decimal_of(pid as nat)
}

/// The name of a run's scratch directory.
pub fn run_name(pid: u32, sequence: u64) -> (r: String)
    ensures
        r@ == run_name_of(pid, sequence),
{
    let mut r = "stackaroni-run-".to_owned();
    r.append(decimal(pid as u64).as_str());
    r.append("-");
    r.append(decimal(sequence).as_str());
    r
}

/// The name of a run's result, which stands outside its scratch directory because that
/// is deleted first.
pub fn run_output_name(pid: u32, sequence: u64) -> (r: String)
    ensures
        r@ == run_name_of(pid, sequence) + ".tif"@,
{
    let mut r = run_name(pid, sequence);
    r.append(".tif");
    r
}

/// The name of a headless run's scratch directory.
pub fn stack_name(stack: &str, pid: u32) -> (r: String)
    ensures
        r@ == stack_name_of(stack@, pid),
{
    let mut r = "stackaroni-".to_owned();
    r.append(stack);
    r.append("-");
    r.append(decimal(pid as u64).as_str());
    r
}

/// The bytes that one focus map and one weight plane for each frame take.
pub open spec fn needed_of(frames: int, info: FrameInfo) -> int {
    2 * frames * info.width * info.height * 4
}

/// Room that a run needs for one focus map and one weight plane for each frame, both at
/// full resolution and four bytes a sample. Stops at the end of its range.
pub fn needed(frames: usize, info: FrameInfo) -> (r: u64)
    ensures
        r == smaller(needed_of(frames as int, info), u64::MAX as int),
{
    let (w, h) = (info.width as u128, info.height as u128);
    proof {
        assert(0 <= w * h <= 0xffff_ffff * 0xffff_ffff) by (nonlinear_arith)
            requires
                0 <= w <= 0xffff_ffff,
                0 <= h <= 0xffff_ffff,
        ;
        let (f, p) = (frames as int, (w * h) as int);
        assert(needed_of(f, info) == 8 * (f * p)) by (nonlinear_arith)
            requires
                p == info.width * info.height,
                needed_of(f, info) == 2 * f * info.width * info.height * 4,
        ;
        if f == 0 {
            assert(f * p == 0) by (nonlinear_arith)
                requires
                    f == 0,
            ;
        } else {
            assert(f * p >= p) by (nonlinear_arith)
                requires
                    f >= 1,
                    p >= 0,
            ;
            assert(f * p >= 0) by (nonlinear_arith)
                requires
                    f >= 1,
                    p >= 0,
            ;
        }
    }
    let pixels = w * h;
    if frames == 0 || pixels == 0 {
        proof {
            assert(frames * pixels == 0) by (nonlinear_arith)
                requires
                    frames == 0 || pixels == 0,
            ;
        }
        return 0;
    }
    if pixels > 0x1fff_ffff_ffff_ffff {
        return u64::MAX;
    }
    proof {
        assert(frames * pixels <= 0xffff_ffff_ffff_ffff * 0x1fff_ffff_ffff_ffff) by (nonlinear_arith)
            requires
                0 <= frames <= 0xffff_ffff_ffff_ffff,
                0 <= pixels <= 0x1fff_ffff_ffff_ffff,
        ;
    }
    let all = frames as u128 * pixels;
    if all > 0x1fff_ffff_ffff_ffff {
        u64::MAX
    } else {
        all as u64 * 8
    }
}

/// Checks, before a run starts, that its working files will fit. Finding out an hour in
/// is what this is for. Comes back with what is needed where there is not the room.
pub fn check_room(frames: usize, info: FrameInfo, available: u64) -> (r: Result<(), u64>)
    ensures
        r == (if available < smaller(needed_of(frames as int, info), u64::MAX as int) {
            Err(smaller(needed_of(frames as int, info), u64::MAX as int) as u64)
        } else {
            Ok(())
        }),
{
    let n = needed(frames, info);
    if available < n {
        Err(n)
    } else {
        Ok(())
    }
}

/// How a run ended.
#[derive(Debug, Clone, Copy, PartialEq, Eq, Structural)]
pub enum Ending {
    Done,
    Cancelled,
    Failed,
}

/// What to remove when a run has ended.
#[derive(Debug, Clone, Copy, PartialEq, Eq, Structural)]
pub struct Cleanup {
    pub scratch: bool,
    pub output: bool,
}

/// What a run leaves behind.
///
/// A failed run's scratch is worth keeping to inspect. A cancelled one is not: it is a
/// deliberate stop with nothing to look into, and it leaves no output either.
pub fn cleanup(ending: Ending) -> (r: Cleanup)
    ensures
        r.scratch == !(ending is Failed),
        r.output == (ending is Cancelled),
{
    match ending {
        Ending::Done => Cleanup { scratch: true, output: false },
        Ending::Cancelled => Cleanup { scratch: true, output: true },
        Ending::Failed => Cleanup { scratch: false, output: false },
    }
}

/// The bytes of text that is put together are the bytes of its parts.
proof fn lemma_encode_parts(a: Seq<char>, b: Seq<char>)
    ensures
        encode_utf8(a + b) == encode_utf8(a) + encode_utf8(b),
    decreases a.len(),
{
    if a.len() == 0 {
        assert(a + b =~= b);
        assert(encode_utf8(a) + encode_utf8(b) =~= encode_utf8(b));
    } else {
        assert((a + b).drop_first() =~= a.drop_first() + b);
        lemma_encode_parts(a.drop_first(), b);
        assert(encode_utf8(a + b) =~= encode_utf8(a) + encode_utf8(b));
    }
}

/// What the digits of a number write is the number.
proof fn lemma_decimal(n: nat)
    ensures
        decimal_of(n).len() > 0,
        encode_utf8(decimal_of(n)).len() > 0,
        all_digits(encode_utf8(decimal_of(n))),
        number(encode_utf8(decimal_of(n))) == n,
    decreases n,
{
    let last = seq![digit_of((n % 10) as int)];
    assert(is_ascii_chars(last));
    is_ascii_chars_encode_utf8(last);
    let b = encode_utf8(last);
    assert(b.len() == 1 && b[0] == last[0] as u8);
    assert(b[0] == 0x30 + n % 10);
    if n < 10 {
        assert(decimal_of(n) =~= last);
        assert(b.drop_last() =~= seq![]);
        assert(number(b.drop_last()) == 0);
    } else {
        lemma_decimal(n / 10);
        let head = decimal_of(n / 10);
        assert(decimal_of(n) =~= head + last);
        lemma_encode_parts(head, last);
        let all = encode_utf8(head) + b;
        assert(all.drop_last() =~= encode_utf8(head));
        assert(all.last() == b[0]);
        assert forall|k: int| 0 <= k < all.len() implies is_digit(#[trigger] all[k]) by {
            if k < encode_utf8(head).len() {
                assert(all[k] == encode_utf8(head)[k]);
            }
        }
    }
}

/// A field of digits reads up to the hyphen that follows it.
proof fn lemma_first_field(digits: Seq<u8>, rest: Seq<u8>)
    requires
        all_digits(digits),
        rest.len() == 0 || rest[0] == 0x2d,
    ensures
        first_field(digits + rest) == digits,
    decreases digits.len(),
{
    if digits.len() == 0 {
        assert(digits + rest =~= rest);
    } else {
        let all = digits + rest;
        assert(is_digit(digits[0]));
        assert(all.drop_first() =~= digits.drop_first() + rest);
        lemma_first_field(digits.drop_first(), rest);
        assert(first_field(all) =~= digits);
    }
}

/// A field of digits reads back to the hyphen before it.
proof fn lemma_last_field(head: Seq<u8>, digits: Seq<u8>)
    requires
        all_digits(digits),
        head.len() > 0,
        head.last() == 0x2d,
    ensures
        last_field(head + digits) == digits,
    decreases digits.len(),
{
    let all = head + digits;
    if digits.len() == 0 {
        assert(all =~= head);
        assert(last_field(all) =~= digits);
    } else {
        assert(is_digit(digits.last()));
        assert(all.drop_last() =~= head + digits.drop_last());
        lemma_last_field(head, digits.drop_last());
        assert(last_field(all) =~= digits);
    }
}

/// Text that ends in a digit does not end in `.tif`.
proof fn lemma_no_suffix(s: Seq<u8>)
    requires
        s.len() > 0,
        is_digit(s.last()),
    ensures
        without_suffix(s, ".tif".spec_bytes()) == s,
{
    reveal_strlit(".tif");
    is_ascii_chars_encode_utf8(".tif"@);
    let affix = ".tif".spec_bytes();
    assert(affix.last() == 0x66);
    if affix.len() <= s.len() && s.skip(s.len() - affix.len()) == affix {
        assert(s.skip(s.len() - affix.len()).last() == s.last());
    }
}

/// What stands in front of text comes off it.
proof fn lemma_prefix(affix: Seq<u8>, rest: Seq<u8>)
    ensures
        after_prefix(affix + rest, affix) == Some(rest),
{
    assert((affix + rest).take(affix.len() as int) =~= affix);
    assert((affix + rest).skip(affix.len() as int) =~= rest);
}

/// The three literals that names are made of.
proof fn lemma_literals()
    ensures
        "stackaroni-run-".spec_bytes() == "stackaroni-".spec_bytes() + "run-".spec_bytes(),
        "-".spec_bytes() == seq![0x2du8],
        "run-".spec_bytes() == seq![0x72u8, 0x75, 0x6e, 0x2d],
{
    reveal_strlit("stackaroni-run-");
    reveal_strlit("stackaroni-");
    reveal_strlit("run-");
    reveal_strlit("-");
    assert("stackaroni-run-"@ =~= "stackaroni-"@ + "run-"@);
    lemma_encode_parts("stackaroni-"@, "run-"@);
    is_ascii_chars_encode_utf8("-"@);
    is_ascii_chars_encode_utf8("run-"@);
    assert("-".spec_bytes() =~= seq![0x2du8]);
    assert("run-".spec_bytes() =~= seq![0x72u8, 0x75, 0x6e, 0x2d]);
}

/// The pid that digits write.
proof fn lemma_pid(digits: Seq<u8>, pid: u32)
    requires
        digits.len() > 0,
        all_digits(digits),
        number(digits) == pid,
    ensures
        written_number(digits) == Some(pid),
{
    assert(is_digit(digits[0]));
}

/// A run's scratch and its result are both attributed to the process that made them, so a
/// sweep removes them once that process is gone and never before.
pub proof fn lemma_run_is_its_processes(pid: u32, sequence: u64)
    requires
        0 < pid <= i32::MAX,
    ensures
        owner(encode_utf8(run_name_of(pid, sequence))) == Some(pid),
        owner(encode_utf8(run_name_of(pid, sequence) + ".tif"@)) == Some(pid),
{
    let digits = encode_utf8(decimal_of(pid as nat));
    let tail = encode_utf8(decimal_of(sequence as nat));
    let name = encode_utf8(run_name_of(pid, sequence));
    lemma_literals();
    lemma_decimal(pid as nat);
    lemma_decimal(sequence as nat);
    lemma_encode_parts("stackaroni-run-"@, decimal_of(pid as nat));
    lemma_encode_parts("stackaroni-run-"@ + decimal_of(pid as nat), "-"@);
    lemma_encode_parts(
        "stackaroni-run-"@ + decimal_of(pid as nat) + "-"@,
        decimal_of(sequence as nat),
    );
    let hyphen = seq![0x2du8];
    let last = digits + (hyphen + tail);
    let rest = "run-".spec_bytes() + last;
    assert(name =~= "stackaroni-".spec_bytes() + rest);
    assert(is_digit(tail[tail.len() - 1]));
    assert(name.last() == tail.last());
    lemma_no_suffix(name);
    lemma_prefix("stackaroni-".spec_bytes(), rest);
    lemma_prefix("run-".spec_bytes(), last);
    lemma_first_field(digits, hyphen + tail);
    lemma_pid(digits, pid);

    let affix = ".tif".spec_bytes();
    lemma_encode_parts(run_name_of(pid, sequence), ".tif"@);
    let output = name + affix;
    assert(output.skip(output.len() - affix.len()) =~= affix);
    assert(output.take(output.len() - affix.len()) =~= name);
}

/// A headless run's scratch is attributed to the process that made it, whatever the stack
/// is called, hyphens included. Only a stack whose own name starts with `run-` is not: its
/// scratch reads as another shape of name.
pub proof fn lemma_stack_scratch_is_its_processes(stack: Seq<char>, pid: u32)
    requires
        0 < pid <= i32::MAX,
        after_prefix(encode_utf8(stack), "run-".spec_bytes()) is None,
    ensures
        owner(encode_utf8(stack_name_of(stack, pid))) == Some(pid),
{
    let digits = encode_utf8(decimal_of(pid as nat));
    let name = encode_utf8(stack_name_of(stack, pid));
    let own = encode_utf8(stack);
    let hyphen = seq![0x2du8];
    lemma_literals();
    lemma_decimal(pid as nat);
    lemma_encode_parts("stackaroni-"@, stack);
    lemma_encode_parts("stackaroni-"@ + stack, "-"@);
    lemma_encode_parts("stackaroni-"@ + stack + "-"@, decimal_of(pid as nat));
    let rest = own + hyphen + digits;
    assert(name =~= "stackaroni-".spec_bytes() + rest);
    assert(is_digit(digits[digits.len() - 1]));
    assert(name.last() == digits.last());
    lemma_no_suffix(name);
    lemma_prefix("stackaroni-".spec_bytes(), rest);
    lemma_pid(digits, pid);
    let run = "run-".spec_bytes();
    if after_prefix(rest, run) is Some {
        // Only a stack that is called just `run` gets here.
        assert(rest.take(4) == run);
        if own.len() >= 4 {
            assert(own.take(4) =~= rest.take(4));
            assert(false);
        }
        assert(own.len() == 3) by {
            assert(rest[own.len() as int] == 0x2d);
            assert(rest.take(4)[own.len() as int] == 0x2d);
        }
        assert(rest.skip(4) =~= digits + Seq::<u8>::empty());
        lemma_first_field(digits, Seq::<u8>::empty());
        assert(digits + Seq::<u8>::empty() =~= digits);
    } else {
        lemma_last_field(own + hyphen, digits);
    }
}

} // verus!
