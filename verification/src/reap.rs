//! Telling which temporary files belong to runs that are no longer running.
//!
//! A pid is exact where a file's age is not: if the process that created an entry is
//! gone, nothing is using it. The failure mode is the safe one: an entry that cannot be
//! attributed is kept.

use vstd::prelude::*;
use vstd::string::StringSliceAdditionalSpecFns;

verus! {

/// What a sweep removed.
#[derive(Debug, Clone, Copy, PartialEq, Eq, Structural)]
pub struct Reaped {
    pub entries: usize,
    pub bytes: u64,
}

impl Reaped {
    /// A sweep that has removed nothing yet.
    pub fn nothing() -> (r: Self)
        ensures
            r == (Reaped { entries: 0, bytes: 0 }),
    {
        Reaped { entries: 0, bytes: 0 }
    }

    /// Counts an entry of `size` bytes if it could be removed. Counts stop at the ends of
    /// their ranges.
    pub fn record(&mut self, removed: bool, size: u64)
        ensures
            *final(self) == (if removed {
                Reaped {
                    entries: crate::image::smaller(old(self).entries + 1, usize::MAX as int) as usize,
                    bytes: crate::image::smaller(old(self).bytes + size, u64::MAX as int) as u64,
                }
            } else {
                *old(self)
            }),
    {
        if removed {
            self.entries = self.entries.saturating_add(1);
            self.bytes = self.bytes.saturating_add(size);
        }
    }
}

/// What is left when `affix` is taken off the front.
pub open spec fn after_prefix(s: Seq<u8>, affix: Seq<u8>) -> Option<Seq<u8>> {
    if affix.len() <= s.len() && s.take(affix.len() as int) == affix {
        Some(s.skip(affix.len() as int))
    } else {
        None
    }
}

/// The string without `affix` at its end, where it has it there.
pub open spec fn without_suffix(s: Seq<u8>, affix: Seq<u8>) -> Seq<u8> {
    if affix.len() <= s.len() && s.skip(s.len() - affix.len()) == affix {
        s.take(s.len() - affix.len())
    } else {
        s
    }
}

/// Everything before the first hyphen.
pub open spec fn first_field(s: Seq<u8>) -> Seq<u8>
    decreases s.len(),
{
    if s.len() == 0 || s[0] == 0x2d {
        seq![]
    } else {
        seq![s[0]] + first_field(s.drop_first())
    }
}

/// Everything after the last hyphen.
pub open spec fn last_field(s: Seq<u8>) -> Seq<u8>
    decreases s.len(),
{
    if s.len() == 0 || s.last() == 0x2d {
        seq![]
    } else {
        last_field(s.drop_last()).push(s.last())
    }
}

/// The number a field writes: decimal digits, with at most one plus sign before them.
pub open spec fn written_number(s: Seq<u8>) -> Option<u32> {
    let digits = if s.len() > 0 && s[0] == 0x2b {
        s.drop_first()
    } else {
        s
    };
    if digits.len() > 0 && crate::natural::all_digits(digits) && crate::natural::number(digits)
        <= u32::MAX {
        Some(crate::natural::number(digits) as u32)
    } else {
        None
    }
}

/// The field of a name that holds the pid, if the name is one of ours.
///
/// Two shapes are in use: `stackaroni-run-<pid>-<sequence>`, with the pid second, and
/// `stackaroni-<stack>-<pid>`, with the pid last behind a stack name that may itself
/// hold hyphens.
pub open spec fn pid_field(name: Seq<u8>) -> Option<Seq<u8>> {
    match after_prefix(without_suffix(name, ".tif".spec_bytes()), "stackaroni-".spec_bytes()) {
        None => None,
        Some(rest) => match after_prefix(rest, "run-".spec_bytes()) {
            Some(tail) => Some(first_field(tail)),
            None => Some(last_field(rest)),
        },
    }
}

/// The pid in a name, where it can be one: neither zero nor beyond `i32`, which address
/// groups of processes rather than one.
pub open spec fn owner(name: Seq<u8>) -> Option<u32> {
    match pid_field(name) {
        None => None,
        Some(field) => match written_number(field) {
            Some(pid) => if 0 < pid <= i32::MAX {
                Some(pid)
            } else {
                None
            },
            None => None,
        },
    }
}

fn strip_prefix<'a>(s: &'a [u8], affix: &[u8]) -> (r: Option<&'a [u8]>)
    ensures
        match r {
            Some(rest) => after_prefix(s@, affix@) == Some(rest@),
            None => after_prefix(s@, affix@) is None,
        },
{
    if affix.len() <= s.len() {
        let (head, rest) = s.split_at(affix.len());
        if crate::text::same_bytes(head, affix) {
            return Some(rest);
        }
    }
    None
}

fn strip_suffix<'a>(s: &'a [u8], affix: &[u8]) -> (r: &'a [u8])
    ensures
        r@ == without_suffix(s@, affix@),
{
    if affix.len() <= s.len() {
        let (head, rest) = s.split_at(s.len() - affix.len());
        if crate::text::same_bytes(rest, affix) {
            return head;
        }
    }
    s
}

fn before_first_hyphen(s: &[u8]) -> (r: &[u8])
    ensures
        r@ == first_field(s@),
{
    let mut i: usize = 0;
    assert(s@.skip(0) =~= s@);
    assert(s@.take(0) + first_field(s@.skip(0)) =~= first_field(s@));
    while i < s.len() && s[i] != 0x2d
        invariant
            i <= s@.len(),
            s@.take(i as int) + first_field(s@.skip(i as int)) == first_field(s@),
        decreases s@.len() - i,
    {
        proof {
            assert(s@.skip(i as int).drop_first() =~= s@.skip(i + 1));
            assert(s@.take(i + 1) =~= s@.take(i as int).push(s@[i as int]));
            assert(s@.take(i as int) + first_field(s@.skip(i as int)) =~= s@.take(i + 1)
                + first_field(s@.skip(i + 1)));
        }
        i += 1;
    }
    let (head, _) = s.split_at(i);
    assert(first_field(s@.skip(i as int)) =~= seq![]);
    assert(head@ =~= first_field(s@));
    head
}

fn after_last_hyphen(s: &[u8]) -> (r: &[u8])
    ensures
        r@ == last_field(s@),
{
    let mut i: usize = s.len();
    assert(s@.take(s@.len() as int) =~= s@);
    assert(last_field(s@.take(s@.len() as int)) + s@.skip(s@.len() as int) =~= last_field(s@));
    while i > 0 && s[i - 1] != 0x2d
        invariant
            i <= s@.len(),
            last_field(s@.take(i as int)) + s@.skip(i as int) == last_field(s@),
        decreases i,
    {
        proof {
            assert(s@.take(i as int).drop_last() =~= s@.take(i - 1));
            assert(s@.take(i as int).last() == s@[i - 1]);
            assert(last_field(s@.take(i as int)) + s@.skip(i as int) =~= last_field(s@.take(i - 1))
                + s@.skip(i - 1));
        }
        i -= 1;
    }
    let (_, tail) = s.split_at(i);
    proof {
        if i > 0 {
            assert(s@.take(i as int).last() == s@[i - 1]);
        }
        assert(last_field(s@.take(i as int)) =~= seq![]);
        assert(tail@ =~= last_field(s@));
    }
    tail
}

/// Every shorter run of the same digits writes a number that is no larger.
proof fn lemma_number_grows(s: Seq<u8>, k: int)
    requires
        crate::natural::all_digits(s),
        0 <= k <= s.len(),
    ensures
        crate::natural::number(s.take(k)) <= crate::natural::number(s),
    decreases s.len() - k,
{
    if k < s.len() {
        lemma_number_grows(s, k + 1);
        assert(s.take(k + 1).drop_last() =~= s.take(k));
        assert(s.take(k + 1).last() == s[k]);
        assert(crate::natural::is_digit(s[k]));
    } else {
        assert(s.take(k) =~= s);
    }
}

fn parse_u32(s: &[u8]) -> (r: Option<u32>)
    ensures
        r == written_number(s@),
{
    let from: usize = if s.len() > 0 && s[0] == 0x2b {
        1
    } else {
        0
    };
    let ghost digits = s@.skip(from as int);
    proof {
        if from == 0 {
            assert(digits =~= s@);
        } else {
            assert(digits =~= s@.drop_first());
        }
    }
    if from == s.len() {
        return None;
    }
    let mut i: usize = from;
    let mut value: u64 = 0;
    assert(digits.take(0) =~= Seq::<u8>::empty());
    while i < s.len()
        invariant
            from <= i <= s@.len(),
            from <= 1,
            digits == s@.skip(from as int),
            crate::natural::all_digits(digits.take(i - from)),
            value == crate::natural::number(digits.take(i - from)),
            value <= u32::MAX,
            s@.len() > from,
            written_number(s@) == (if crate::natural::all_digits(digits)
                && crate::natural::number(digits) <= u32::MAX {
                Some(crate::natural::number(digits) as u32)
            } else {
                None
            }),
        decreases s@.len() - i,
    {
        let b = s[i];
        if b < 0x30 || b > 0x39 {
            proof {
                assert(digits[i - from] == b);
                assert(!crate::natural::all_digits(digits));
            }
            return None;
        }
        proof {
            let t = digits.take(i - from + 1);
            assert(t.drop_last() =~= digits.take(i - from));
            assert(t.last() == b);
            assert forall|k: int| 0 <= k < t.len() implies crate::natural::is_digit(
                #[trigger] t[k],
            ) by {
                if k < i - from {
                    assert(t[k] == digits.take(i - from)[k]);
                }
            }
        }
        value = value * 10 + (b - 0x30) as u64;
        if value > 0xffff_ffff {
            proof {
                if crate::natural::all_digits(digits) {
                    lemma_number_grows(digits, i - from + 1);
                }
            }
            return None;
        }
        i += 1;
    }
    assert(digits.take(i - from) =~= digits);
    Some(value as u32)
}

/// The pid encoded in a temporary entry's name, if it is one of ours.
pub fn owner_pid(name: &str) -> (r: Option<u32>)
    ensures
        r == owner(name.spec_bytes()),
{
    let stem = strip_suffix(name.as_bytes(), ".tif".as_bytes());
    let rest = match strip_prefix(stem, "stackaroni-".as_bytes()) {
        Some(rest) => rest,
        None => {
            return None;
        },
    };
    let field = match strip_prefix(rest, "run-".as_bytes()) {
        Some(tail) => before_first_hyphen(tail),
        None => after_last_hyphen(rest),
    };
    match parse_u32(field) {
        Some(pid) => if pid > 0 && pid <= 0x7fff_ffff {
            Some(pid)
        } else {
            None
        },
        None => None,
    }
}

/// Is an entry left by a process that has exited? Anything that cannot be attributed to a
/// process is not, and `alive` is asked of no process but the owner.
pub fn abandoned<A: Fn(u32) -> bool>(name: &str, alive: A) -> (r: bool)
    requires
        forall|pid: u32| 1 <= pid <= i32::MAX ==> #[trigger] call_requires(alive, (pid,)),
    ensures
        match owner(name.spec_bytes()) {
            Some(pid) => call_ensures(alive, (pid,), !r),
            None => !r,
        },
{
    match owner_pid(name) {
        Some(pid) => !alive(pid),
        None => false,
    }
}

/// A name is never attributed to a process group or to every process: what comes back
/// is always a single process's id.
pub proof fn lemma_owner_is_one_process(name: Seq<u8>)
    ensures
        match owner(name) {
            Some(pid) => 1 <= pid <= i32::MAX,
            None => true,
        },
{
}

} // verus!
