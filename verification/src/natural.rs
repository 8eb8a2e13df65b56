//! Names in the order a person would put them: runs of digits compared as numbers.

use std::cmp::Ordering;
use vstd::prelude::*;
use vstd::string::StringSliceAdditionalSpecFns;

verus! {

pub open spec fn is_digit(b: u8) -> bool {
    0x30 <= b <= 0x39
}

/// What a name is compared by: a number for each run of digits, and every other byte.
pub enum Token {
    Number(nat),
    Byte(u8),
}

/// The number that a run of decimal digits writes.
pub open spec fn number(digits: Seq<u8>) -> nat
    decreases digits.len(),
{
    if digits.len() == 0 {
        0
    } else {
        (number(digits.drop_last()) * 10 + (digits.last() - 0x30)) as nat
    }
}

/// Where the run of digits that starts at `from` ends.
pub open spec fn run_end(s: Seq<u8>, from: int) -> int
    decreases s.len() - from,
{
    if 0 <= from < s.len() && is_digit(s[from]) {
        run_end(s, from + 1)
    } else {
        from
    }
}

/// A run ends no earlier than it starts, and no later than the name.
pub proof fn lemma_run_end(s: Seq<u8>, from: int)
    requires
        0 <= from <= s.len(),
    ensures
        from <= run_end(s, from) <= s.len(),
        forall|k: int| from <= k < run_end(s, from) ==> is_digit(#[trigger] s[k]),
        run_end(s, from) < s.len() ==> !is_digit(s[run_end(s, from)]),
        from < s.len() && is_digit(s[from]) ==> from < run_end(s, from),
    decreases s.len() - from,
{
    if from < s.len() && is_digit(s[from]) {
        lemma_run_end(s, from + 1);
    }
}

/// The tokens of a name, from position `from` on.
pub open spec fn tokens(s: Seq<u8>, from: int) -> Seq<Token>
    decreases s.len() - from,
{
    if !(0 <= from < s.len()) {
        seq![]
    } else if is_digit(s[from]) && from < run_end(s, from) <= s.len() {
        seq![Token::Number(number(s.subrange(from, run_end(s, from))))] + tokens(
            s,
            run_end(s, from),
        )
    } else {
        seq![Token::Byte(s[from])] + tokens(s, from + 1)
    }
}

/// The sign of the comparison of two whole numbers.
pub open spec fn sign(a: int, b: int) -> int {
    if a < b {
        -1
    } else if a > b {
        1
    } else {
        0
    }
}

/// What a token is compared by first: numbers stand where the digits stand among the
/// bytes.
pub open spec fn token_class(t: Token) -> int {
    match t {
        Token::Number(_) => 0x30,
        Token::Byte(b) => b as int,
    }
}

/// What tokens of one class are compared by.
pub open spec fn token_value(t: Token) -> int {
    match t {
        Token::Number(n) => n as int,
        Token::Byte(_) => 0,
    }
}

pub open spec fn token_sign(a: Token, b: Token) -> int {
    if token_class(a) != token_class(b) {
        sign(token_class(a), token_class(b))
    } else {
        sign(token_value(a), token_value(b))
    }
}

/// Token by token; of two names that agree as far as the shorter goes, the shorter is first.
pub open spec fn tokens_sign(a: Seq<Token>, b: Seq<Token>) -> int
    decreases a.len(),
{
    if a.len() == 0 || b.len() == 0 {
        sign(a.len() as int, b.len() as int)
    } else if token_sign(a[0], b[0]) != 0 {
        token_sign(a[0], b[0])
    } else {
        tokens_sign(a.drop_first(), b.drop_first())
    }
}

/// The natural order of two names: negative, zero or positive.
pub open spec fn natural_sign(a: Seq<u8>, b: Seq<u8>) -> int {
    tokens_sign(tokens(a, 0), tokens(b, 0))
}

/// The order of two byte strings: byte by byte, then by length.
pub open spec fn bytes_sign(a: Seq<u8>, b: Seq<u8>) -> int
    decreases a.len(),
{
    if a.len() == 0 || b.len() == 0 {
        sign(a.len() as int, b.len() as int)
    } else if a[0] != b[0] {
        sign(a[0] as int, b[0] as int)
    } else {
        bytes_sign(a.drop_first(), b.drop_first())
    }
}

pub open spec fn pow10(n: nat) -> nat
    decreases n,
{
    if n == 0 {
        1
    } else {
        10 * pow10((n - 1) as nat)
    }
}

pub open spec fn all_digits(s: Seq<u8>) -> bool {
    forall|k: int| 0 <= k < s.len() ==> is_digit(#[trigger] s[k])
}

/// A run of `n` digits writes less than the `n`-th power of ten.
proof fn lemma_number_below(s: Seq<u8>)
    requires
        all_digits(s),
    ensures
        number(s) < pow10(s.len()),
    decreases s.len(),
{
    if s.len() > 0 {
        assert(is_digit(s[s.len() - 1]));
        assert(all_digits(s.drop_last())) by {
            assert forall|k: int| 0 <= k < s.drop_last().len() implies is_digit(
                #[trigger] s.drop_last()[k],
            ) by {
                assert(is_digit(s[k]));
            }
        }
        lemma_number_below(s.drop_last());
    }
}

/// Without a leading zero it writes at least the power of ten below.
proof fn lemma_number_at_least(s: Seq<u8>)
    requires
        all_digits(s),
        s.len() > 0,
        s[0] != 0x30,
    ensures
        number(s) >= pow10((s.len() - 1) as nat),
    decreases s.len(),
{
    assert(is_digit(s[0]));
    if s.len() == 1 {
        assert(s.drop_last() =~= Seq::<u8>::empty());
        assert(number(s.drop_last()) == 0);
    } else {
        assert(is_digit(s[s.len() - 1]));
        assert(all_digits(s.drop_last())) by {
            assert forall|k: int| 0 <= k < s.drop_last().len() implies is_digit(
                #[trigger] s.drop_last()[k],
            ) by {
                assert(is_digit(s[k]));
            }
        }
        lemma_number_at_least(s.drop_last());
    }
}

/// A leading zero does not count.
proof fn lemma_leading_zero(s: Seq<u8>)
    requires
        all_digits(s),
        s.len() > 0,
        s[0] == 0x30,
    ensures
        number(s.drop_first()) == number(s),
    decreases s.len(),
{
    if s.len() == 1 {
        assert(s.drop_last() =~= Seq::<u8>::empty());
        assert(s.drop_first() =~= Seq::<u8>::empty());
        assert(number(s.drop_last()) == 0);
    } else {
        let t = s.drop_last();
        assert(all_digits(t)) by {
            assert forall|k: int| 0 <= k < t.len() implies is_digit(#[trigger] t[k]) by {
                assert(is_digit(s[k]));
            }
        }
        lemma_leading_zero(t);
        assert(s.drop_first().drop_last() =~= t.drop_first());
        assert(s.drop_first().last() == s.last());
    }
}

/// Nor do several.
proof fn lemma_leading_zeros(s: Seq<u8>, k: int)
    requires
        all_digits(s),
        0 <= k <= s.len(),
        forall|i: int| 0 <= i < k ==> #[trigger] s[i] == 0x30,
    ensures
        number(s.skip(k)) == number(s),
    decreases k,
{
    if k == 0 {
        assert(s.skip(0) =~= s);
    } else {
        lemma_leading_zeros(s, k - 1);
        let t = s.skip(k - 1);
        assert(t[0] == s[k - 1]);
        assert(all_digits(t)) by {
            assert forall|i: int| 0 <= i < t.len() implies is_digit(#[trigger] t[i]) by {
                assert(is_digit(s[i + k - 1]));
            }
        }
        lemma_leading_zero(t);
        assert(t.drop_first() =~= s.skip(k));
    }
}

/// Of two runs of one length, the first digit that differs decides.
proof fn lemma_first_difference(a: Seq<u8>, b: Seq<u8>, k: int)
    requires
        all_digits(a),
        all_digits(b),
        a.len() == b.len(),
        0 <= k < a.len(),
        forall|i: int| 0 <= i < k ==> #[trigger] a[i] == b[i],
        a[k] < b[k],
    ensures
        number(a) < number(b),
    decreases a.len(),
{
    let (p, q) = (a.drop_last(), b.drop_last());
    assert(is_digit(a[a.len() - 1]));
    assert(is_digit(b[b.len() - 1]));
    if k == a.len() - 1 {
        assert(p =~= q) by {
            assert forall|i: int| 0 <= i < p.len() implies p[i] == q[i] by {
                assert(a[i] == b[i]);
            }
        }
    } else {
        assert(all_digits(p)) by {
            assert forall|i: int| 0 <= i < p.len() implies is_digit(#[trigger] p[i]) by {
                assert(is_digit(a[i]));
            }
        }
        assert(all_digits(q)) by {
            assert forall|i: int| 0 <= i < q.len() implies is_digit(#[trigger] q[i]) by {
                assert(is_digit(b[i]));
            }
        }
        assert forall|i: int| 0 <= i < k implies #[trigger] p[i] == q[i] by {
            assert(a[i] == b[i]);
        }
        lemma_first_difference(p, q, k);
    }
}

/// Of two runs without leading zeros, the longer writes the larger number.
proof fn lemma_longer_is_larger(a: Seq<u8>, b: Seq<u8>)
    requires
        all_digits(a),
        all_digits(b),
        0 < a.len() < b.len(),
        b[0] != 0x30,
    ensures
        number(a) < number(b),
{
    lemma_number_below(a);
    lemma_number_at_least(b);
    lemma_pow10_grows(a.len(), (b.len() - 1) as nat);
}

proof fn lemma_pow10_grows(m: nat, n: nat)
    requires
        m <= n,
    ensures
        pow10(m) <= pow10(n),
    decreases n,
{
    if m < n {
        lemma_pow10_grows(m, (n - 1) as nat);
    }
}

/// Where one of two things stands relative to the other.
#[derive(Clone, Copy, Debug, PartialEq, Eq, Structural)]
pub enum Place {
    Before,
    Level,
    After,
}

/// A place as the sign of a comparison.
pub open spec fn place_sign(p: Place) -> int {
    match p {
        Place::Before => -1,
        Place::Level => 0,
        Place::After => 1,
    }
}

/// Where the run of digits at `from` ends.
fn end_of_run(s: &[u8], from: usize) -> (to: usize)
    requires
        from <= s@.len(),
    ensures
        to == run_end(s@, from as int),
        from <= to <= s@.len(),
{
    let mut to: usize = from;
    while to < s.len() && s[to] >= 0x30 && s[to] <= 0x39
        invariant
            from <= to <= s@.len(),
            run_end(s@, from as int) == run_end(s@, to as int),
        decreases s@.len() - to,
    {
        to += 1;
    }
    to
}

/// The first digit of a run that is not a leading zero, or its last.
fn past_zeros(s: &[u8], from: usize, to: usize) -> (k: usize)
    requires
        from < to <= s@.len(),
    ensures
        from <= k < to,
        forall|i: int| from <= i < k ==> #[trigger] s@[i] == 0x30,
        s@[k as int] != 0x30 || k == to - 1,
{
    let mut k: usize = from;
    while k + 1 < to && s[k] == 0x30
        invariant
            from <= k < to <= s@.len(),
            forall|i: int| from <= i < k ==> #[trigger] s@[i] == 0x30,
        decreases to - k,
    {
        k += 1;
    }
    k
}

/// Two runs of digits compared as the numbers they write.
///
/// The numbers are never computed, so a run of any length is compared.
fn compare_runs(a: &[u8], i: usize, ai: usize, b: &[u8], j: usize, bj: usize) -> (p: Place)
    requires
        i < ai <= a@.len(),
        j < bj <= b@.len(),
        all_digits(a@.subrange(i as int, ai as int)),
        all_digits(b@.subrange(j as int, bj as int)),
    ensures
        place_sign(p) == sign(
            number(a@.subrange(i as int, ai as int)) as int,
            number(b@.subrange(j as int, bj as int)) as int,
        ),
{
    let ki = past_zeros(a, i, ai);
    let kj = past_zeros(b, j, bj);
    let ghost ra = a@.subrange(i as int, ai as int);
    let ghost rb = b@.subrange(j as int, bj as int);
    let ghost na = a@.subrange(ki as int, ai as int);
    let ghost nb = b@.subrange(kj as int, bj as int);
    proof {
        assert(na =~= ra.skip(ki - i));
        assert(nb =~= rb.skip(kj - j));
        assert forall|k: int| 0 <= k < ki - i implies #[trigger] ra[k] == 0x30 by {
            assert(a@[k + i] == 0x30);
        }
        assert forall|k: int| 0 <= k < kj - j implies #[trigger] rb[k] == 0x30 by {
            assert(b@[k + j] == 0x30);
        }
        lemma_leading_zeros(ra, ki - i);
        lemma_leading_zeros(rb, kj - j);
        assert forall|k: int| 0 <= k < na.len() implies is_digit(#[trigger] na[k]) by {
            assert(is_digit(ra[k + (ki - i)]));
        }
        assert forall|k: int| 0 <= k < nb.len() implies is_digit(#[trigger] nb[k]) by {
            assert(is_digit(rb[k + (kj - j)]));
        }
    }
    let (la, lb): (usize, usize) = (ai - ki, bj - kj);
    if la < lb {
        proof {
            lemma_longer_is_larger(na, nb);
        }
        return Place::Before;
    }
    if la > lb {
        proof {
            lemma_longer_is_larger(nb, na);
        }
        return Place::After;
    }
    let mut k: usize = 0;
    while k < la
        invariant
            k <= la,
            la == lb,
            ki + la == ai,
            kj + lb == bj,
            ai <= a@.len(),
            bj <= b@.len(),
            na == a@.subrange(ki as int, ai as int),
            nb == b@.subrange(kj as int, bj as int),
            all_digits(na),
            all_digits(nb),
            number(na) == number(ra),
            number(nb) == number(rb),
            ra == a@.subrange(i as int, ai as int),
            rb == b@.subrange(j as int, bj as int),
            forall|t: int| 0 <= t < k ==> #[trigger] na[t] == nb[t],
        decreases la - k,
    {
        assert(na[k as int] == a@[ki + k]);
        assert(nb[k as int] == b@[kj + k]);
        if a[ki + k] < b[kj + k] {
            proof {
                lemma_first_difference(na, nb, k as int);
            }
            return Place::Before;
        }
        if a[ki + k] > b[kj + k] {
            proof {
                assert forall|t: int| 0 <= t < k implies #[trigger] nb[t] == na[t] by {
                    assert(na[t] == nb[t]);
                }
                lemma_first_difference(nb, na, k as int);
            }
            return Place::After;
        }
        k += 1;
    }
    assert(na =~= nb);
    Place::Level
}

/// Two names in natural order.
pub fn natural_place(a: &[u8], b: &[u8]) -> (p: Place)
    ensures
        place_sign(p) == natural_sign(a@, b@),
{
    let mut i: usize = 0;
    let mut j: usize = 0;
    while i < a.len() && j < b.len()
        invariant
            i <= a@.len(),
            j <= b@.len(),
            natural_sign(a@, b@) == tokens_sign(tokens(a@, i as int), tokens(b@, j as int)),
        decreases a@.len() - i,
    {
        let ghost ta = tokens(a@, i as int);
        let ghost tb = tokens(b@, j as int);
        let (p, q): (u8, u8) = (a[i], b[j]);
        proof {
            lemma_run_end(a@, i as int);
            lemma_run_end(b@, j as int);
        }
        if p >= 0x30 && p <= 0x39 && q >= 0x30 && q <= 0x39 {
            let ai = end_of_run(a, i);
            let bj = end_of_run(b, j);
            let place = compare_runs(a, i, ai, b, j, bj);
            proof {
                assert(ta.drop_first() =~= tokens(a@, ai as int));
                assert(tb.drop_first() =~= tokens(b@, bj as int));
            }
            match place {
                Place::Level => {},
                _ => {
                    return place;
                },
            }
            i = ai;
            j = bj;
        } else {
            if p < q {
                return Place::Before;
            }
            if p > q {
                return Place::After;
            }
            proof {
                assert(ta.drop_first() =~= tokens(a@, i + 1));
                assert(tb.drop_first() =~= tokens(b@, j + 1));
            }
            i += 1;
            j += 1;
        }
    }
    proof {
        assert(i < a@.len() ==> tokens(a@, i as int).len() > 0);
        assert(j < b@.len() ==> tokens(b@, j as int).len() > 0);
    }
    if i < a.len() {
        Place::After
    } else if j < b.len() {
        Place::Before
    } else {
        Place::Level
    }
}

/// Two byte strings, byte by byte.
pub fn bytes_place(a: &[u8], b: &[u8]) -> (p: Place)
    ensures
        place_sign(p) == bytes_sign(a@, b@),
{
    let mut i: usize = 0;
    assert(a@.skip(0) =~= a@);
    assert(b@.skip(0) =~= b@);
    while i < a.len() && i < b.len()
        invariant
            i <= a@.len(),
            i <= b@.len(),
            bytes_sign(a@, b@) == bytes_sign(a@.skip(i as int), b@.skip(i as int)),
        decreases a@.len() - i,
    {
        if a[i] < b[i] {
            return Place::Before;
        }
        if a[i] > b[i] {
            return Place::After;
        }
        assert(a@.skip(i as int).drop_first() =~= a@.skip(i + 1));
        assert(b@.skip(i as int).drop_first() =~= b@.skip(i + 1));
        i += 1;
    }
    if i < a.len() {
        Place::After
    } else if i < b.len() {
        Place::Before
    } else {
        Place::Level
    }
}

/// Compare two file names treating runs of digits as numbers.
///
/// `frame_2` comes before `frame_10`, and `frame_002` before `frame_010`, from the same
/// rule. Everything that is not a digit compares byte by byte.
pub fn natural_cmp(a: &str, b: &str) -> (r: Ordering)
    ensures
        r is Less <==> natural_sign(a.spec_bytes(), b.spec_bytes()) < 0,
        r is Equal <==> natural_sign(a.spec_bytes(), b.spec_bytes()) == 0,
        r is Greater <==> natural_sign(a.spec_bytes(), b.spec_bytes()) > 0,
{
    match natural_place(a.as_bytes(), b.as_bytes()) {
        Place::Before => Ordering::Less,
        Place::Level => Ordering::Equal,
        Place::After => Ordering::Greater,
    }
}

/// The order of names: natural, and byte by byte where that leaves them equal.
pub open spec fn name_sign(a: Seq<u8>, b: Seq<u8>) -> int {
    if natural_sign(a, b) != 0 {
        natural_sign(a, b)
    } else {
        bytes_sign(a, b)
    }
}

/// Two names in the order of names.
pub fn name_place(a: &[u8], b: &[u8]) -> (p: Place)
    ensures
        place_sign(p) == name_sign(a@, b@),
{
    match natural_place(a, b) {
        Place::Level => bytes_place(a, b),
        p => p,
    }
}

proof fn lemma_tokens_flip(a: Seq<Token>, b: Seq<Token>)
    ensures
        tokens_sign(a, b) == -tokens_sign(b, a),
        -1 <= tokens_sign(a, b) <= 1,
    decreases a.len(),
{
    if a.len() > 0 && b.len() > 0 {
        lemma_tokens_flip(a.drop_first(), b.drop_first());
    }
}

proof fn lemma_tokens_chain(a: Seq<Token>, b: Seq<Token>, c: Seq<Token>)
    requires
        tokens_sign(a, b) <= 0,
        tokens_sign(b, c) <= 0,
    ensures
        tokens_sign(a, c) <= 0,
        tokens_sign(a, c) == 0 ==> tokens_sign(a, b) == 0 && tokens_sign(b, c) == 0,
    decreases a.len(),
{
    if a.len() > 0 && b.len() > 0 && c.len() > 0 {
        if token_sign(a[0], b[0]) == 0 && token_sign(b[0], c[0]) == 0 {
            lemma_tokens_chain(a.drop_first(), b.drop_first(), c.drop_first());
        }
    }
}

pub proof fn lemma_bytes_flip(a: Seq<u8>, b: Seq<u8>)
    ensures
        bytes_sign(a, b) == -bytes_sign(b, a),
        -1 <= bytes_sign(a, b) <= 1,
        bytes_sign(a, b) == 0 <==> a == b,
    decreases a.len(),
{
    if a.len() > 0 && b.len() > 0 {
        lemma_bytes_flip(a.drop_first(), b.drop_first());
        if a[0] == b[0] && a.drop_first() == b.drop_first() {
            assert(a =~= seq![a[0]] + a.drop_first());
            assert(b =~= seq![b[0]] + b.drop_first());
        }
    } else if a.len() == b.len() {
        assert(a =~= b);
    }
}

pub proof fn lemma_bytes_chain(a: Seq<u8>, b: Seq<u8>, c: Seq<u8>)
    requires
        bytes_sign(a, b) <= 0,
        bytes_sign(b, c) <= 0,
    ensures
        bytes_sign(a, c) <= 0,
    decreases a.len(),
{
    if a.len() > 0 && b.len() > 0 && c.len() > 0 {
        if a[0] == b[0] && b[0] == c[0] {
            lemma_bytes_chain(a.drop_first(), b.drop_first(), c.drop_first());
        }
    }
}

/// The order of names is total: of two names one comes first, unless they are the same
/// name, and what comes before something that comes before a third comes before the third.
pub proof fn lemma_names_are_totally_ordered(a: Seq<u8>, b: Seq<u8>, c: Seq<u8>)
    ensures
        name_sign(a, b) == -name_sign(b, a),
        name_sign(a, b) == 0 <==> a == b,
        name_sign(a, b) <= 0 && name_sign(b, c) <= 0 ==> name_sign(a, c) <= 0,
{
    let (p, q, r) = (tokens(a, 0), tokens(b, 0), tokens(c, 0));
    lemma_tokens_flip(p, q);
    lemma_tokens_flip(q, r);
    lemma_tokens_flip(p, r);
    lemma_bytes_flip(a, b);
    lemma_bytes_flip(b, c);
    if name_sign(a, b) <= 0 && name_sign(b, c) <= 0 {
        lemma_tokens_chain(p, q, r);
        if natural_sign(a, c) == 0 {
            lemma_bytes_chain(a, b, c);
        }
    }
}

/// The natural order is an order: it chains.
pub proof fn lemma_natural_order_chains(a: Seq<u8>, b: Seq<u8>, c: Seq<u8>)
    requires
        natural_sign(a, b) <= 0,
        natural_sign(b, c) <= 0,
    ensures
        natural_sign(a, c) <= 0,
{
    lemma_tokens_chain(tokens(a, 0), tokens(b, 0), tokens(c, 0));
}

/// Names of one shape: of one length, with their digits in the same places, as the names
/// of a zero-padded stack are.
pub open spec fn same_shape(a: Seq<u8>, b: Seq<u8>) -> bool {
    &&& a.len() == b.len()
    &&& forall|i: int| 0 <= i < a.len() ==> is_digit(#[trigger] a[i]) == is_digit(b[i])
}

proof fn lemma_same_runs(a: Seq<u8>, b: Seq<u8>, from: int)
    requires
        same_shape(a, b),
        0 <= from <= a.len(),
    ensures
        run_end(a, from) == run_end(b, from),
    decreases a.len() - from,
{
    if from < a.len() {
        assert(is_digit(a[from]) == is_digit(b[from]));
        if is_digit(a[from]) {
            lemma_same_runs(a, b, from + 1);
        }
    }
}

/// The bytes of two names from `from` on compare as a stretch that is equal, and the rest.
proof fn lemma_bytes_after_equal(a: Seq<u8>, b: Seq<u8>, from: int, to: int)
    requires
        0 <= from <= to <= a.len(),
        to <= b.len(),
        forall|i: int| from <= i < to ==> a[i] == #[trigger] b[i],
    ensures
        bytes_sign(a.skip(from), b.skip(from)) == bytes_sign(a.skip(to), b.skip(to)),
    decreases to - from,
{
    if from < to {
        lemma_bytes_after_equal(a, b, from + 1, to);
        assert(a.skip(from).drop_first() =~= a.skip(from + 1));
        assert(b.skip(from).drop_first() =~= b.skip(from + 1));
        assert(a[from] == b[from]);
    }
}

/// The first place in `from..to` where two names differ, if there is one.
proof fn lemma_first_place(a: Seq<u8>, b: Seq<u8>, from: int, to: int) -> (k: int)
    requires
        0 <= from <= to <= a.len(),
        to <= b.len(),
    ensures
        from <= k <= to,
        forall|i: int| from <= i < k ==> a[i] == #[trigger] b[i],
        k < to ==> a[k] != b[k],
    decreases to - from,
{
    if from == to || a[from] != b[from] {
        from
    } else {
        lemma_first_place(a, b, from + 1, to)
    }
}

/// Do two names agree as far as `k`?
pub open spec fn agree_to(a: Seq<u8>, b: Seq<u8>, k: int) -> bool {
    forall|i: int| 0 <= i < k ==> a[i] == #[trigger] b[i]
}

/// Do the runs of digits of two names end together, wherever the names agree up to them? So
/// they do where the numbers are padded to one width, and where one of the names has none.
pub open spec fn level_runs(a: Seq<u8>, b: Seq<u8>) -> bool {
    forall|k: int|
        0 <= k < a.len() && k < b.len() && agree_to(a, b, k) && is_digit(a[k]) && is_digit(b[k])
            ==> #[trigger] run_end(a, k) == run_end(b, k)
}

proof fn lemma_level_from(a: Seq<u8>, b: Seq<u8>, from: int)
    requires
        level_runs(a, b),
        0 <= from <= a.len(),
        from <= b.len(),
        agree_to(a, b, from),
    ensures
        tokens_sign(tokens(a, from), tokens(b, from)) == bytes_sign(a.skip(from), b.skip(from)),
    decreases a.len() - from,
{
    let (p, q) = (tokens(a, from), tokens(b, from));
    lemma_run_end(a, from);
    lemma_run_end(b, from);
    if from < a.len() && from < b.len() {
        if is_digit(a[from]) && is_digit(b[from]) {
            let to = run_end(a, from);
            assert(to == run_end(b, from));
            assert(p.drop_first() =~= tokens(a, to));
            assert(q.drop_first() =~= tokens(b, to));
            let (x, y) = (a.subrange(from, to), b.subrange(from, to));
            assert forall|i: int| 0 <= i < x.len() implies is_digit(#[trigger] x[i]) by {
                assert(is_digit(a[from + i]));
            }
            assert forall|i: int| 0 <= i < y.len() implies is_digit(#[trigger] y[i]) by {
                assert(is_digit(b[from + i]));
            }
            let k = lemma_first_place(a, b, from, to);
            lemma_bytes_after_equal(a, b, from, k);
            if k < to {
                assert forall|i: int| 0 <= i < k - from implies #[trigger] x[i] == y[i] by {
                    assert(a[from + i] == b[from + i]);
                }
                if a[k] < b[k] {
                    lemma_first_difference(x, y, k - from);
                } else {
                    assert forall|i: int| 0 <= i < k - from implies #[trigger] y[i] == x[i] by {
                        assert(x[i] == y[i]);
                    }
                    lemma_first_difference(y, x, k - from);
                }
            } else {
                assert(x =~= y) by {
                    assert forall|i: int| 0 <= i < x.len() implies x[i] == y[i] by {
                        assert(a[from + i] == b[from + i]);
                    }
                }
                lemma_level_from(a, b, to);
            }
        } else if a[from] == b[from] {
            lemma_level_from(a, b, from + 1);
            assert(p.drop_first() =~= tokens(a, from + 1));
            assert(q.drop_first() =~= tokens(b, from + 1));
            assert(a.skip(from).drop_first() =~= a.skip(from + 1));
            assert(b.skip(from).drop_first() =~= b.skip(from + 1));
        }
    }
}

/// Where the runs of digits end together, the natural order is the byte order.
pub proof fn lemma_level_runs_keep_byte_order(a: Seq<u8>, b: Seq<u8>)
    requires
        level_runs(a, b),
    ensures
        natural_sign(a, b) == bytes_sign(a, b),
{
    lemma_level_from(a, b, 0);
    assert(a.skip(0) =~= a);
    assert(b.skip(0) =~= b);
}

/// Padded stacks sort exactly as byte order sorts them: on names of one shape the natural
/// order and the byte order are the same.
pub proof fn lemma_padded_names_keep_byte_order(a: Seq<u8>, b: Seq<u8>)
    requires
        same_shape(a, b),
    ensures
        natural_sign(a, b) == bytes_sign(a, b),
{
    assert forall|k: int|
        0 <= k < a.len() && k < b.len() && agree_to(a, b, k) && is_digit(a[k]) && is_digit(
            b[k],
        ) implies #[trigger] run_end(a, k) == run_end(b, k) by {
        lemma_same_runs(a, b, k);
    }
    lemma_level_runs_keep_byte_order(a, b);
}

pub open spec fn without_digits(s: Seq<u8>) -> bool {
    forall|i: int| 0 <= i < s.len() ==> !is_digit(#[trigger] s[i])
}

/// A name without digits keeps byte order, against any other.
pub proof fn lemma_names_without_digits_keep_byte_order(a: Seq<u8>, b: Seq<u8>)
    requires
        without_digits(a) || without_digits(b),
    ensures
        natural_sign(a, b) == bytes_sign(a, b),
{
    lemma_level_runs_keep_byte_order(a, b);
}

/// Tokens depend only on what is left of a name.
proof fn lemma_tokens_of_the_rest(u: Seq<u8>, i: int, v: Seq<u8>, j: int)
    requires
        0 <= i <= u.len(),
        0 <= j <= v.len(),
        u.skip(i) == v.skip(j),
    ensures
        tokens(u, i) == tokens(v, j),
        run_end(u, i) - i == run_end(v, j) - j,
    decreases u.len() - i,
{
    assert(u.skip(i).len() == u.len() - i && v.skip(j).len() == v.len() - j);
    if i < u.len() {
        assert(u.skip(i)[0] == u[i] && v.skip(j)[0] == v[j]);
        assert(u.skip(i + 1) =~= u.skip(i).drop_first());
        assert(v.skip(j + 1) =~= v.skip(j).drop_first());
        lemma_tokens_of_the_rest(u, i + 1, v, j + 1);
        if is_digit(u[i]) {
            lemma_run_end(u, i);
            lemma_run_end(v, j);
            let n = run_end(u, i) - i;
            assert(u.skip(i + n) =~= u.skip(i).skip(n));
            assert(v.skip(j + n) =~= v.skip(j).skip(n));
            lemma_tokens_of_the_rest(u, i + n, v, j + n);
            assert(u.subrange(i, i + n) =~= u.skip(i).subrange(0, n));
            assert(v.subrange(j, j + n) =~= v.skip(j).subrange(0, n));
        }
    }
}

/// Tokens of two names that agree up to a byte that is no digit, and have the same ones from
/// there on.
proof fn lemma_tokens_after_a_prefix(u: Seq<u8>, v: Seq<u8>, n: int, i: int)
    requires
        0 <= i <= n <= u.len(),
        n <= v.len(),
        agree_to(u, v, n),
        n > 0 ==> !is_digit(u[n - 1]),
        tokens(u, n) == tokens(v, n),
    ensures
        tokens(u, i) == tokens(v, i),
        i < n ==> run_end(u, i) < n && run_end(v, i) == run_end(u, i),
    decreases n - i,
{
    if i < n {
        assert(u[i] == v[i]);
        lemma_tokens_after_a_prefix(u, v, n, i + 1);
        if is_digit(u[i]) {
            assert(i + 1 < n);
            lemma_run_end(u, i);
            lemma_run_end(v, i);
            let to = run_end(u, i);
            lemma_tokens_after_a_prefix(u, v, n, to);
            assert(u.subrange(i, to) =~= v.subrange(i, to)) by {
                assert forall|k: int| i <= k < to implies u[k] == v[k] by {}
            }
        }
    }
}

/// Padding does not count: zeros in front of a run of digits leave a name level with itself
/// in the natural order, wherever the run stands.
pub proof fn lemma_padding_does_not_count(
    before: Seq<u8>,
    zeros: nat,
    digits: Seq<u8>,
    after: Seq<u8>,
)
    requires
        before.len() > 0 ==> !is_digit(before.last()),
        all_digits(digits),
        digits.len() > 0,
        after.len() > 0 ==> !is_digit(after[0]),
    ensures
        natural_sign(
            before + Seq::new(zeros, |k: int| 0x30u8) + digits + after,
            before + digits + after,
        ) == 0,
{
    let pad = Seq::new(zeros, |k: int| 0x30u8);
    let run = pad + digits;
    let n = before.len() as int;
    assert forall|k: int| 0 <= k < run.len() implies is_digit(#[trigger] run[k]) by {
        if k >= zeros {
            assert(is_digit(digits[k - zeros]));
        }
    }
    lemma_leading_zeros(run, zeros as int);
    assert(run.skip(zeros as int) =~= digits);
    let (u, v) = (before + run + after, before + digits + after);
    assert(before + pad + digits + after =~= u);
    lemma_run_inside(before, run, after);
    lemma_run_inside(before, digits, after);
    assert(u.skip(n + run.len()) =~= after);
    assert(v.skip(n + digits.len()) =~= after);
    lemma_tokens_of_the_rest(u, n + run.len(), v, n + digits.len() as int);
    if n > 0 {
        assert(u[n - 1] == before.last());
    }
    assert(agree_to(u, v, n));
    lemma_tokens_after_a_prefix(u, v, n, 0);
    lemma_tokens_level(tokens(u, 0));
}

/// The tokens of a name from a run of digits on: the number that it writes, and the rest.
proof fn lemma_run_inside(before: Seq<u8>, run: Seq<u8>, after: Seq<u8>)
    requires
        all_digits(run),
        run.len() > 0,
        after.len() > 0 ==> !is_digit(after[0]),
    ensures
        ({
            let (s, n) = (before + run + after, before.len() as int);
            tokens(s, n) == seq![Token::Number(number(run))] + tokens(s, n + run.len())
        }),
{
    let s = before + run + after;
    let n = before.len() as int;
    let to = n + run.len();
    assert forall|k: int| n <= k < to implies is_digit(#[trigger] s[k]) by {
        assert(s[k] == run[k - n]);
    }
    if to < s.len() {
        assert(s[to] == after[0]);
    }
    lemma_run_to(s, n, to);
    assert(s.subrange(n, to) =~= run);
    assert(is_digit(s[n]));
}

/// Where a run of digits ends that is followed by none.
proof fn lemma_run_to(s: Seq<u8>, from: int, to: int)
    requires
        0 <= from <= to <= s.len(),
        forall|k: int| from <= k < to ==> is_digit(#[trigger] s[k]),
        to < s.len() ==> !is_digit(s[to]),
    ensures
        run_end(s, from) == to,
    decreases to - from,
{
    if from < to {
        assert(is_digit(s[from]));
        lemma_run_to(s, from + 1, to);
    }
}

/// Tokens are level with themselves.
proof fn lemma_tokens_level(t: Seq<Token>)
    ensures
        tokens_sign(t, t) == 0,
    decreases t.len(),
{
    if t.len() > 0 {
        lemma_tokens_level(t.drop_first());
    }
}

} // verus!
