//! Maps of the frame each position was taken from.

use vstd::prelude::*;
use crate::image::{clamp_index, clamped};
use crate::sample::{Fixed, Sample};

verus! {

/// What a running best starts from, as a whole number: below any energy, so that the first
/// candidate wins however little it has.
pub const UNBEATEN: i64 = -1;

/// Where the running best over the first `n` candidates stands: the best value so far,
/// and who holds it. A candidate takes over only by exceeding it, so the first of equals
/// keeps its place.
pub open spec fn champion<S: Sample>(value: spec_fn(int) -> S, seed: S, n: nat) -> (S, int)
    decreases n,
{
    if n == 0 {
        (seed, 0)
    } else {
        let (best, who) = champion(value, seed, (n - 1) as nat);
        if value(n - 1).spec_exceeds(best) {
            (value(n - 1), n - 1)
        } else {
            (best, who)
        }
    }
}

/// The champion is the first of the largest: no candidate exceeds it, and it exceeds
/// every candidate before it, where every candidate exceeds the seed.
pub proof fn lemma_champion_is_the_first_maximum(
    value: spec_fn(int) -> Fixed,
    seed: Fixed,
    n: nat,
)
    requires
        n > 0,
        forall|k: int| 0 <= k < n ==> (#[trigger] value(k)).spec_exceeds(seed),
    ensures
        0 <= champion(value, seed, n).1 < n,
        champion(value, seed, n).0 == value(champion(value, seed, n).1),
        forall|k: int|
            0 <= k < n ==> !(#[trigger] value(k)).spec_exceeds(champion(value, seed, n).0),
        forall|k: int|
            0 <= k < champion(value, seed, n).1 ==> champion(value, seed, n).0.spec_exceeds(
                #[trigger] value(k),
            ),
    decreases n,
{
    assert(value(n - 1).spec_exceeds(seed));
    if n > 1 {
        lemma_champion_is_the_first_maximum(value, seed, (n - 1) as nat);
    } else {
        assert(champion(value, seed, 0) == (seed, 0int));
    }
}

/// One candidate's turn at every position of a level.
pub open spec fn best_after<S: Sample>(best: Seq<S>, value: Seq<S>) -> Seq<S> {
    Seq::new(
        best.len(),
        |i: int|
            if value[i].spec_exceeds(best[i]) {
                value[i]
            } else {
                best[i]
            },
    )
}

/// Who holds each position after one candidate's turn.
pub open spec fn labels_after<S: Sample>(
    best: Seq<S>,
    labels: Seq<u16>,
    value: Seq<S>,
    index: u16,
) -> Seq<u16> {
    Seq::new(
        labels.len(),
        |i: int|
            if value[i].spec_exceeds(best[i]) {
                index
            } else {
                labels[i]
            },
    )
}

/// Gives one candidate its turn at every position.
pub fn challenge<S: Sample>(
    best: &mut Vec<S>,
    labels: &mut Vec<u16>,
    value: &[S],
    index: u16,
)
    requires
        old(best)@.len() == value@.len(),
        old(labels)@.len() == value@.len(),
    ensures
        final(best)@ == best_after(old(best)@, value@),
        final(labels)@ == labels_after(old(best)@, old(labels)@, value@, index),
{
    let ghost (b, l) = (best@, labels@);
    let mut i: usize = 0;
    while i < value.len()
        invariant
            i <= value@.len(),
            b.len() == value@.len(),
            l.len() == value@.len(),
            best@.len() == value@.len(),
            labels@.len() == value@.len(),
            forall|k: int| 0 <= k < i ==> #[trigger] best@[k] == best_after(b, value@)[k],
            forall|k: int|
                0 <= k < i ==> #[trigger] labels@[k] == labels_after(b, l, value@, index)[k],
            forall|k: int| i <= k < value@.len() ==> #[trigger] best@[k] == b[k],
            forall|k: int| i <= k < value@.len() ==> #[trigger] labels@[k] == l[k],
        decreases value@.len() - i,
    {
        if value[i].exceeds(best[i]) {
            best.set(i, value[i]);
            labels.set(i, index);
        }
        i += 1;
    }
    assert(best@ =~= best_after(b, value@));
    assert(labels@ =~= labels_after(b, l, value@, index));
}

/// The best values after `n` turns from a seed.
pub open spec fn best_through<S: Sample>(seed: Seq<S>, turns: Seq<Seq<S>>, n: nat) -> Seq<S>
    decreases n,
{
    if n == 0 {
        seed
    } else {
        best_after(best_through(seed, turns, (n - 1) as nat), turns[n - 1])
    }
}

/// Who holds each position after `n` turns from a seed.
pub open spec fn labels_through<S: Sample>(seed: Seq<S>, turns: Seq<Seq<S>>, n: nat) -> Seq<u16>
    decreases n,
{
    if n == 0 {
        Seq::new(seed.len(), |i: int| 0u16)
    } else {
        labels_after(
            best_through(seed, turns, (n - 1) as nat),
            labels_through(seed, turns, (n - 1) as nat),
            turns[n - 1],
            (n - 1) as u16,
        )
    }
}

/// Turns taken one after another leave every position with its champion.
pub proof fn lemma_turns_leave_the_champion<S: Sample>(
    seed: Seq<S>,
    turns: Seq<Seq<S>>,
    n: nat,
    i: int,
)
    requires
        n <= turns.len(),
        n <= 0xffff,
        0 <= i < seed.len(),
    ensures
        best_through(seed, turns, n).len() == seed.len(),
        labels_through(seed, turns, n).len() == seed.len(),
        best_through(seed, turns, n)[i] == champion(|k: int| turns[k][i], seed[i], n).0,
        labels_through(seed, turns, n)[i] == champion(|k: int| turns[k][i], seed[i], n).1,
        n > 0 ==> 0 <= champion(|k: int| turns[k][i], seed[i], n).1 < n,
        n == 0 ==> champion(|k: int| turns[k][i], seed[i], n).1 == 0,
    decreases n,
{
    if n > 0 {
        lemma_turns_leave_the_champion(seed, turns, (n - 1) as nat, i);
    }
}

/// The offsets of the eight neighbours, row by row.
pub open spec fn offset_x(k: int) -> int {
    (if k < 4 {
        k
    } else {
        k + 1
    }) % 3 - 1
}

pub open spec fn offset_y(k: int) -> int {
    (if k < 4 {
        k
    } else {
        k + 1
    }) / 3 - 1
}

/// The labels of the eight neighbours, the border repeated outside the map.
pub open spec fn neighbours(labels: Seq<u16>, w: int, h: int, x: int, y: int) -> Seq<u16> {
    Seq::new(
        8,
        |k: int|
            labels[clamped(y + offset_y(k), 0, h - 1) * w + clamped(x + offset_x(k), 0, w - 1)],
    )
}

/// How often a label stands among the first `k`.
pub open spec fn tally(ns: Seq<u16>, label: u16, k: nat) -> nat
    decreases k,
{
    if k == 0 {
        0
    } else {
        tally(ns, label, (k - 1) as nat) + (if ns[k - 1] == label {
            1nat
        } else {
            0nat
        })
    }
}

/// Does a label stand at `i` for the first time?
pub open spec fn is_new(ns: Seq<u16>, i: int) -> bool {
    forall|m: int| 0 <= m < i ==> #[trigger] ns[m] != ns[i]
}

/// Where, among the first `k`, the most frequent label first stands. Of labels that are
/// equally frequent, the one seen last.
pub open spec fn leading(ns: Seq<u16>, k: nat) -> int
    decreases k,
{
    if k <= 1 {
        0
    } else {
        let j = leading(ns, (k - 1) as nat);
        if is_new(ns, k - 1) && tally(ns, ns[k - 1], ns.len()) >= tally(ns, ns[j], ns.len()) {
            k - 1
        } else {
            j
        }
    }
}

/// The label a position settles on: the plurality of its neighbours, where that is
/// decisive enough, and otherwise its own. A threshold of zero disables the verification.
pub open spec fn settled(labels: Seq<u16>, w: int, h: int, threshold: int, x: int, y: int) -> u16 {
    let ns = neighbours(labels, w, h, x, y);
    let top = ns[leading(ns, 8)];
    if threshold > 0 && tally(ns, top, 8) >= threshold {
        top
    } else {
        labels[y * w + x]
    }
}

/// Every position settled, all from the map as it was.
pub open spec fn settled_map(labels: Seq<u16>, w: int, h: int, threshold: int) -> Seq<u16> {
    Seq::new(labels.len(), |i: int| settled(labels, w, h, threshold, i % w, i / w))
}

/// How many of the first `k` positions differ between two maps.
pub open spec fn differences(a: Seq<u16>, b: Seq<u16>, k: nat) -> nat
    decreases k,
{
    if k == 0 {
        0
    } else {
        differences(a, b, (k - 1) as nat) + (if a[k - 1] != b[k - 1] {
            1nat
        } else {
            0nat
        })
    }
}

fn look_around(labels: &[u16], w: usize, h: usize, x: usize, y: usize) -> (ns: Vec<u16>)
    requires
        x < w <= 0xffff_ffff,
        y < h <= 0xffff_ffff,
        labels@.len() == w * h,
    ensures
        ns@ == neighbours(labels@, w as int, h as int, x as int, y as int),
{
    assert(labels@.len() == labels.len());
    let mut ns: Vec<u16> = Vec::with_capacity(8);
    let mut k: usize = 0;
    while k < 8
        invariant
            k <= 8,
            x < w <= 0xffff_ffff,
            y < h <= 0xffff_ffff,
            labels@.len() == w * h,
            labels@.len() == labels.len(),
            ns@.len() == k,
            forall|j: int|
                0 <= j < k ==> #[trigger] ns@[j] == neighbours(
                    labels@,
                    w as int,
                    h as int,
                    x as int,
                    y as int,
                )[j],
        decreases 8 - k,
    {
        let j: usize = if k < 4 {
            k
        } else {
            k + 1
        };
        let cx = clamp_index(x as i64 + (j % 3) as i64 - 1, w);
        let cy = clamp_index(y as i64 + (j / 3) as i64 - 1, h);
        proof {
            crate::layout::lemma_place(cx as int, cy as int, w as int, h as int);
        }
        ns.push(labels[cy * w + cx]);
        k += 1;
    }
    assert(ns@ =~= neighbours(labels@, w as int, h as int, x as int, y as int));
    ns
}

fn count(ns: &[u16], label: u16) -> (n: u32)
    requires
        ns@.len() == 8,
    ensures
        n == tally(ns@, label, 8),
        n <= 8,
{
    let mut n: u32 = 0;
    let mut k: usize = 0;
    while k < 8
        invariant
            k <= 8,
            ns@.len() == 8,
            n == tally(ns@, label, k as nat),
            n <= k,
        decreases 8 - k,
    {
        if ns[k] == label {
            n += 1;
        }
        k += 1;
    }
    n
}

fn leader(ns: &[u16]) -> (j: usize)
    requires
        ns@.len() == 8,
    ensures
        j == leading(ns@, 8),
        j < 8,
{
    let mut j: usize = 0;
    let mut k: usize = 1;
    while k < 8
        invariant
            1 <= k <= 8,
            ns@.len() == 8,
            j < k,
            j == leading(ns@, k as nat),
        decreases 8 - k,
    {
        let mut fresh = true;
        let mut m: usize = 0;
        while m < k
            invariant
                m <= k,
                k < 8,
                ns@.len() == 8,
                fresh == (forall|i: int| 0 <= i < m ==> #[trigger] ns@[i] != ns@[k as int]),
            decreases k - m,
        {
            if ns[m] == ns[k] {
                fresh = false;
            }
            m += 1;
        }
        if fresh && count(ns, ns[k]) >= count(ns, ns[j]) {
            j = k;
        }
        k += 1;
    }
    j
}

/// Consistency verification: replace a label by the plurality of its eight neighbours,
/// where that plurality is decisive enough. Returns how many labels changed. A threshold
/// of zero disables it.
///
/// Reads from a snapshot rather than in place, so the result does not depend on scan
/// order.
pub fn verify_consistency(labels: &mut Vec<u16>, width: u32, height: u32, threshold: u32) -> (changed:
    usize)
    requires
        old(labels)@.len() == width * height,
    ensures
        final(labels)@ == settled_map(old(labels)@, width as int, height as int, threshold as int),
        changed == differences(old(labels)@, final(labels)@, old(labels)@.len()),
{
    let (w, h): (usize, usize) = (width as usize, height as usize);
    let source = labels.clone();
    let ghost map = settled_map(source@, w as int, h as int, threshold as int);
    let n = source.len();
    let mut changed: usize = 0;
    let mut i: usize = 0;
    assert(source@ =~= labels@);
    while i < n
        invariant
            i <= n,
            n == w * h,
            w <= 0xffff_ffff,
            h <= 0xffff_ffff,
            source@.len() == n,
            labels@.len() == n,
            map == settled_map(source@, w as int, h as int, threshold as int),
            changed <= i,
            changed == differences(source@, map, i as nat),
            forall|k: int| 0 <= k < i ==> #[trigger] labels@[k] == map[k],
            forall|k: int| i <= k < n ==> #[trigger] labels@[k] == source@[k],
        decreases n - i,
    {
        proof {
            crate::layout::lemma_column_and_row(i as int, w as int, h as int);
        }
        let (x, y): (usize, usize) = (i % w, i / w);
        let ns = look_around(source.as_slice(), w, h, x, y);
        let top = ns[leader(ns.as_slice())];
        let held = count(ns.as_slice(), top);
        assert(map[i as int] == settled(
            source@,
            w as int,
            h as int,
            threshold as int,
            x as int,
            y as int,
        ));
        if threshold > 0 && held >= threshold && top != source[i] {
            labels.set(i, top);
            changed += 1;
        }
        i += 1;
    }
    assert(labels@ =~= map);
    changed
}

/// Two different labels share the places between them.
proof fn lemma_tallies_share(ns: Seq<u16>, a: u16, b: u16, k: nat)
    requires
        a != b,
    ensures
        tally(ns, a, k) + tally(ns, b, k) <= k,
    decreases k,
{
    if k > 0 {
        lemma_tallies_share(ns, a, b, (k - 1) as nat);
    }
}

/// No label among the first `k` is more frequent than the leading one.
pub(crate) proof fn lemma_leading_is_most_frequent(ns: Seq<u16>, k: nat, i: int)
    requires
        0 <= i < k <= ns.len(),
    ensures
        0 <= leading(ns, k) < k,
        tally(ns, ns[i], ns.len()) <= tally(ns, ns[leading(ns, k)], ns.len()),
    decreases k,
{
    if k > 1 {
        lemma_leading_is_most_frequent(ns, (k - 1) as nat, 0);
        if i < k - 1 {
            lemma_leading_is_most_frequent(ns, (k - 1) as nat, i);
        } else if !is_new(ns, i) {
            let m = choose|m: int| 0 <= m < i && #[trigger] ns[m] == ns[i];
            lemma_leading_is_most_frequent(ns, (k - 1) as nat, m);
        }
    }
}

/// A label that is counted stands somewhere.
pub(crate) proof fn lemma_tallied_label_stands(ns: Seq<u16>, label: u16, k: nat) -> (i: int)
    requires
        tally(ns, label, k) > 0,
    ensures
        0 <= i < k,
        ns[i] == label,
    decreases k,
{
    if k > 0 && ns[k - 1] == label {
        k - 1
    } else {
        lemma_tallied_label_stands(ns, label, (k - 1) as nat)
    }
}

/// The published rule is a special case: a label that five or more of the eight
/// neighbours agree on is the one that a position settles on, at any threshold up to
/// that count.
pub proof fn lemma_majority_decides(
    labels: Seq<u16>,
    w: int,
    h: int,
    threshold: int,
    x: int,
    y: int,
    label: u16,
)
    requires
        tally(neighbours(labels, w, h, x, y), label, 8) >= 5,
        0 < threshold <= 5,
    ensures
        settled(labels, w, h, threshold, x, y) == label,
{
    let ns = neighbours(labels, w, h, x, y);
    let i = lemma_tallied_label_stands(ns, label, 8);
    lemma_leading_is_most_frequent(ns, 8, i);
    let top = ns[leading(ns, 8)];
    if top != label {
        lemma_tallies_share(ns, top, label, 8);
    }
}

/// A position changes only to a label that enough of its neighbours hold.
pub proof fn lemma_change_needs_agreement(
    labels: Seq<u16>,
    w: int,
    h: int,
    threshold: int,
    x: int,
    y: int,
)
    ensures
        settled(labels, w, h, threshold, x, y) != labels[y * w + x] ==> tally(
            neighbours(labels, w, h, x, y),
            settled(labels, w, h, threshold, x, y),
            8,
        ) >= threshold,
{
}

/// Nothing differs from itself.
proof fn lemma_nothing_differs(labels: Seq<u16>, k: nat)
    ensures
        differences(labels, labels, k) == 0,
    decreases k,
{
    if k > 0 {
        lemma_nothing_differs(labels, (k - 1) as nat);
    }
}

/// A threshold of zero disables the verification: every label stays, and none counts as
/// changed.
pub proof fn lemma_zero_disables_verification(labels: Seq<u16>, w: int, h: int)
    requires
        0 <= w,
        0 <= h,
        labels.len() == w * h,
    ensures
        settled_map(labels, w, h, 0) == labels,
        differences(labels, settled_map(labels, w, h, 0), labels.len()) == 0,
{
    let map = settled_map(labels, w, h, 0);
    assert forall|i: int| 0 <= i < labels.len() implies map[i] == labels[i] by {
        crate::layout::lemma_column_and_row(i, w, h);
    }
    assert(map =~= labels);
    lemma_nothing_differs(labels, labels.len());
}

} // verus!
