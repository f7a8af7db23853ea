//! Deterministic palette extraction via median-cut.
//!
//! k-means with random seeding would give a different palette on every run,
//! which is useless for a CI tool. Median-cut over the color histogram is
//! fully deterministic: same image in, same palette out, on every platform.

use vstd::prelude::*;
use vstd::relations::*;
use crate::color::{Rgb8, pack};
use crate::sort::{Key, le3, key_leq, injective_key, computes, sort_by_key};
use crate::sums::{sum_by, lemma_sum_perm, lemma_sum_swap_remove, lemma_sum_map, lemma_sum_at_least_len, lemma_sum_all_one, lemma_sum_ones};

verus! {

/// Histogram entry: a unique color and how many sampled pixels had it.
pub type Entry = (Rgb8, u64);

/// One extracted cluster: the rounded mean color of a median-cut box and the
/// number of counted pixels that fell into it. Its weight, the fraction of
/// all counted pixels, is `count` over the total of the histogram.
#[derive(Debug, Clone, Copy, PartialEq, Eq, Structural)]
pub struct Cluster {
    pub color: Rgb8,
    pub count: u64,
}

// ---------------------------------------------------------------------------
// Keys and orders

pub proof fn lemma_pack(c: Rgb8, d: Rgb8)
    ensures
        0 <= pack(c) < 0x100_0000,
        pack(c) == pack(d) ==> c == d,
{
    assert(0 <= pack(c) < 0x100_0000) by (nonlinear_arith)
        requires c.r < 256, c.g < 256, c.b < 256;
    if pack(c) == pack(d) {
        assert(c.r == d.r && c.g == d.g && c.b == d.b) by (nonlinear_arith)
            requires
                c.r * 65536 + c.g * 256 + c.b == d.r * 65536 + d.g * 256 + d.b,
                c.r < 256, c.g < 256, c.b < 256, d.r < 256, d.g < 256, d.b < 256;
    }
}

pub fn pack_exec(c: Rgb8) -> (p: u64)
    ensures
        p == pack(c),
{
    proof { lemma_pack(c, c); }
    c.r as u64 * 65536 + c.g as u64 * 256 + c.b as u64
}

/// Pixels are ordered like their colors.
pub open spec fn pixel_key(c: Rgb8) -> Key {
    (pack(c) as u64, 0, 0)
}

/// Channel `i` of a color: red, green, blue for 0, 1 and anything else.
pub open spec fn chan(c: Rgb8, i: int) -> int {
    if i == 0 {
        c.r as int
    } else if i == 1 {
        c.g as int
    } else {
        c.b as int
    }
}

/// Entries of a box are ordered by channel `ch`, then by color, then by count.
pub open spec fn entry_key(ch: int, e: Entry) -> Key {
    (chan(e.0, ch) as u64, pack(e.0) as u64, e.1)
}

pub open spec fn entry_key_fn(ch: int) -> spec_fn(Entry) -> Key {
    |e: Entry| entry_key(ch, e)
}

/// Clusters are ordered by count descending, then by color ascending.
pub open spec fn cluster_key(c: Cluster) -> Key {
    ((u64::MAX - c.count) as u64, pack(c.color) as u64, 0)
}

proof fn lemma_keys_injective(ch: int)
    ensures
        injective_key(|c: Rgb8| pixel_key(c)),
        injective_key(entry_key_fn(ch)),
        injective_key(|c: Cluster| cluster_key(c)),
{
    assert forall|a: Rgb8, b: Rgb8| #[trigger] pixel_key(a) == #[trigger] pixel_key(b) implies a == b by {
        lemma_pack(a, b);
    }
    assert forall|a: Entry, b: Entry| #[trigger] entry_key_fn(ch)(a) == #[trigger] entry_key_fn(ch)(b) implies a == b by {
        lemma_pack(a.0, b.0);
        lemma_pack(b.0, a.0);
    }
    assert forall|a: Cluster, b: Cluster| #[trigger] cluster_key(a) == #[trigger] cluster_key(b) implies a == b by {
        lemma_pack(a.color, b.color);
        lemma_pack(b.color, a.color);
    }
    assert(injective_key(|c: Rgb8| pixel_key(c)));
    assert(injective_key(entry_key_fn(ch)));
    assert(injective_key(|c: Cluster| cluster_key(c)));
}

fn channel(c: Rgb8, i: usize) -> (v: u8)
    ensures
        v == chan(c, i as int),
{
    match i {
        0 => c.r,
        1 => c.g,
        _ => c.b,
    }
}

// ---------------------------------------------------------------------------
// Histogram

/// Run-length encoding of a sequence of colors: each maximal run of one color
/// becomes one entry with the run's length.
pub open spec fn runs(s: Seq<Rgb8>) -> Seq<Entry>
    decreases s.len(),
{
    if s.len() == 0 {
        Seq::empty()
    } else {
        let r = runs(s.drop_last());
        if r.len() > 0 && r.last().0 == s.last() {
            r.update(r.len() - 1, (s.last(), (r.last().1 + 1) as u64))
        } else {
            r.push((s.last(), 1u64))
        }
    }
}

/// The histogram of a sequence of pixels: the pixels sorted by color, then
/// each run of one color counted.
pub open spec fn spec_histogram(pixels: Seq<Rgb8>) -> Seq<Entry> {
    runs(pixels.sort_by(key_leq(|c: Rgb8| pixel_key(c))))
}

proof fn lemma_runs_counts(s: Seq<Rgb8>)
    ensures
        forall|j: int| 0 <= j < runs(s).len() ==> (#[trigger] runs(s)[j]).1 <= s.len(),
        runs(s).len() <= s.len(),
    decreases s.len(),
{
    if s.len() > 0 {
        lemma_runs_counts(s.drop_last());
    }
}

/// Build a histogram from pixels. Deterministic: the pixels are sorted by
/// color and counted run by run, so input order does not matter.
pub fn histogram(pixels: &Vec<Rgb8>) -> (r: Vec<Entry>)
    ensures
        r@ == spec_histogram(pixels@),
{
    let ghost k = |c: Rgb8| pixel_key(c);
    let key = |c: &Rgb8| -> (out: Key)
        ensures
            out == pixel_key(*c),
        { (pack_exec(*c), 0u64, 0u64) };
    proof {
        lemma_keys_injective(0);
    }
    let sorted = sort_by_key(pixels, &key, Ghost(k));
    let mut r: Vec<Entry> = Vec::new();
    for i in 0..sorted.len()
        invariant
            r@ == runs(sorted@.take(i as int)),
    {
        proof {
            lemma_runs_counts(sorted@.take(i as int));
        }
        let c = sorted[i];
        let n = r.len();
        if n > 0 && r[n - 1].0 == c {
            let m = r[n - 1].1;
            r.set(n - 1, (c, m + 1));
        } else {
            r.push((c, 1));
        }
        assert(sorted@.take(i + 1).drop_last() == sorted@.take(i as int));
    }
    assert(sorted@.take(sorted.len() as int) == sorted@);
    r
}


// ---------------------------------------------------------------------------
// Sums and extremes over entries

pub open spec fn min_int(a: int, b: int) -> int {
    if a <= b { a } else { b }
}

pub open spec fn max_int(a: int, b: int) -> int {
    if a >= b { a } else { b }
}

/// The smallest value of channel `ch` among the entries, and 255 when there
/// are none.
pub open spec fn seq_min(s: Seq<Entry>, ch: int) -> int
    decreases s.len(),
{
    if s.len() == 0 {
        255
    } else {
        min_int(seq_min(s.drop_last(), ch), chan(s.last().0, ch))
    }
}

/// The largest value of channel `ch` among the entries, and 0 when there are
/// none.
pub open spec fn seq_max(s: Seq<Entry>, ch: int) -> int
    decreases s.len(),
{
    if s.len() == 0 {
        0
    } else {
        max_int(seq_max(s.drop_last(), ch), chan(s.last().0, ch))
    }
}

/// The number of pixels the entries stand for.
pub open spec fn seq_count(s: Seq<Entry>) -> int
    decreases s.len(),
{
    if s.len() == 0 {
        0
    } else {
        seq_count(s.drop_last()) + s.last().1
    }
}

/// Channel `ch` summed over the pixels the entries stand for.
pub open spec fn chan_sum(s: Seq<Entry>, ch: int) -> int
    decreases s.len(),
{
    if s.len() == 0 {
        0
    } else {
        chan_sum(s.drop_last(), ch) + chan(s.last().0, ch) * s.last().1
    }
}

proof fn lemma_seq_count_add(a: Seq<Entry>, b: Seq<Entry>)
    ensures
        seq_count(a + b) == seq_count(a) + seq_count(b),
    decreases b.len(),
{
    if b.len() > 0 {
        assert((a + b).drop_last() == a + b.drop_last());
        lemma_seq_count_add(a, b.drop_last());
    } else {
        assert(a + b == a);
    }
}

proof fn lemma_seq_count_nonneg(s: Seq<Entry>)
    ensures
        seq_count(s) >= 0,
    decreases s.len(),
{
    if s.len() > 0 {
        lemma_seq_count_nonneg(s.drop_last());
    }
}

proof fn lemma_seq_count_subrange(e: Seq<Entry>, s: int, t: int)
    requires
        0 <= s <= t <= e.len(),
    ensures
        seq_count(e.subrange(s, t)) <= seq_count(e),
{
    let a = e.subrange(0, s);
    let b = e.subrange(s, t);
    let c = e.subrange(t, e.len() as int);
    assert(e == a + b + c);
    lemma_seq_count_add(a + b, c);
    lemma_seq_count_add(a, b);
    lemma_seq_count_nonneg(a);
    lemma_seq_count_nonneg(c);
}

/// A prefix holds no more pixels than the whole.
pub proof fn lemma_seq_count_prefix(e: Seq<Entry>, n: int)
    requires
        0 <= n <= e.len(),
    ensures
        0 <= seq_count(e.take(n)) <= seq_count(e),
{
    lemma_seq_count_subrange(e, 0, n);
    assert(e.take(n) == e.subrange(0, n));
    lemma_seq_count_nonneg(e.take(n));
}

proof fn lemma_seq_count_perm(a: Seq<Entry>, b: Seq<Entry>)
    requires
        a.to_multiset() == b.to_multiset(),
    ensures
        seq_count(a) == seq_count(b),
    decreases a.len(),
{
    broadcast use vstd::seq_lib::group_to_multiset_ensures, vstd::multiset::group_multiset_axioms;
    if a.len() == 0 {
        assert(a.to_multiset().len() == 0);
        assert(b.to_multiset().len() == 0);
        assert(b.len() == 0);
    } else {
        let x = a.last();
        let a1 = a.drop_last();
        assert(a == a1.push(x));
        assert(a.to_multiset().count(x) > 0);
        assert(b.contains(x));
        let j = choose|j: int| 0 <= j < b.len() && b[j] == x;
        let b1 = b.remove(j);
        assert(a1.to_multiset() =~= b1.to_multiset());
        lemma_seq_count_perm(a1, b1);
        let p = b.subrange(0, j);
        let q = b.subrange(j + 1, b.len() as int);
        assert(b1 == p + q);
        assert(b == p.push(x) + q);
        lemma_seq_count_add(p, q);
        lemma_seq_count_add(p.push(x), q);
        assert(p.push(x).drop_last() == p);
    }
}

proof fn lemma_min_max(s: Seq<Entry>, ch: int)
    ensures
        0 <= seq_min(s, ch) <= 255,
        0 <= seq_max(s, ch) <= 255,
        s.len() > 0 ==> seq_min(s, ch) <= seq_max(s, ch),
        s.len() == 1 ==> seq_min(s, ch) == seq_max(s, ch),
    decreases s.len(),
{
    if s.len() > 0 {
        lemma_min_max(s.drop_last(), ch);
        if s.len() > 1 {
            lemma_min_max(s.drop_last(), ch);
        }
    }
}

proof fn lemma_chan_sum_bound(s: Seq<Entry>, ch: int)
    ensures
        0 <= chan_sum(s, ch) <= 255 * seq_count(s),
    decreases s.len(),
{
    if s.len() > 0 {
        lemma_chan_sum_bound(s.drop_last(), ch);
        let v = chan(s.last().0, ch);
        let n = s.last().1 as int;
        assert(0 <= v * n <= 255 * n) by (nonlinear_arith)
            requires 0 <= v <= 255, 0 <= n;
    }
}

// ---------------------------------------------------------------------------
// Median-cut boxes

/// A box of the median cut: a contiguous range of the entry vector (which is
/// re-sorted per split), the pixels it holds, and its widest channel.
#[derive(Clone, Copy)]
pub struct BoxRange {
    pub start: usize,
    pub end: usize,
    pub count: u64,
    pub widest_channel: usize,
    pub widest_range: u8,
}

/// The widest channel of the entries and its range; the first of equally
/// wide channels wins, and a range of 0 reports channel 0.
pub open spec fn widest(s: Seq<Entry>) -> (int, int) {
    let r0 = seq_max(s, 0) - seq_min(s, 0);
    let r1 = seq_max(s, 1) - seq_min(s, 1);
    let r2 = seq_max(s, 2) - seq_min(s, 2);
    let w0 = if r0 > 0 { (0int, r0) } else { (0int, 0int) };
    let w1 = if r1 > w0.1 { (1int, r1) } else { w0 };
    if r2 > w1.1 { (2int, r2) } else { w1 }
}

/// The box over the entries in `[start, end)`.
pub open spec fn measure_spec(e: Seq<Entry>, start: int, end: int) -> BoxRange {
    let s = e.subrange(start, end);
    let w = widest(s);
    BoxRange {
        start: start as usize,
        end: end as usize,
        count: seq_count(s) as u64,
        widest_channel: w.0 as usize,
        widest_range: w.1 as u8,
    }
}

proof fn lemma_widest(s: Seq<Entry>)
    requires
        s.len() > 0,
    ensures
        0 <= widest(s).0 <= 2,
        0 <= widest(s).1 <= 255,
        s.len() == 1 ==> widest(s).1 == 0,
{
    lemma_min_max(s, 0);
    lemma_min_max(s, 1);
    lemma_min_max(s, 2);
}

fn measure(e: &Vec<Entry>, start: usize, end: usize) -> (b: BoxRange)
    requires
        start < end <= e.len(),
        seq_count(e@.subrange(start as int, end as int)) <= u64::MAX,
    ensures
        b == measure_spec(e@, start as int, end as int),
        b.widest_channel <= 2,
        b.widest_range > 0 ==> end - start >= 2,
{
    let ghost s = e@.subrange(start as int, end as int);
    let mut min0: u8 = 255;
    let mut min1: u8 = 255;
    let mut min2: u8 = 255;
    let mut max0: u8 = 0;
    let mut max1: u8 = 0;
    let mut max2: u8 = 0;
    let mut count: u64 = 0;
    let mut i = start;
    while i < end
        invariant
            start <= i <= end <= e.len(),
            s == e@.subrange(start as int, end as int),
            seq_count(s) <= u64::MAX,
            min0 == seq_min(e@.subrange(start as int, i as int), 0),
            min1 == seq_min(e@.subrange(start as int, i as int), 1),
            min2 == seq_min(e@.subrange(start as int, i as int), 2),
            max0 == seq_max(e@.subrange(start as int, i as int), 0),
            max1 == seq_max(e@.subrange(start as int, i as int), 1),
            max2 == seq_max(e@.subrange(start as int, i as int), 2),
            count == seq_count(e@.subrange(start as int, i as int)),
        decreases end - i,
    {
        let (c, n) = e[i];
        let ghost p = e@.subrange(start as int, i as int);
        let ghost p1 = e@.subrange(start as int, i + 1);
        assert(p1.drop_last() == p);
        assert(p1 == s.take(i + 1 - start));
        proof {
            lemma_seq_count_add(p1, s.subrange(i + 1 - start, s.len() as int));
            assert(s == p1 + s.subrange(i + 1 - start, s.len() as int));
            lemma_seq_count_nonneg(s.subrange(i + 1 - start, s.len() as int));
        }
        if c.r < min0 { min0 = c.r; }
        if c.g < min1 { min1 = c.g; }
        if c.b < min2 { min2 = c.b; }
        if c.r > max0 { max0 = c.r; }
        if c.g > max1 { max1 = c.g; }
        if c.b > max2 { max2 = c.b; }
        count = count + n;
        i += 1;
    }
    assert(e@.subrange(start as int, i as int) == s);
    proof {
        lemma_widest(s);
        lemma_min_max(s, 0);
        lemma_min_max(s, 1);
        lemma_min_max(s, 2);
    }
    let r0 = max0 - min0;
    let r1 = max1 - min1;
    let r2 = max2 - min2;
    let mut wc: usize = 0;
    let mut wr: u8 = 0;
    if r0 > wr { wr = r0; wc = 0; }
    if r1 > wr { wr = r1; wc = 1; }
    if r2 > wr { wr = r2; wc = 2; }
    BoxRange { start, end, count, widest_channel: wc, widest_range: wr }
}


/// The box to split next: the one holding the most pixels among those that
/// still span more than one value of a channel, the first such box on ties.
pub open spec fn best(bx: Seq<BoxRange>, n: int) -> Option<int>
    decreases n,
{
    if n <= 0 {
        None
    } else {
        let prev = best(bx, n - 1);
        let b = bx[n - 1];
        if b.widest_range == 0 {
            prev
        } else {
            match prev {
                None => Some(n - 1),
                Some(p) => if b.count > bx[p].count { Some(n - 1) } else { prev },
            }
        }
    }
}

spec fn opt_int(o: Option<usize>) -> Option<int> {
    match o {
        Some(i) => Some(i as int),
        None => None,
    }
}

/// The box chosen for splitting is one that can be split.
pub proof fn lemma_best(bx: Seq<BoxRange>, n: int)
    requires
        0 <= n <= bx.len(),
    ensures
        best(bx, n) matches Some(i) ==> 0 <= i < n && bx[i].widest_range > 0,
    decreases n,
{
    if n > 0 {
        lemma_best(bx, n - 1);
    }
}

/// Weighted median of a box's entries: one past the first entry at which the
/// running pixel count passes `half`, or 1 when it never does.
pub open spec fn first_over(s: Seq<Entry>, half: int, i: int, acc: int) -> int
    decreases s.len() - i,
{
    if i < 0 || i >= s.len() {
        1
    } else {
        let a = acc + s[i].1;
        if a > half { i + 1 } else { first_over(s, half, i + 1, a) }
    }
}

/// `x` held within `[lo, hi]`.
pub open spec fn clamp(x: int, lo: int, hi: int) -> int {
    if x < lo { lo } else if x > hi { hi } else { x }
}

/// A box's entries sorted along channel `ch`.
pub open spec fn sort_box(s: Seq<Entry>, ch: int) -> Seq<Entry> {
    s.sort_by(key_leq(entry_key_fn(ch)))
}

/// Split box `idx`: it leaves the list by a swap-remove, its entries are
/// sorted along its widest channel, and its two halves at the weighted median
/// (each non-empty) are appended.
pub open spec fn split(e: Seq<Entry>, bx: Seq<BoxRange>, idx: int) -> (Seq<Entry>, Seq<BoxRange>) {
    let b = bx[idx];
    let st = b.start as int;
    let en = b.end as int;
    let e1 = e.subrange(0, st) + sort_box(e.subrange(st, en), b.widest_channel as int)
        + e.subrange(en, e.len() as int);
    let cut = clamp(st + first_over(e1.subrange(st, en), (b.count / 2) as int, 0, 0), st + 1, en - 1);
    (e1, bx.update(idx, bx.last()).drop_last().push(measure_spec(e1, st, cut)).push(measure_spec(e1, cut, en)))
}

/// Keep splitting until there are `k` boxes or no box can be split.
pub open spec fn run(e: Seq<Entry>, bx: Seq<BoxRange>, k: int) -> (Seq<Entry>, Seq<BoxRange>)
    decreases k - bx.len(),
{
    if bx.len() >= k {
        (e, bx)
    } else {
        match best(bx, bx.len() as int) {
            None => (e, bx),
            Some(idx) => {
                proof {
                    lemma_best(bx, bx.len() as int);
                }
                let p = split(e, bx, idx);
                run(p.0, p.1, k)
            },
        }
    }
}

/// `sum / count` rounded half away from zero; 0 for an empty box.
pub open spec fn mean(sum: int, count: int) -> int {
    if count == 0 { 0 } else { (2 * sum + count) / (2 * count) }
}

/// A box as a cluster: the rounded mean color of its pixels, and their count.
pub open spec fn to_cluster(e: Seq<Entry>, b: BoxRange) -> Cluster {
    let s = e.subrange(b.start as int, b.end as int);
    Cluster {
        color: Rgb8 {
            r: mean(chan_sum(s, 0), b.count as int) as u8,
            g: mean(chan_sum(s, 1), b.count as int) as u8,
            b: mean(chan_sum(s, 2), b.count as int) as u8,
        },
        count: b.count,
    }
}

/// What `median_cut` returns: the boxes left when splitting stops, each as
/// its rounded mean color and pixel count, ordered by count descending and
/// color ascending.
pub open spec fn spec_median_cut(e: Seq<Entry>, k: int) -> Seq<Cluster> {
    if e.len() == 0 || k <= 0 {
        Seq::empty()
    } else {
        let r = run(e, seq![measure_spec(e, 0, e.len() as int)], k);
        r.1.map_values(|b: BoxRange| to_cluster(r.0, b)).sort_by(key_leq(|c: Cluster| cluster_key(c)))
    }
}

spec fn disjoint(a: BoxRange, b: BoxRange) -> bool {
    a.end <= b.start || b.end <= a.start
}

spec fn wf_boxes(e: Seq<Entry>, bx: Seq<BoxRange>) -> bool {
    &&& forall|i: int| 0 <= i < bx.len() ==> {
        &&& (#[trigger] bx[i]).start < bx[i].end <= e.len()
        &&& bx[i] == measure_spec(e, bx[i].start as int, bx[i].end as int)
    }
    &&& forall|i: int, j: int| 0 <= i < bx.len() && 0 <= j < bx.len() && i != j
        ==> disjoint(#[trigger] bx[i], #[trigger] bx[j])
}

/// Replacing the range `[st, en)` of `e` leaves every range outside it alone.
proof fn lemma_replace_range(e: Seq<Entry>, st: int, en: int, mid: Seq<Entry>)
    requires
        0 <= st <= en <= e.len(),
        mid.len() == en - st,
    ensures
        ({
            let e1 = e.subrange(0, st) + mid + e.subrange(en, e.len() as int);
            &&& e1.len() == e.len()
            &&& e1.subrange(st, en) == mid
            &&& forall|s: int, t: int| 0 <= s <= t <= e.len() && (t <= st || en <= s)
                ==> #[trigger] e1.subrange(s, t) == e.subrange(s, t)
        }),
{
    let e1 = e.subrange(0, st) + mid + e.subrange(en, e.len() as int);
    assert(e1.subrange(st, en) =~= mid);
    assert forall|s: int, t: int| 0 <= s <= t <= e.len() && (t <= st || en <= s)
        implies #[trigger] e1.subrange(s, t) == e.subrange(s, t) by {
        assert(e1.subrange(s, t) =~= e.subrange(s, t));
    }
}

proof fn lemma_split_wf(e: Seq<Entry>, bx: Seq<BoxRange>, idx: int)
    requires
        wf_boxes(e, bx),
        seq_count(e) <= u64::MAX,
        0 <= idx < bx.len(),
        bx[idx].widest_range > 0,
    ensures
        ({
            let p = split(e, bx, idx);
            &&& wf_boxes(p.0, p.1)
            &&& p.0.len() == e.len()
            &&& seq_count(p.0) == seq_count(e)
            &&& p.1.len() == bx.len() + 1
        }),
{
    broadcast use vstd::seq_lib::group_to_multiset_ensures;
    let b = bx[idx];
    let st = b.start as int;
    let en = b.end as int;
    let ch = b.widest_channel as int;
    let seg = e.subrange(st, en);
    lemma_keys_injective(ch);
    crate::sort::lemma_key_total(entry_key_fn(ch));
    seg.lemma_sort_by_ensures(key_leq(entry_key_fn(ch)));
    let sorted = sort_box(seg, ch);
    assert(sorted.len() == seg.len()) by {
        assert(sorted.to_multiset().len() == seg.to_multiset().len());
    }
    lemma_replace_range(e, st, en, sorted);
    let p = split(e, bx, idx);
    let e1 = p.0;
    assert(e == e.subrange(0, st) + seg + e.subrange(en, e.len() as int));
    lemma_seq_count_perm(seg, sorted);
    lemma_seq_count_add(e.subrange(0, st), seg);
    lemma_seq_count_add(e.subrange(0, st) + seg, e.subrange(en, e.len() as int));
    lemma_seq_count_add(e.subrange(0, st), sorted);
    lemma_seq_count_add(e.subrange(0, st) + sorted, e.subrange(en, e.len() as int));
    let cut = clamp(st + first_over(e1.subrange(st, en), (b.count / 2) as int, 0, 0), st + 1, en - 1);
    lemma_widest(seg);
    assert(en - st >= 2);
    assert(st < cut < en);
    let rest = bx.update(idx, bx.last()).drop_last();
    let orig = |q: int| if q == idx { bx.len() - 1 } else { q };
    assert forall|q: int| 0 <= q < rest.len() implies #[trigger] rest[q] == bx[orig(q)] && orig(q) != idx
        && 0 <= orig(q) < bx.len() by {
    }
    let n1 = measure_spec(e1, st, cut);
    let n2 = measure_spec(e1, cut, en);
    let bx2 = p.1;
    assert(bx2 == rest.push(n1).push(n2));
    assert forall|i: int| 0 <= i < bx2.len() implies {
        &&& (#[trigger] bx2[i]).start < bx2[i].end <= e1.len()
        &&& bx2[i] == measure_spec(e1, bx2[i].start as int, bx2[i].end as int)
    } by {
        if i < rest.len() {
            let o = orig(i);
            assert(disjoint(bx[o], bx[idx]));
            assert(e1.subrange(bx[o].start as int, bx[o].end as int) == e.subrange(bx[o].start as int, bx[o].end as int));
        }
    }
    assert forall|i: int, j: int| 0 <= i < bx2.len() && 0 <= j < bx2.len() && i != j
        implies disjoint(#[trigger] bx2[i], #[trigger] bx2[j]) by {
        if i < rest.len() && j < rest.len() {
            assert(disjoint(bx[orig(i)], bx[orig(j)]));
        } else if i < rest.len() {
            assert(disjoint(bx[orig(i)], bx[idx]));
        } else if j < rest.len() {
            assert(disjoint(bx[orig(j)], bx[idx]));
        }
    }
}

/// Median-cut the histogram into at most `k` clusters, sorted by weight
/// descending (ties broken by hex ascending). Returns an empty vec when the
/// histogram is empty.
pub fn median_cut(entries: Vec<Entry>, k: usize) -> (r: Vec<Cluster>)
    requires
        entries@.len() == 0 || k == 0 || seq_count(entries@) <= u64::MAX,
    ensures
        r@ == spec_median_cut(entries@, k as int),
{
    if entries.len() == 0 || k == 0 {
        return Vec::new();
    }
    let ghost e0 = entries@;
    let mut entries = entries;
    let len = entries.len();
    proof {
        lemma_seq_count_subrange(e0, 0, len as int);
        assert(e0.subrange(0, len as int) == e0);
    }
    let first = measure(&entries, 0, len);
    let mut boxes: Vec<BoxRange> = Vec::new();
    boxes.push(first);
    let ghost b0 = boxes@;
    assert(b0 == seq![measure_spec(e0, 0, len as int)]);
    let mut done = false;
    while !done && boxes.len() < k
        invariant
            entries.len() == len,
            seq_count(entries@) == seq_count(e0),
            seq_count(e0) <= u64::MAX,
            wf_boxes(entries@, boxes@),
            run(entries@, boxes@, k as int) == run(e0, b0, k as int),
            done ==> best(boxes@, boxes@.len() as int) is None,
            boxes.len() >= 1,
        decreases k - boxes.len() + (if done { 0int } else { 1int }),
    {
        // Pick the box to split.
        let mut cand: Option<usize> = None;
        for i in 0..boxes.len()
            invariant
                opt_int(cand) == best(boxes@, i as int),
        {
            proof {
                lemma_best(boxes@, i as int);
            }
            let b = boxes[i];
            if b.widest_range > 0 {
                match cand {
                    None => { cand = Some(i); }
                    Some(p) => {
                        if b.count > boxes[p].count {
                            cand = Some(i);
                        }
                    }
                }
            }
        }
        assert(boxes@.take(boxes.len() as int) == boxes@);
        match cand {
            None => {
                done = true;
                assert(best(boxes@, boxes@.len() as int) is None);
            }
            Some(idx) => {
                let ghost e = entries@;
                let ghost bx = boxes@;
                proof {
                    lemma_best(bx, bx.len() as int);
                    lemma_split_wf(e, bx, idx as int);
                    lemma_widest(e.subrange(bx[idx as int].start as int, bx[idx as int].end as int));
                }
                let b = boxes.swap_remove(idx);
                let st = b.start;
                let en = b.end;
                let ch = b.widest_channel;
                assert(en - st >= 2);
                // Sort the box's entries along its widest channel.
                let mut sub: Vec<Entry> = Vec::new();
                for i in st..en
                    invariant
                        sub@ == entries@.subrange(st as int, i as int),
                        st <= en <= entries.len(),
                {
                    sub.push(entries[i]);
                    assert(entries@.subrange(st as int, i + 1) == entries@.subrange(st as int, i as int).push(entries@[i as int]));
                }
                let key = |x: &Entry| -> (out: Key)
                    ensures
                        out == entry_key(ch as int, *x),
                    { (channel(x.0, ch) as u64, pack_exec(x.0), x.1) };
                proof {
                    lemma_keys_injective(ch as int);
                }
                let sorted = sort_by_key(&sub, &key, Ghost(entry_key_fn(ch as int)));
                proof {
                    broadcast use vstd::seq_lib::group_to_multiset_ensures;
                    assert(sorted@.to_multiset().len() == sub@.to_multiset().len());
                }
                for i in 0..sorted.len()
                    invariant
                        entries.len() == e.len(),
                        sorted.len() == en - st,
                        st <= en <= e.len(),
                        forall|p: int| 0 <= p < e.len() ==> #[trigger] entries@[p]
                            == if st <= p < st + i { sorted@[p - st] } else { e[p] },
                {
                    entries.set(st + i, sorted[i]);
                }
                let ghost sp = split(e, bx, idx as int);
                assert(entries@ =~= sp.0);
                // Weighted median split point.
                let ghost seg = entries@.subrange(st as int, en as int);
                let half = b.count / 2;
                let n = en - st;
                let mut acc: u64 = 0;
                let mut res: usize = 1;
                let mut found = false;
                let mut i: usize = 0;
                proof {
                    lemma_seq_count_subrange(entries@, st as int, en as int);
                }
                while i < n && !found
                    invariant
                        0 <= i <= n,
                        n == seg.len(),
                        seg == entries@.subrange(st as int, en as int),
                        st + n <= entries.len(),
                        en == st + n,
                        seq_count(seg) <= u64::MAX,
                        acc == seq_count(seg.take(i as int)),
                        first_over(seg, half as int, 0, 0)
                            == if found { res as int } else { first_over(seg, half as int, i as int, acc as int) },
                        !found ==> res == 1,
                        found ==> 1 <= res <= n,
                    decreases n - i + (if found { 0int } else { 1int }),
                {
                    let m = entries[st + i].1;
                    assert(seg[i as int] == entries@[st + i]);
                    proof {
                        assert(seg.take(i + 1).drop_last() == seg.take(i as int));
                        lemma_seq_count_subrange(seg, 0, i + 1);
                        assert(seg.take(i + 1) == seg.subrange(0, i + 1));
                    }
                    let a = acc + m;
                    if a > half {
                        res = i + 1;
                        found = true;
                    } else {
                        acc = a;
                        i += 1;
                    }
                }
                let c = st + res;
                let cut = if c < st + 1 { st + 1 } else if c > en - 1 { en - 1 } else { c };
                proof {
                    lemma_seq_count_subrange(entries@, st as int, cut as int);
                    lemma_seq_count_subrange(entries@, cut as int, en as int);
                }
                let m1 = measure(&entries, st, cut);
                let m2 = measure(&entries, cut, en);
                boxes.push(m1);
                boxes.push(m2);
                assert(boxes@ == sp.1);
            }
        }
    }
    assert(run(entries@, boxes@, k as int) == (entries@, boxes@));
    // Each box becomes a cluster of its rounded mean color.
    let mut clusters: Vec<Cluster> = Vec::new();
    for i in 0..boxes.len()
        invariant
            wf_boxes(entries@, boxes@),
            seq_count(entries@) <= u64::MAX,
            clusters@ == boxes@.take(i as int).map_values(|b: BoxRange| to_cluster(entries@, b)),
    {
        let b = boxes[i];
        let ghost s = entries@.subrange(b.start as int, b.end as int);
        proof {
            lemma_seq_count_subrange(entries@, b.start as int, b.end as int);
        }
        let mut s0: u128 = 0;
        let mut s1: u128 = 0;
        let mut s2: u128 = 0;
        for j in b.start..b.end
            invariant
                b.start < b.end <= entries.len(),
                s == entries@.subrange(b.start as int, b.end as int),
                seq_count(s) <= u64::MAX,
                s0 == chan_sum(entries@.subrange(b.start as int, j as int), 0),
                s1 == chan_sum(entries@.subrange(b.start as int, j as int), 1),
                s2 == chan_sum(entries@.subrange(b.start as int, j as int), 2),
        {
            let (c, m) = entries[j];
            let ghost p1 = entries@.subrange(b.start as int, j + 1);
            proof {
                assert(p1.drop_last() == entries@.subrange(b.start as int, j as int));
                assert(p1 == s.subrange(0, j + 1 - b.start));
                lemma_seq_count_subrange(s, 0, j + 1 - b.start);
                lemma_chan_sum_bound(p1, 0);
                lemma_chan_sum_bound(p1, 1);
                lemma_chan_sum_bound(p1, 2);
            }
            s0 = s0 + c.r as u128 * m as u128;
            s1 = s1 + c.g as u128 * m as u128;
            s2 = s2 + c.b as u128 * m as u128;
        }
        assert(entries@.subrange(b.start as int, b.end as int) == s);
        proof {
            lemma_chan_sum_bound(s, 0);
            lemma_chan_sum_bound(s, 1);
            lemma_chan_sum_bound(s, 2);
        }
        let color = Rgb8 { r: mean_exec(s0, b.count), g: mean_exec(s1, b.count), b: mean_exec(s2, b.count) };
        clusters.push(Cluster { color, count: b.count });
        assert(boxes@.take(i + 1) == boxes@.take(i as int).push(b));
    }
    assert(boxes@.take(boxes.len() as int) == boxes@);
    let ckey = |c: &Cluster| -> (out: Key)
        ensures
            out == cluster_key(*c),
        { (u64::MAX - c.count, pack_exec(c.color), 0u64) };
    proof {
        lemma_keys_injective(0);
    }
    sort_by_key(&clusters, &ckey, Ghost(|c: Cluster| cluster_key(c)))
}

fn mean_exec(sum: u128, count: u64) -> (m: u8)
    requires
        sum <= 255 * count,
    ensures
        m == mean(sum as int, count as int),
{
    if count == 0 {
        0
    } else {
        let c = count as u128;
        assert((2 * sum + c) / (2 * c) <= 255) by (nonlinear_arith)
            requires sum <= 255 * c, c > 0;
        ((2 * sum + c) / (2 * c)) as u8
    }
}


// ---------------------------------------------------------------------------
// What every split keeps

spec fn count_w() -> spec_fn(BoxRange) -> int {
    |b: BoxRange| b.count as int
}

spec fn size_w() -> spec_fn(BoxRange) -> int {
    |b: BoxRange| b.end - b.start
}

/// The boxes partition the entries: well formed, their pixel counts and
/// their sizes adding up to those of the whole histogram.
spec fn partition(e: Seq<Entry>, bx: Seq<BoxRange>) -> bool {
    &&& wf_boxes(e, bx)
    &&& seq_count(e) <= u64::MAX
    &&& sum_by(bx, count_w()) == seq_count(e)
    &&& sum_by(bx, size_w()) == e.len()
}

proof fn lemma_split_partition(e: Seq<Entry>, bx: Seq<BoxRange>, idx: int)
    requires
        partition(e, bx),
        0 <= idx < bx.len(),
        bx[idx].widest_range > 0,
    ensures
        ({
            let p = split(e, bx, idx);
            &&& partition(p.0, p.1)
            &&& p.0.to_multiset() == e.to_multiset()
            &&& p.1.len() == bx.len() + 1
        }),
{
    broadcast use vstd::seq_lib::group_to_multiset_ensures, vstd::multiset::group_multiset_axioms;
    lemma_split_wf(e, bx, idx);
    let b = bx[idx];
    let st = b.start as int;
    let en = b.end as int;
    let ch = b.widest_channel as int;
    let seg = e.subrange(st, en);
    lemma_keys_injective(ch);
    crate::sort::lemma_key_total(entry_key_fn(ch));
    seg.lemma_sort_by_ensures(key_leq(entry_key_fn(ch)));
    let sorted = sort_box(seg, ch);
    let p = split(e, bx, idx);
    let e1 = p.0;
    let a = e.subrange(0, st);
    let c = e.subrange(en, e.len() as int);
    assert(e == a + seg + c);
    assert(e1 == a + sorted + c);
    vstd::seq_lib::lemma_multiset_commutative(a, seg);
    vstd::seq_lib::lemma_multiset_commutative(a + seg, c);
    vstd::seq_lib::lemma_multiset_commutative(a, sorted);
    vstd::seq_lib::lemma_multiset_commutative(a + sorted, c);
    assert(e1.to_multiset() =~= e.to_multiset());
    let cut = clamp(st + first_over(e1.subrange(st, en), (b.count / 2) as int, 0, 0), st + 1, en - 1);
    let rest = bx.update(idx, bx.last()).drop_last();
    let n1 = measure_spec(e1, st, cut);
    let n2 = measure_spec(e1, cut, en);
    assert(p.1 == rest.push(n1).push(n2));
    lemma_sum_swap_remove(bx, idx, count_w());
    lemma_sum_swap_remove(bx, idx, size_w());
    assert(rest.push(n1).push(n2).drop_last() == rest.push(n1));
    assert(rest.push(n1).drop_last() == rest);
    // The two halves hold the pixels of the box.
    lemma_replace_range(e, st, en, sorted);
    assert(e1.subrange(st, en) == e1.subrange(st, cut) + e1.subrange(cut, en));
    lemma_seq_count_add(e1.subrange(st, cut), e1.subrange(cut, en));
    lemma_seq_count_perm(seg, sorted);
    lemma_seq_count_subrange(e1, st, cut);
    lemma_seq_count_subrange(e1, cut, en);
    lemma_seq_count_subrange(e, st, en);
    lemma_seq_count_nonneg(e1.subrange(st, cut));
    lemma_seq_count_nonneg(e1.subrange(cut, en));
    assert(b.count == seq_count(seg));
    assert(n1.count == seq_count(e1.subrange(st, cut)));
    assert(n2.count == seq_count(e1.subrange(cut, en)));
    assert(sum_by(rest.push(n1), count_w()) == sum_by(rest, count_w()) + n1.count);
    assert(sum_by(rest.push(n1).push(n2), count_w()) == sum_by(rest.push(n1), count_w()) + n2.count);
    assert(sum_by(rest.push(n1), size_w()) == sum_by(rest, size_w()) + (n1.end - n1.start));
    assert(sum_by(rest.push(n1).push(n2), size_w()) == sum_by(rest.push(n1), size_w()) + (n2.end - n2.start));
    assert(sum_by(p.1, count_w()) == seq_count(e1));
    assert(sum_by(p.1, size_w()) == e1.len());
}

proof fn lemma_run(e: Seq<Entry>, bx: Seq<BoxRange>, k: int)
    requires
        partition(e, bx),
        bx.len() >= 1,
    ensures
        ({
            let r = run(e, bx, k);
            &&& partition(r.0, r.1)
            &&& r.0.to_multiset() == e.to_multiset()
            &&& r.1.len() >= bx.len()
            &&& bx.len() <= k ==> r.1.len() <= k
            &&& r.1.len() >= k || best(r.1, r.1.len() as int) is None
        }),
    decreases k - bx.len(),
{
    if bx.len() < k {
        match best(bx, bx.len() as int) {
            None => {},
            Some(idx) => {
                lemma_best(bx, bx.len() as int);
                lemma_split_partition(e, bx, idx);
                let p = split(e, bx, idx);
                lemma_run(p.0, p.1, k);
            },
        }
    }
}

proof fn lemma_start_partition(e: Seq<Entry>)
    requires
        0 < e.len() <= usize::MAX,
        seq_count(e) <= u64::MAX,
    ensures
        partition(e, seq![measure_spec(e, 0, e.len() as int)]),
{
    let b = measure_spec(e, 0, e.len() as int);
    assert(e.subrange(0, e.len() as int) == e);
    lemma_seq_count_nonneg(e);
    assert(seq![b].drop_last() == Seq::<BoxRange>::empty());
    assert(sum_by(Seq::<BoxRange>::empty(), count_w()) == 0);
    assert(sum_by(Seq::<BoxRange>::empty(), size_w()) == 0);
    assert(sum_by(seq![b], count_w()) == count_w()(b));
    assert(sum_by(seq![b], size_w()) == size_w()(b));
    assert(wf_boxes(e, seq![b]));
}

/// The boxes that median-cut ends with, and the entries as it left them.
proof fn lemma_final_boxes(e: Seq<Entry>, k: int) -> (r: (Seq<Entry>, Seq<BoxRange>))
    requires
        0 < e.len() <= usize::MAX,
        k > 0,
        seq_count(e) <= u64::MAX,
    ensures
        r == run(e, seq![measure_spec(e, 0, e.len() as int)], k),
        partition(r.0, r.1),
        r.0.to_multiset() == e.to_multiset(),
        1 <= r.1.len() <= k,
        r.1.len() <= e.len(),
        spec_median_cut(e, k) == r.1.map_values(|b: BoxRange| to_cluster(r.0, b)).sort_by(key_leq(|c: Cluster| cluster_key(c))),
{
    lemma_start_partition(e);
    lemma_run(e, seq![measure_spec(e, 0, e.len() as int)], k);
    let r = run(e, seq![measure_spec(e, 0, e.len() as int)], k);
    assert forall|i: int| 0 <= i < r.1.len() implies #[trigger] size_w()(r.1[i]) >= 1 by {
        assert(r.1[i].start < r.1[i].end);
    }
    lemma_sum_at_least_len(r.1, size_w());
    broadcast use vstd::seq_lib::group_to_multiset_ensures;
    assert(r.0.to_multiset().len() == e.to_multiset().len());
    r
}

/// Median-cut returns at most `k` clusters, never more clusters than the
/// histogram has entries (it does not pad), and none exactly when the
/// histogram is empty or `k` is zero.
pub proof fn lemma_median_cut_size(e: Seq<Entry>, k: int)
    requires
        e.len() <= usize::MAX,
        seq_count(e) <= u64::MAX,
    ensures
        spec_median_cut(e, k).len() <= k || k < 0,
        spec_median_cut(e, k).len() <= e.len(),
        spec_median_cut(e, k).len() == 0 <==> (e.len() == 0 || k <= 0),
{
    broadcast use vstd::seq_lib::group_to_multiset_ensures;
    if e.len() > 0 && k > 0 {
        let r = lemma_final_boxes(e, k);
        let cs = r.1.map_values(|b: BoxRange| to_cluster(r.0, b));
        lemma_keys_injective(0);
        crate::sort::lemma_key_total(|c: Cluster| cluster_key(c));
        cs.lemma_sort_by_ensures(key_leq(|c: Cluster| cluster_key(c)));
        assert(spec_median_cut(e, k).to_multiset().len() == cs.to_multiset().len());
    }
}

/// Every counted pixel of the histogram lands in exactly one cluster: the
/// cluster counts add up to the histogram's pixel count, so the weights add
/// up to one.
pub proof fn lemma_median_cut_total(e: Seq<Entry>, k: int)
    requires
        e.len() <= usize::MAX,
        seq_count(e) <= u64::MAX,
        e.len() > 0,
        k > 0,
    ensures
        sum_by(spec_median_cut(e, k), |c: Cluster| c.count as int) == seq_count(e),
{
    let r = lemma_final_boxes(e, k);
    let f = |b: BoxRange| to_cluster(r.0, b);
    let cs = r.1.map_values(f);
    lemma_keys_injective(0);
    crate::sort::lemma_key_total(|c: Cluster| cluster_key(c));
    cs.lemma_sort_by_ensures(key_leq(|c: Cluster| cluster_key(c)));
    let w = |c: Cluster| c.count as int;
    lemma_sum_perm(spec_median_cut(e, k), cs, w);
    lemma_sum_map(r.1, f, w);
    assert((|x: BoxRange| w(f(x))) =~= count_w());
    lemma_seq_count_perm(r.0, e);
    assert(w =~= (|c: Cluster| c.count as int));
}

/// Clusters come heaviest first; clusters of equal weight come in ascending
/// color order.
pub proof fn lemma_median_cut_order(e: Seq<Entry>, k: int)
    requires
        e.len() <= usize::MAX,
        seq_count(e) <= u64::MAX,
    ensures
        forall|i: int, j: int| 0 <= i < j < spec_median_cut(e, k).len() ==> {
            let a = #[trigger] spec_median_cut(e, k)[i];
            let b = #[trigger] spec_median_cut(e, k)[j];
            a.count > b.count || (a.count == b.count && pack(a.color) <= pack(b.color))
        },
{
    if e.len() > 0 && k > 0 {
        let r = lemma_final_boxes(e, k);
        let cs = r.1.map_values(|b: BoxRange| to_cluster(r.0, b));
        lemma_keys_injective(0);
        crate::sort::lemma_key_total(|c: Cluster| cluster_key(c));
        cs.lemma_sort_by_ensures(key_leq(|c: Cluster| cluster_key(c)));
        let m = spec_median_cut(e, k);
        assert forall|i: int, j: int| 0 <= i < j < m.len() implies {
            let a = #[trigger] m[i];
            let b = #[trigger] m[j];
            a.count > b.count || (a.count == b.count && pack(a.color) <= pack(b.color))
        } by {
            assert(key_leq(|c: Cluster| cluster_key(c))(m[i], m[j]));
            lemma_pack(m[i].color, m[j].color);
            lemma_pack(m[j].color, m[i].color);
        }
    }
}

/// The histogram depends on the pixels as a multiset only: the same pixels
/// in any order give the same histogram.
pub proof fn lemma_histogram_order_independent(a: Seq<Rgb8>, b: Seq<Rgb8>)
    requires
        a.to_multiset() == b.to_multiset(),
    ensures
        spec_histogram(a) == spec_histogram(b),
{
    let leq = key_leq(|c: Rgb8| pixel_key(c));
    lemma_keys_injective(0);
    crate::sort::lemma_key_total(|c: Rgb8| pixel_key(c));
    a.lemma_sort_by_ensures(leq);
    b.lemma_sort_by_ensures(leq);
    vstd::seq_lib::lemma_sorted_unique(a.sort_by(leq), b.sort_by(leq), leq);
}

/// Palette extraction is deterministic regardless of input order: pixels
/// given in any order yield the same clusters.
pub proof fn lemma_extraction_order_independent(a: Seq<Rgb8>, b: Seq<Rgb8>, k: int)
    requires
        a.to_multiset() == b.to_multiset(),
    ensures
        spec_median_cut(spec_histogram(a), k) == spec_median_cut(spec_histogram(b), k),
{
    lemma_histogram_order_independent(a, b);
}

/// Run-length encoding of colors sorted by `pack` lists each color once, in
/// ascending order, with its number of occurrences.
proof fn lemma_runs(s: Seq<Rgb8>)
    requires
        forall|i: int, j: int| 0 <= i < j < s.len() ==> pack(#[trigger] s[i]) <= pack(#[trigger] s[j]),
        s.len() <= u64::MAX,
    ensures
        forall|i: int, j: int| 0 <= i < j < runs(s).len() ==> pack(#[trigger] runs(s)[i].0) < pack(#[trigger] runs(s)[j].0),
        forall|i: int| 0 <= i < runs(s).len() ==> (#[trigger] runs(s)[i]).1 == s.to_multiset().count(runs(s)[i].0),
        forall|i: int| 0 <= i < runs(s).len() ==> (#[trigger] runs(s)[i]).1 >= 1,
        forall|c: Rgb8| s.to_multiset().count(c) > 0 ==> exists|i: int| 0 <= i < runs(s).len() && (#[trigger] runs(s)[i]).0 == c,
        s.len() > 0 ==> runs(s).len() > 0 && runs(s).last().0 == s.last(),
    decreases s.len(),
{
    broadcast use vstd::seq_lib::group_to_multiset_ensures;
    if s.len() == 0 {
        assert(s.to_multiset() =~= vstd::multiset::Multiset::<Rgb8>::empty());
    } else {
        let s0 = s.drop_last();
        let x = s.last();
        assert forall|i: int, j: int| 0 <= i < j < s0.len() implies pack(#[trigger] s0[i]) <= pack(#[trigger] s0[j]) by {
            assert(s0[i] == s[i] && s0[j] == s[j]);
        }
        lemma_runs(s0);
        lemma_runs_counts(s0);
        let r0 = runs(s0);
        let r = runs(s);
        assert(s0.push(x) == s);
        let m0 = s0.to_multiset();
        let m = s.to_multiset();
        assert(m == m0.insert(x));
        if r0.len() > 0 && r0.last().0 == x {
            let n = r0.len() - 1;
            assert(r == r0.update(n, (x, (r0.last().1 + 1) as u64)));
            assert(r0[n].1 <= s0.len());
            assert forall|i: int| 0 <= i < r.len() implies (#[trigger] r[i]).1 == m.count(r[i].0) && r[i].1 >= 1 by {
                if i < n {
                    assert(pack(r0[i].0) < pack(r0[n].0));
                    assert(r[i] == r0[i]);
                }
            }
            assert forall|c: Rgb8| m.count(c) > 0 implies exists|i: int| 0 <= i < r.len() && (#[trigger] r[i]).0 == c by {
                if c == x {
                    assert(r[n].0 == c);
                } else {
                    assert(m0.count(c) > 0);
                    let i = choose|i: int| 0 <= i < r0.len() && (#[trigger] r0[i]).0 == c;
                    assert(r[i].0 == c);
                }
            }
            assert forall|i: int, j: int| 0 <= i < j < r.len() implies pack(#[trigger] r[i].0) < pack(#[trigger] r[j].0) by {
                assert(r[i].0 == r0[i].0 && r[j].0 == r0[j].0);
            }
        } else {
            assert(r == r0.push((x, 1u64)));
            let n = r0.len() as int;
            if s0.len() > 0 {
                assert(r0.last().0 == s0.last());
                assert(pack(s0.last()) <= pack(x)) by {
                    assert(s[s0.len() - 1] == s0.last());
                    assert(s[s.len() - 1] == x);
                }
                crate::quantize::lemma_pack(s0.last(), x);
                assert(pack(s0.last()) < pack(x));
            }
            assert(m0.count(x) == 0) by {
                if m0.count(x) > 0 {
                    assert(s0.contains(x));
                    let k = choose|k: int| 0 <= k < s0.len() && s0[k] == x;
                    if k < s0.len() - 1 {
                        assert(pack(s0[k]) <= pack(s0[s0.len() - 1]));
                    }
                    assert(s0[s0.len() - 1] == s0.last());
                    lemma_pack(s0.last(), x);
                }
            }
            assert forall|i: int| 0 <= i < r.len() implies (#[trigger] r[i]).1 == m.count(r[i].0) && r[i].1 >= 1 by {
                if i < n {
                    if i < n - 1 {
                        assert(pack(r0[i].0) < pack(r0[n - 1].0));
                    }
                    assert(r[i] == r0[i]);
                    assert(r0[i].0 != x);
                }
            }
            assert forall|c: Rgb8| m.count(c) > 0 implies exists|i: int| 0 <= i < r.len() && (#[trigger] r[i]).0 == c by {
                if c == x {
                    assert(r[n].0 == c);
                } else {
                    assert(m0.count(c) > 0);
                    let i = choose|i: int| 0 <= i < r0.len() && (#[trigger] r0[i]).0 == c;
                    assert(r[i].0 == c);
                }
            }
            assert forall|i: int, j: int| 0 <= i < j < r.len() implies pack(#[trigger] r[i].0) < pack(#[trigger] r[j].0) by {
                if j < n {
                    assert(r[i].0 == r0[i].0 && r[j].0 == r0[j].0);
                } else {
                    assert(r[i].0 == r0[i].0);
                    if i < n - 1 {
                        assert(pack(r0[i].0) < pack(r0[n - 1].0));
                    }
                }
            }
        }
    }
}

/// The histogram lists every color of the pixels exactly once, in ascending
/// color order, with the number of pixels that have it.
pub proof fn lemma_histogram_counts(px: Seq<Rgb8>)
    requires
        px.len() <= u64::MAX,
    ensures
        forall|i: int, j: int| 0 <= i < j < spec_histogram(px).len()
            ==> pack(#[trigger] spec_histogram(px)[i].0) < pack(#[trigger] spec_histogram(px)[j].0),
        forall|i: int| 0 <= i < spec_histogram(px).len()
            ==> (#[trigger] spec_histogram(px)[i]).1 == px.to_multiset().count(spec_histogram(px)[i].0),
        forall|c: Rgb8| px.contains(c) <==> exists|i: int| 0 <= i < spec_histogram(px).len() && (#[trigger] spec_histogram(px)[i]).0 == c,
{
    broadcast use vstd::seq_lib::group_to_multiset_ensures;
    let leq = key_leq(|c: Rgb8| pixel_key(c));
    lemma_keys_injective(0);
    crate::sort::lemma_key_total(|c: Rgb8| pixel_key(c));
    px.lemma_sort_by_ensures(leq);
    let srt = px.sort_by(leq);
    assert(srt.len() == px.len()) by {
        assert(srt.to_multiset().len() == px.to_multiset().len());
    }
    assert forall|i: int, j: int| 0 <= i < j < srt.len() implies pack(#[trigger] srt[i]) <= pack(#[trigger] srt[j]) by {
        assert(leq(srt[i], srt[j]));
        lemma_pack(srt[i], srt[j]);
        lemma_pack(srt[j], srt[i]);
    }
    lemma_runs(srt);
    let h = spec_histogram(px);
    assert(h == runs(srt));
    assert forall|c: Rgb8| px.contains(c) <==> exists|i: int| 0 <= i < h.len() && (#[trigger] h[i]).0 == c by {
        if exists|i: int| 0 <= i < h.len() && (#[trigger] h[i]).0 == c {
            let i = choose|i: int| 0 <= i < h.len() && (#[trigger] h[i]).0 == c;
            assert(h[i].1 >= 1);
        }
    }
}

// ---------------------------------------------------------------------------
// Few colors come back exactly

/// An entry as the cluster of its own color and count.
pub open spec fn as_cluster(x: Entry) -> Cluster {
    Cluster { color: x.0, count: x.1 }
}

/// No two entries share a color, as in a histogram.
pub open spec fn distinct_colors(e: Seq<Entry>) -> bool {
    forall|i: int, j: int| 0 <= i < j < e.len() ==> (#[trigger] e[i]).0 != (#[trigger] e[j]).0
}

proof fn lemma_min_max_bounds(s: Seq<Entry>, ch: int)
    ensures
        forall|i: int| 0 <= i < s.len() ==> seq_min(s, ch) <= chan((#[trigger] s[i]).0, ch) <= seq_max(s, ch),
    decreases s.len(),
{
    if s.len() > 0 {
        lemma_min_max_bounds(s.drop_last(), ch);
        assert forall|i: int| 0 <= i < s.len() implies seq_min(s, ch) <= chan((#[trigger] s[i]).0, ch) <= seq_max(s, ch) by {
            if i < s.len() - 1 {
                assert(s[i] == s.drop_last()[i]);
            }
        }
    }
}

proof fn lemma_best_none(bx: Seq<BoxRange>, n: int)
    requires
        0 <= n <= bx.len(),
        best(bx, n) is None,
    ensures
        forall|i: int| 0 <= i < n ==> (#[trigger] bx[i]).widest_range == 0,
    decreases n,
{
    if n > 0 {
        lemma_best_none(bx, n - 1);
    }
}

/// A box of one value on every channel holds entries of one color.
proof fn lemma_flat_box(s: Seq<Entry>)
    requires
        s.len() > 0,
        widest(s).1 == 0,
    ensures
        forall|i: int| 0 <= i < s.len() ==> (#[trigger] s[i]).0 == s[0].0,
{
    lemma_min_max(s, 0);
    lemma_min_max(s, 1);
    lemma_min_max(s, 2);
    lemma_min_max_bounds(s, 0);
    lemma_min_max_bounds(s, 1);
    lemma_min_max_bounds(s, 2);
    assert forall|i: int| 0 <= i < s.len() implies (#[trigger] s[i]).0 == s[0].0 by {
        assert(chan(s[i].0, 0) == chan(s[0].0, 0));
        assert(chan(s[i].0, 1) == chan(s[0].0, 1));
        assert(chan(s[i].0, 2) == chan(s[0].0, 2));
    }
}

/// A box of a single entry with pixels is that entry's color and count.
proof fn lemma_single_box(e: Seq<Entry>, b: BoxRange)
    requires
        b.end == b.start + 1,
        b.end <= e.len(),
        b.count == seq_count(e.subrange(b.start as int, b.end as int)),
        e[b.start as int].1 > 0,
    ensures
        to_cluster(e, b) == as_cluster(e[b.start as int]),
{
    let x = e[b.start as int];
    let s = e.subrange(b.start as int, b.end as int);
    assert(s.len() == 1);
    assert(s.drop_last().len() == 0);
    assert(seq_count(s.drop_last()) == 0);
    assert(s.last() == x);
    assert(seq_count(s) == x.1);
    let n = x.1 as int;
    assert forall|ch: int| 0 <= chan(x.0, ch) <= 255 implies #[trigger] mean(chan_sum(s, ch), n) == chan(x.0, ch) by {
        let v = chan(x.0, ch);
        assert(chan_sum(s.drop_last(), ch) == 0);
        assert(chan_sum(s, ch) == v * n);
        assert((2 * (v * n) + n) / (2 * n) == v) by (nonlinear_arith)
            requires n > 0, 0 <= v;
    }
    assert(mean(chan_sum(s, 0), n) == x.0.r);
    assert(mean(chan_sum(s, 1), n) == x.0.g);
    assert(mean(chan_sum(s, 2), n) == x.0.b);
}

/// The entries median-cut ends with are those of the histogram, reordered:
/// they keep distinct colors and positive counts.
proof fn lemma_permuted_entries(e: Seq<Entry>, ep: Seq<Entry>)
    requires
        ep.to_multiset() == e.to_multiset(),
        distinct_colors(e),
    ensures
        ep.len() == e.len(),
        distinct_colors(ep),
        (forall|i: int| 0 <= i < e.len() ==> (#[trigger] e[i]).1 > 0)
            ==> forall|t: int| 0 <= t < ep.len() ==> (#[trigger] ep[t]).1 > 0,
        forall|t: int| 0 <= t < ep.len() ==> e.contains(#[trigger] ep[t]),
        forall|u: int| 0 <= u < e.len() ==> ep.contains(#[trigger] e[u]),
{
    broadcast use vstd::seq_lib::group_to_multiset_ensures, vstd::multiset::group_multiset_axioms;
    vstd::seq_lib::to_multiset_len(ep);
    vstd::seq_lib::to_multiset_len(e);
    assert(e.no_duplicates()) by {
        assert forall|i: int, j: int| 0 <= i < e.len() && 0 <= j < e.len() && i != j implies e[i] != e[j] by {
            if i < j {
                assert(e[i].0 != e[j].0);
            } else {
                assert(e[j].0 != e[i].0);
            }
        }
    }
    e.lemma_multiset_has_no_duplicates();
    ep.lemma_multiset_has_no_duplicates_conv();
    assert forall|t: int| 0 <= t < ep.len() implies e.contains(#[trigger] ep[t]) by {
        assert(ep.to_multiset().count(ep[t]) > 0);
    }
    assert forall|u: int| 0 <= u < e.len() implies ep.contains(#[trigger] e[u]) by {
        assert(e.to_multiset().count(e[u]) > 0);
    }
    if forall|i: int| 0 <= i < e.len() ==> (#[trigger] e[i]).1 > 0 {
        assert forall|t: int| 0 <= t < ep.len() implies (#[trigger] ep[t]).1 > 0 by {
            assert(e.contains(ep[t]));
        }
    }
    assert forall|i: int, j: int| 0 <= i < j < ep.len() implies (#[trigger] ep[i]).0 != (#[trigger] ep[j]).0 by {
        assert(ep[i] != ep[j]);
        assert(e.contains(ep[i]));
        assert(e.contains(ep[j]));
        let u = choose|u: int| 0 <= u < e.len() && e[u] == ep[i];
        let v = choose|v: int| 0 <= v < e.len() && e[v] == ep[j];
        assert(u != v);
        if u < v {
            assert(e[u].0 != e[v].0);
        } else {
            assert(e[v].0 != e[u].0);
        }
    }
}

/// Some box starts at entry `t`.
spec fn box_at(bx: Seq<BoxRange>, t: int) -> bool {
    exists|i: int| 0 <= i < bx.len() && (#[trigger] bx[i]).start == t
}

/// When median-cut stops with every box a single entry, the boxes cover
/// every entry.
proof fn lemma_singletons_cover(bx: Seq<BoxRange>, n: int)
    requires
        bx.len() == n,
        forall|i: int| 0 <= i < n ==> (#[trigger] bx[i]).end == bx[i].start + 1 && bx[i].end <= n,
        forall|i: int, j: int| 0 <= i < n && 0 <= j < n && i != j ==> disjoint(#[trigger] bx[i], #[trigger] bx[j]),
    ensures
        forall|t: int| 0 <= t < n ==> #[trigger] box_at(bx, t),
{
    broadcast use vstd::set::group_set_axioms;
    let starts = bx.map_values(|b: BoxRange| b.start as int);
    assert(starts.no_duplicates()) by {
        assert forall|i: int, j: int| 0 <= i < starts.len() && 0 <= j < starts.len() && i != j implies starts[i] != starts[j] by {
            assert(disjoint(bx[i], bx[j]));
        }
    }
    starts.unique_seq_to_set();
    vstd::set_lib::lemma_int_range(0, n);
    assert forall|t: int| 0 <= t < n implies #[trigger] box_at(bx, t) by {
        if !box_at(bx, t) {
            let others = vstd::set_lib::set_int_range(0, n).remove(t);
            assert(starts.to_set().subset_of(others)) by {
                assert forall|x: int| starts.to_set().contains(x) implies others.contains(x) by {
                    assert(starts.contains(x));
                    let i = choose|i: int| 0 <= i < starts.len() && starts[i] == x;
                    assert(bx[i].start == x);
                }
            }
            vstd::set_lib::lemma_len_subset(starts.to_set(), others);
            assert(vstd::set_lib::set_int_range(0, n).contains(t));
        }
    }
}

/// A histogram of at most `k` colors, each counted at least once, comes
/// back exactly: each entry becomes the cluster of its own color and count,
/// heaviest first and equally heavy ones in ascending color order.
pub proof fn lemma_median_cut_exact(e: Seq<Entry>, k: int)
    requires
        e.len() <= usize::MAX,
        seq_count(e) <= u64::MAX,
        0 < e.len() <= k,
        distinct_colors(e),
        forall|i: int| 0 <= i < e.len() ==> (#[trigger] e[i]).1 > 0,
    ensures
        spec_median_cut(e, k) == e.map_values(|x: Entry| as_cluster(x)).sort_by(key_leq(|c: Cluster| cluster_key(c))),
{
    broadcast use vstd::seq_lib::group_to_multiset_ensures, vstd::multiset::group_multiset_axioms;
    let n = e.len() as int;
    let b0 = seq![measure_spec(e, 0, n)];
    lemma_start_partition(e);
    lemma_run(e, b0, k);
    let r = lemma_final_boxes(e, k);
    let ep = r.0;
    let bx = r.1;
    lemma_permuted_entries(e, ep);
    // Every box holds a single entry.
    assert forall|i: int| 0 <= i < bx.len() implies #[trigger] size_w()(bx[i]) >= 1 by {}
    if best(bx, bx.len() as int) is None {
        lemma_best_none(bx, bx.len() as int);
        assert forall|i: int| 0 <= i < bx.len() implies #[trigger] size_w()(bx[i]) == 1 by {
            let b = bx[i];
            let s = ep.subrange(b.start as int, b.end as int);
            lemma_widest(s);
            assert(widest(s).1 == 0);
            lemma_flat_box(s);
            if s.len() >= 2 {
                assert(s[1].0 == s[0].0);
                assert(s[0] == ep[b.start as int] && s[1] == ep[b.start + 1]);
            }
        }
    } else {
        lemma_sum_all_one(bx, size_w());
    }
    lemma_sum_ones(bx, size_w());
    assert(bx.len() == n);
    assert forall|i: int| 0 <= i < n implies (#[trigger] bx[i]).end == bx[i].start + 1 && bx[i].end <= n by {
        assert(size_w()(bx[i]) == 1);
    }
    lemma_singletons_cover(bx, n);
    // Each box is the cluster of its entry.
    let cs = bx.map_values(|b: BoxRange| to_cluster(ep, b));
    assert forall|i: int| 0 <= i < n implies #[trigger] cs[i] == as_cluster(ep[bx[i].start as int]) by {
        let b = bx[i];
        assert(b == measure_spec(ep, b.start as int, b.end as int));
        lemma_seq_count_subrange(ep, b.start as int, b.end as int);
        lemma_seq_count_nonneg(ep.subrange(b.start as int, b.end as int));
        lemma_single_box(ep, b);
    }
    let em = e.map_values(|x: Entry| as_cluster(x));
    assert(cs.no_duplicates()) by {
        assert forall|i: int, j: int| 0 <= i < cs.len() && 0 <= j < cs.len() && i != j implies cs[i] != cs[j] by {
            assert(disjoint(bx[i], bx[j]));
            let si = bx[i].start as int;
            let sj = bx[j].start as int;
            if si < sj {
                assert(ep[si].0 != ep[sj].0);
            } else {
                assert(ep[sj].0 != ep[si].0);
            }
        }
    }
    assert(em.no_duplicates()) by {
        assert forall|i: int, j: int| 0 <= i < em.len() && 0 <= j < em.len() && i != j implies em[i] != em[j] by {
            if i < j {
                assert(e[i].0 != e[j].0);
            } else {
                assert(e[j].0 != e[i].0);
            }
        }
    }
    assert forall|x: Cluster| cs.contains(x) <==> em.contains(x) by {
        if cs.contains(x) {
            let i = choose|i: int| 0 <= i < cs.len() && cs[i] == x;
            let t = bx[i].start as int;
            assert(e.contains(ep[t]));
            let u = choose|u: int| 0 <= u < e.len() && e[u] == ep[t];
            assert(em[u] == x);
        }
        if em.contains(x) {
            let u = choose|u: int| 0 <= u < em.len() && em[u] == x;
            assert(ep.contains(e[u]));
            let t = choose|t: int| 0 <= t < ep.len() && ep[t] == e[u];
            assert(box_at(bx, t));
            let i = choose|i: int| 0 <= i < bx.len() && (#[trigger] bx[i]).start == t;
            assert(cs[i] == x);
        }
    }
    cs.lemma_multiset_has_no_duplicates();
    em.lemma_multiset_has_no_duplicates();
    assert(cs.to_multiset() =~= em.to_multiset()) by {
        assert forall|x: Cluster| cs.to_multiset().count(x) == em.to_multiset().count(x) by {
            if cs.contains(x) {
                assert(cs.to_multiset().contains(x));
                assert(em.to_multiset().contains(x));
            }
        }
    }
    // Both orders of the same clusters are the same sequence.
    let leq = key_leq(|c: Cluster| cluster_key(c));
    lemma_keys_injective(0);
    crate::sort::lemma_key_total(|c: Cluster| cluster_key(c));
    cs.lemma_sort_by_ensures(leq);
    em.lemma_sort_by_ensures(leq);
    vstd::seq_lib::lemma_sorted_unique(cs.sort_by(leq), em.sort_by(leq), leq);
}

proof fn lemma_runs_total(s: Seq<Rgb8>)
    requires
        s.len() <= u64::MAX,
    ensures
        seq_count(runs(s)) == s.len(),
    decreases s.len(),
{
    if s.len() > 0 {
        let s0 = s.drop_last();
        lemma_runs_total(s0);
        lemma_runs_counts(s0);
        let r0 = runs(s0);
        let r = runs(s);
        if r0.len() > 0 && r0.last().0 == s.last() {
            assert(r0[r0.len() - 1].1 <= s0.len());
            assert(r.drop_last() == r0.drop_last());
            assert(seq_count(r0) == seq_count(r0.drop_last()) + r0.last().1);
        } else {
            assert(r.drop_last() == r0);
        }
    }
}

/// Pixels of at most `k` colors come back exactly: extracting `k` colors
/// gives each color of the pixels with its number of pixels, heaviest first
/// and equally heavy ones in ascending color order.
pub proof fn lemma_few_colors_come_back_exactly(px: Seq<Rgb8>, k: int)
    requires
        px.len() <= u64::MAX,
        px.len() <= usize::MAX,
        0 < spec_histogram(px).len() <= k,
    ensures
        spec_median_cut(spec_histogram(px), k)
            == spec_histogram(px).map_values(|x: Entry| as_cluster(x)).sort_by(key_leq(|c: Cluster| cluster_key(c))),
{
    broadcast use vstd::seq_lib::group_to_multiset_ensures;
    let h = spec_histogram(px);
    let leq = key_leq(|c: Rgb8| pixel_key(c));
    lemma_keys_injective(0);
    crate::sort::lemma_key_total(|c: Rgb8| pixel_key(c));
    px.lemma_sort_by_ensures(leq);
    let srt = px.sort_by(leq);
    assert(srt.len() == px.len()) by {
        assert(srt.to_multiset().len() == px.to_multiset().len());
    }
    lemma_runs_total(srt);
    lemma_runs_counts(srt);
    lemma_histogram_counts(px);
    assert(distinct_colors(h)) by {
        assert forall|i: int, j: int| 0 <= i < j < h.len() implies (#[trigger] h[i]).0 != (#[trigger] h[j]).0 by {
            assert(pack(h[i].0) < pack(h[j].0));
        }
    }
    assert forall|i: int| 0 <= i < h.len() implies (#[trigger] h[i]).1 > 0 by {
        assert(h[i].1 == px.to_multiset().count(h[i].0));
        assert(px.contains(h[i].0));
    }
    lemma_median_cut_exact(h, k);
}

// ---------------------------------------------------------------------------
// The order of the entries does not matter

proof fn lemma_min_max_attained(s: Seq<Entry>, ch: int)
    requires
        s.len() > 0,
    ensures
        exists|i: int| 0 <= i < s.len() && seq_min(s, ch) == chan((#[trigger] s[i]).0, ch),
        exists|i: int| 0 <= i < s.len() && seq_max(s, ch) == chan((#[trigger] s[i]).0, ch),
    decreases s.len(),
{
    let n = s.len() - 1;
    let c = chan(s[n].0, ch);
    assert(0 <= c <= 255);
    if s.len() == 1 {
        assert(s.drop_last().len() == 0);
        assert(seq_min(s.drop_last(), ch) == 255);
        assert(seq_max(s.drop_last(), ch) == 0);
        assert(s.last() == s[n]);
        assert(seq_min(s, ch) == c);
        assert(seq_max(s, ch) == c);
    } else {
        let s0 = s.drop_last();
        lemma_min_max_attained(s0, ch);
        let i = choose|i: int| 0 <= i < s0.len() && seq_min(s0, ch) == chan((#[trigger] s0[i]).0, ch);
        let j = choose|j: int| 0 <= j < s0.len() && seq_max(s0, ch) == chan((#[trigger] s0[j]).0, ch);
        assert(s[i] == s0[i] && s[j] == s0[j]);
        if seq_min(s0, ch) <= c {
            assert(seq_min(s, ch) == chan(s[i].0, ch));
        } else {
            assert(seq_min(s, ch) == chan(s[n].0, ch));
        }
        if seq_max(s0, ch) >= c {
            assert(seq_max(s, ch) == chan(s[j].0, ch));
        } else {
            assert(seq_max(s, ch) == chan(s[n].0, ch));
        }
    }
}

proof fn lemma_min_max_perm(a: Seq<Entry>, b: Seq<Entry>, ch: int)
    requires
        a.to_multiset() == b.to_multiset(),
    ensures
        seq_min(a, ch) == seq_min(b, ch),
        seq_max(a, ch) == seq_max(b, ch),
{
    broadcast use vstd::seq_lib::group_to_multiset_ensures;
    vstd::seq_lib::to_multiset_len(a);
    vstd::seq_lib::to_multiset_len(b);
    if a.len() > 0 {
        lemma_min_max_attained(a, ch);
        lemma_min_max_attained(b, ch);
        lemma_min_max_bounds(a, ch);
        lemma_min_max_bounds(b, ch);
        let ia = choose|i: int| 0 <= i < a.len() && seq_min(a, ch) == chan((#[trigger] a[i]).0, ch);
        let ib = choose|i: int| 0 <= i < b.len() && seq_min(b, ch) == chan((#[trigger] b[i]).0, ch);
        let ja = choose|i: int| 0 <= i < a.len() && seq_max(a, ch) == chan((#[trigger] a[i]).0, ch);
        let jb = choose|i: int| 0 <= i < b.len() && seq_max(b, ch) == chan((#[trigger] b[i]).0, ch);
        assert(a.to_multiset().count(a[ia]) > 0 && b.contains(a[ia]));
        assert(b.to_multiset().count(b[ib]) > 0 && a.contains(b[ib]));
        assert(a.to_multiset().count(a[ja]) > 0 && b.contains(a[ja]));
        assert(b.to_multiset().count(b[jb]) > 0 && a.contains(b[jb]));
        let x = choose|x: int| 0 <= x < b.len() && b[x] == a[ia];
        let y = choose|y: int| 0 <= y < a.len() && a[y] == b[ib];
        let u = choose|u: int| 0 <= u < b.len() && b[u] == a[ja];
        let v = choose|v: int| 0 <= v < a.len() && a[v] == b[jb];
        assert(seq_min(b, ch) <= chan(b[x].0, ch));
        assert(seq_min(a, ch) <= chan(a[y].0, ch));
        assert(seq_max(b, ch) >= chan(b[u].0, ch));
        assert(seq_max(a, ch) >= chan(a[v].0, ch));
    }
}

proof fn lemma_chan_sum_as_sum(s: Seq<Entry>, ch: int)
    ensures
        chan_sum(s, ch) == sum_by(s, |x: Entry| chan(x.0, ch) * x.1),
    decreases s.len(),
{
    if s.len() > 0 {
        lemma_chan_sum_as_sum(s.drop_last(), ch);
    }
}

proof fn lemma_chan_sum_perm(a: Seq<Entry>, b: Seq<Entry>, ch: int)
    requires
        a.to_multiset() == b.to_multiset(),
    ensures
        chan_sum(a, ch) == chan_sum(b, ch),
{
    lemma_chan_sum_as_sum(a, ch);
    lemma_chan_sum_as_sum(b, ch);
    lemma_sum_perm(a, b, |x: Entry| chan(x.0, ch) * x.1);
}

/// Median-cut depends on the entries as a multiset only: the same entries
/// in any order give the same clusters.
pub proof fn lemma_median_cut_permutation(e1: Seq<Entry>, e2: Seq<Entry>, k: int)
    requires
        e1.to_multiset() == e2.to_multiset(),
        e1.len() <= usize::MAX,
    ensures
        spec_median_cut(e1, k) == spec_median_cut(e2, k),
{
    broadcast use vstd::seq_lib::group_to_multiset_ensures;
    vstd::seq_lib::to_multiset_len(e1);
    vstd::seq_lib::to_multiset_len(e2);
    let n = e1.len() as int;
    if n > 0 && k > 0 {
        assert(e1.subrange(0, n) == e1);
        assert(e2.subrange(0, n) == e2);
        lemma_min_max_perm(e1, e2, 0);
        lemma_min_max_perm(e1, e2, 1);
        lemma_min_max_perm(e1, e2, 2);
        lemma_seq_count_perm(e1, e2);
        lemma_chan_sum_perm(e1, e2, 0);
        lemma_chan_sum_perm(e1, e2, 1);
        lemma_chan_sum_perm(e1, e2, 2);
        let b = measure_spec(e1, 0, n);
        assert(b == measure_spec(e2, 0, n));
        let bx = seq![b];
        assert(to_cluster(e1, b) == to_cluster(e2, b));
        let f1 = |x: BoxRange| to_cluster(e1, x);
        let f2 = |x: BoxRange| to_cluster(e2, x);
        assert(bx.map_values(f1) =~= bx.map_values(f2));
        if bx.len() < k {
            assert(best(bx, 0) is None);
            if let Some(idx) = best(bx, 1) {
                assert(idx == 0);
                let ch = b.widest_channel as int;
                lemma_keys_injective(ch);
                crate::sort::lemma_key_total(entry_key_fn(ch));
                let leq = key_leq(entry_key_fn(ch));
                e1.lemma_sort_by_ensures(leq);
                e2.lemma_sort_by_ensures(leq);
                vstd::seq_lib::lemma_sorted_unique(e1.sort_by(leq), e2.sort_by(leq), leq);
                assert(sort_box(e1, ch) == sort_box(e2, ch));
                let p1 = split(e1, bx, 0);
                let p2 = split(e2, bx, 0);
                assert(e1.subrange(0, 0) + sort_box(e1.subrange(0, n), ch) + e1.subrange(n, n) =~= sort_box(e1, ch));
                assert(e2.subrange(0, 0) + sort_box(e2.subrange(0, n), ch) + e2.subrange(n, n) =~= sort_box(e2, ch));
                assert(p1 == p2);
                assert(run(e1, bx, k) == run(p1.0, p1.1, k));
                assert(run(e2, bx, k) == run(p2.0, p2.1, k));
            }
        }
    }
}

/// Median-cut splits as long as it can: of a histogram of distinct colors
/// it returns exactly `min(k, n)` clusters for `n` entries.
pub proof fn lemma_median_cut_count(e: Seq<Entry>, k: int)
    requires
        e.len() <= usize::MAX,
        seq_count(e) <= u64::MAX,
        distinct_colors(e),
    ensures
        spec_median_cut(e, k).len() == if k <= 0 { 0 } else if k < e.len() { k } else { e.len() as int },
{
    broadcast use vstd::seq_lib::group_to_multiset_ensures;
    let n = e.len() as int;
    if n > 0 && k > 0 {
        let b0 = seq![measure_spec(e, 0, n)];
        lemma_start_partition(e);
        lemma_run(e, b0, k);
        let r = lemma_final_boxes(e, k);
        let ep = r.0;
        let bx = r.1;
        lemma_permuted_entries(e, ep);
        if bx.len() < k {
            // Splitting stopped early: every box is a single entry.
            assert(best(bx, bx.len() as int) is None);
            lemma_best_none(bx, bx.len() as int);
            assert forall|i: int| 0 <= i < bx.len() implies #[trigger] size_w()(bx[i]) == 1 by {
                let b = bx[i];
                let s = ep.subrange(b.start as int, b.end as int);
                lemma_widest(s);
                assert(widest(s).1 == 0);
                lemma_flat_box(s);
                if s.len() >= 2 {
                    assert(s[1].0 == s[0].0);
                    assert(s[0] == ep[b.start as int] && s[1] == ep[b.start + 1]);
                }
            }
            lemma_sum_ones(bx, size_w());
        }
        let cs = bx.map_values(|b: BoxRange| to_cluster(ep, b));
        let leq = key_leq(|c: Cluster| cluster_key(c));
        lemma_keys_injective(0);
        crate::sort::lemma_key_total(|c: Cluster| cluster_key(c));
        cs.lemma_sort_by_ensures(leq);
        vstd::seq_lib::to_multiset_len(cs);
        vstd::seq_lib::to_multiset_len(cs.sort_by(leq));
    } else {
        lemma_median_cut_size(e, k);
    }
}

proof fn lemma_seq_count_at_least_len(s: Seq<Entry>)
    requires
        forall|i: int| 0 <= i < s.len() ==> (#[trigger] s[i]).1 > 0,
    ensures
        seq_count(s) >= s.len(),
    decreases s.len(),
{
    if s.len() > 0 {
        let s0 = s.drop_last();
        assert forall|i: int| 0 <= i < s0.len() implies (#[trigger] s0[i]).1 > 0 by {
            assert(s0[i] == s[i]);
        }
        lemma_seq_count_at_least_len(s0);
        assert(s[s.len() - 1].1 > 0);
    }
}

/// When every entry has pixels, so does every cluster.
pub proof fn lemma_median_cut_counts_positive(e: Seq<Entry>, k: int)
    requires
        e.len() <= usize::MAX,
        seq_count(e) <= u64::MAX,
        forall|i: int| 0 <= i < e.len() ==> (#[trigger] e[i]).1 > 0,
    ensures
        forall|i: int| 0 <= i < spec_median_cut(e, k).len() ==> (#[trigger] spec_median_cut(e, k)[i]).count > 0,
{
    broadcast use vstd::seq_lib::group_to_multiset_ensures;
    let n = e.len() as int;
    if n > 0 && k > 0 {
        let r = lemma_final_boxes(e, k);
        let ep = r.0;
        let bx = r.1;
        assert forall|t: int| 0 <= t < ep.len() implies (#[trigger] ep[t]).1 > 0 by {
            assert(ep.to_multiset().count(ep[t]) > 0);
            assert(e.contains(ep[t]));
        }
        let cs = bx.map_values(|b: BoxRange| to_cluster(ep, b));
        assert forall|i: int| 0 <= i < cs.len() implies (#[trigger] cs[i]).count > 0 by {
            let b = bx[i];
            let s = ep.subrange(b.start as int, b.end as int);
            assert(b == measure_spec(ep, b.start as int, b.end as int));
            assert forall|j: int| 0 <= j < s.len() implies (#[trigger] s[j]).1 > 0 by {
                assert(s[j] == ep[b.start + j]);
            }
            lemma_seq_count_at_least_len(s);
            lemma_seq_count_subrange(ep, b.start as int, b.end as int);
        }
        let leq = key_leq(|c: Cluster| cluster_key(c));
        lemma_keys_injective(0);
        crate::sort::lemma_key_total(|c: Cluster| cluster_key(c));
        cs.lemma_sort_by_ensures(leq);
        let m = spec_median_cut(e, k);
        assert forall|i: int| 0 <= i < m.len() implies (#[trigger] m[i]).count > 0 by {
            assert(m.to_multiset().count(m[i]) > 0);
            assert(cs.contains(m[i]));
        }
    }
}

// ---------------------------------------------------------------------------
// Which box is split

/// The box split next is the heaviest box that can still be split, the first
/// of equally heavy ones; there is none exactly when no box can be split.
pub proof fn lemma_best_is_heaviest(bx: Seq<BoxRange>, n: int)
    requires
        0 <= n <= bx.len(),
    ensures
        best(bx, n) is None <==> forall|j: int| 0 <= j < n ==> (#[trigger] bx[j]).widest_range == 0,
        best(bx, n) matches Some(i) ==> {
            &&& 0 <= i < n
            &&& bx[i].widest_range > 0
            &&& forall|j: int| 0 <= j < n && (#[trigger] bx[j]).widest_range > 0 ==> bx[j].count <= bx[i].count
            &&& forall|j: int| 0 <= j < i && (#[trigger] bx[j]).widest_range > 0 ==> bx[j].count < bx[i].count
        },
    decreases n,
{
    if n > 0 {
        lemma_best_is_heaviest(bx, n - 1);
    }
}

/// Means round half up: `mean(sum, count)` is the nearest integer to
/// `sum / count`, halves going up.
pub proof fn lemma_mean_rounds(sum: int, count: int)
    requires
        count > 0,
        sum >= 0,
    ensures
        2 * count * mean(sum, count) <= 2 * sum + count < 2 * count * (mean(sum, count) + 1),
{
    let m = mean(sum, count);
    assert(m == (2 * sum + count) / (2 * count));
    assert(2 * count * m <= 2 * sum + count < 2 * count * (m + 1)) by (nonlinear_arith)
        requires
            count > 0,
            m == (2 * sum + count) / (2 * count);
}

/// The widest channel is the one along which the entries spread most: some
/// two entries differ by its range there, no two entries differ by more on
/// any channel, and every earlier channel spreads strictly less.
pub proof fn lemma_widest_spread(s: Seq<Entry>)
    requires
        s.len() > 0,
    ensures
        0 <= widest(s).0 <= 2,
        exists|i: int, j: int| 0 <= i < s.len() && 0 <= j < s.len()
            && chan((#[trigger] s[i]).0, widest(s).0) - chan((#[trigger] s[j]).0, widest(s).0) == widest(s).1,
        forall|i: int, j: int, ch: int| #![trigger chan(s[i].0, ch), chan(s[j].0, ch)]
            0 <= i < s.len() && 0 <= j < s.len() && 0 <= ch <= 2
            ==> chan(s[i].0, ch) - chan(s[j].0, ch) <= widest(s).1,
        forall|ch: int, i: int, j: int| #![trigger chan(s[i].0, ch), chan(s[j].0, ch)]
            0 <= ch < widest(s).0 && 0 <= i < s.len() && 0 <= j < s.len()
            ==> chan(s[i].0, ch) - chan(s[j].0, ch) < widest(s).1,
{
    lemma_min_max_bounds(s, 0);
    lemma_min_max_bounds(s, 1);
    lemma_min_max_bounds(s, 2);
    lemma_min_max_attained(s, 0);
    lemma_min_max_attained(s, 1);
    lemma_min_max_attained(s, 2);
    lemma_min_max(s, 0);
    lemma_min_max(s, 1);
    lemma_min_max(s, 2);
    let w = widest(s);
    let ch = w.0;
    let ia = choose|i: int| 0 <= i < s.len() && seq_max(s, ch) == chan((#[trigger] s[i]).0, ch);
    let ib = choose|i: int| 0 <= i < s.len() && seq_min(s, ch) == chan((#[trigger] s[i]).0, ch);
    assert(w.1 == seq_max(s, ch) - seq_min(s, ch));
    assert(chan(s[ia].0, ch) - chan(s[ib].0, ch) == w.1);
}

proof fn lemma_seq_count_take_step(s: Seq<Entry>, k: int)
    requires
        0 <= k < s.len(),
    ensures
        seq_count(s.take(k + 1)) == seq_count(s.take(k)) + s[k].1,
{
    assert(s.take(k + 1).drop_last() == s.take(k));
}

proof fn lemma_first_over_from(s: Seq<Entry>, half: int, i: int, acc: int)
    requires
        0 <= i <= s.len(),
        acc == seq_count(s.take(i)),
        acc <= half,
    ensures
        seq_count(s) > half ==> {
            let c = first_over(s, half, i, acc);
            &&& i < c <= s.len()
            &&& seq_count(s.take(c)) > half
            &&& seq_count(s.take(c - 1)) <= half
        },
        seq_count(s) <= half ==> first_over(s, half, i, acc) == 1,
    decreases s.len() - i,
{
    if i == s.len() {
        assert(s.take(i) == s);
    } else {
        lemma_seq_count_take_step(s, i);
        let a = acc + s[i].1;
        if a <= half {
            lemma_first_over_from(s, half, i + 1, a);
        } else {
            assert(s.take(i) == s.take(i + 1 - 1));
            if seq_count(s) <= half {
                lemma_seq_count_subrange(s, 0, i + 1);
                assert(s.subrange(0, i + 1) == s.take(i + 1));
            }
        }
    }
}

/// A box is cut at its weighted median: after the first entry at which the
/// running pixel count passes `half`; when it never does, after the first
/// entry.
pub proof fn lemma_weighted_median(s: Seq<Entry>, half: int)
    requires
        half >= 0,
    ensures
        seq_count(s) > half ==> {
            let c = first_over(s, half, 0, 0);
            &&& 1 <= c <= s.len()
            &&& seq_count(s.take(c)) > half
            &&& seq_count(s.take(c - 1)) <= half
        },
        seq_count(s) <= half ==> first_over(s, half, 0, 0) == 1,
{
    assert(s.take(0).len() == 0);
    assert(seq_count(s.take(0)) == 0);
    lemma_first_over_from(s, half, 0, 0);
}

/// Splitting a box sorts its entries along its widest channel (leaving every
/// other entry where it was, and losing or adding none) and cuts it in two
/// non-empty halves, which replace it at the end of the box list.
pub proof fn lemma_split_shape(e: Seq<Entry>, bx: Seq<BoxRange>, idx: int)
    requires
        0 <= idx < bx.len(),
        bx[idx].start < bx[idx].end <= e.len(),
        bx[idx] == measure_spec(e, bx[idx].start as int, bx[idx].end as int),
        bx[idx].widest_range > 0,
    ensures
        ({
            let b = bx[idx];
            let st = b.start as int;
            let en = b.end as int;
            let ch = b.widest_channel as int;
            let p = split(e, bx, idx);
            &&& p.0.len() == e.len()
            &&& p.0.subrange(st, en).to_multiset() == e.subrange(st, en).to_multiset()
            &&& forall|i: int| 0 <= i < e.len() && !(st <= i < en) ==> #[trigger] p.0[i] == e[i]
            &&& forall|i: int, j: int| st <= i < j < en ==> chan((#[trigger] p.0[i]).0, ch) <= chan((#[trigger] p.0[j]).0, ch)
            &&& p.1.len() == bx.len() + 1
            &&& p.1[bx.len() - 1].start == st
            &&& p.1[bx.len() - 1].end == p.1[bx.len() as int].start
            &&& st < p.1[bx.len() as int].start < en
            &&& p.1[bx.len() as int].end == en
        }),
{
    broadcast use vstd::seq_lib::group_to_multiset_ensures;
    let b = bx[idx];
    let st = b.start as int;
    let en = b.end as int;
    let ch = b.widest_channel as int;
    let seg = e.subrange(st, en);
    lemma_keys_injective(ch);
    crate::sort::lemma_key_total(entry_key_fn(ch));
    let leq = key_leq(entry_key_fn(ch));
    seg.lemma_sort_by_ensures(leq);
    let sorted = sort_box(seg, ch);
    assert(sorted.len() == seg.len()) by {
        assert(sorted.to_multiset().len() == seg.to_multiset().len());
    }
    lemma_replace_range(e, st, en, sorted);
    let p = split(e, bx, idx);
    assert(p.0.subrange(st, en) == sorted);
    assert forall|i: int| 0 <= i < e.len() && !(st <= i < en) implies #[trigger] p.0[i] == e[i] by {
        if i < st {
            assert(p.0.subrange(0, st)[i] == e.subrange(0, st)[i]);
        } else {
            assert(p.0.subrange(en, e.len() as int)[i - en] == e.subrange(en, e.len() as int)[i - en]);
        }
    }
    assert forall|i: int, j: int| st <= i < j < en implies chan((#[trigger] p.0[i]).0, ch) <= chan((#[trigger] p.0[j]).0, ch) by {
        assert(leq(sorted[i - st], sorted[j - st]));
        assert(sorted[i - st] == p.0[i]);
        assert(sorted[j - st] == p.0[j]);
    }
    lemma_widest(seg);
    let cut = clamp(st + first_over(p.0.subrange(st, en), (b.count / 2) as int, 0, 0), st + 1, en - 1);
    assert(en - st >= 2);
    let rest = bx.update(idx, bx.last()).drop_last();
    assert(p.1 == rest.push(measure_spec(p.0, st, cut)).push(measure_spec(p.0, cut, en)));
    assert(rest.len() == bx.len() - 1);
}

} // verus!
