//! The audit: score an image's extracted clusters against a reference palette.
//!
//! Distances are CIEDE2000 values, computed by the caller and handed in as
//! the order keys of `order`: one key per reference color and cluster. Every
//! decision here compares distances only, so the keys decide exactly as the
//! distances would.

use vstd::prelude::*;
use crate::color::{Rgb8, pack};
use crate::palette::{Palette, PaletteColor, clone_opt_string};
use crate::quantize::{Cluster, lemma_pack, pack_exec};
use crate::sort::{Key, key_leq, injective_key, sort_by_key};
use crate::sums::{sum_by, lemma_sum_map, lemma_sum_perm};

verus! {

/// How many clusters to extract from a checked image: enough that every
/// reference color has a chance to surface as its own cluster.
pub fn extract_k(palette_len: usize) -> (k: usize)
    requires
        palette_len * 2 <= usize::MAX,
    ensures
        k == if palette_len * 2 < 12 { 12 } else if palette_len * 2 > 32 { 32 } else { palette_len * 2 },
{
    let n = palette_len * 2;
    if n < 12 {
        12
    } else if n > 32 {
        32
    } else {
        n
    }
}

#[derive(Debug, Clone, Copy, PartialEq, Eq, Structural)]
pub enum ColorStatus {
    /// Nearest cluster within the warn threshold.
    Held,
    /// Between warn and fail: the color is there but has drifted.
    Drift,
    /// No cluster anywhere near: the color is gone or replaced.
    Missing,
}

impl ColorStatus {
    pub fn as_str(self) -> (s: &'static str)
        ensures
            s@ == match self {
                ColorStatus::Held => "ok"@,
                ColorStatus::Drift => "drift"@,
                ColorStatus::Missing => "missing"@,
            },
    {
        match self {
            ColorStatus::Held => "ok",
            ColorStatus::Drift => "drift",
            ColorStatus::Missing => "missing",
        }
    }
}

/// Verdict for one reference color.
#[derive(Debug, Clone)]
pub struct ColorResult {
    pub reference: Rgb8,
    pub label: Option<String>,
    pub weight: Option<u64>,
    /// The closest extracted cluster, if the image had any foreground at all.
    pub nearest: Option<Rgb8>,
    /// The order key of the distance to it.
    pub delta_e: Option<u64>,
    pub status: ColorStatus,
}

/// A dominant cluster in the checked image that is far from every reference
/// color: paint that should not be there.
#[derive(Debug, Clone, Copy, PartialEq, Eq, Structural)]
pub struct ForeignColor {
    pub color: Rgb8,
    pub count: u64,
    pub nearest_reference: Rgb8,
    pub delta_e: u64,
}

#[derive(Debug, Clone, Copy, PartialEq, Eq, Structural)]
pub enum Verdict {
    Pass,
    Warn,
    Fail,
}

impl Verdict {
    pub fn as_str(self) -> (s: &'static str)
        ensures
            s@ == match self {
                Verdict::Pass => "pass"@,
                Verdict::Warn => "warn"@,
                Verdict::Fail => "fail"@,
            },
    {
        match self {
            Verdict::Pass => "pass",
            Verdict::Warn => "warn",
            Verdict::Fail => "fail",
        }
    }
}

/// The per-color results and the foreign paint of one image.
#[derive(Debug, Clone)]
pub struct CheckReport {
    pub colors: Vec<ColorResult>,
    pub foreign: Vec<ForeignColor>,
}

/// Thresholds as order keys of CIEDE2000 distances.
#[derive(Debug, Clone, Copy)]
pub struct Thresholds {
    /// Up to this distance a reference color counts as held.
    pub warn_delta: u64,
    /// Beyond this distance a reference color counts as missing.
    pub fail_delta: u64,
    /// Treat drift (warn) as failure.
    pub strict: bool,
}

// ---------------------------------------------------------------------------
// Specification

/// The first index of a smallest element among the first `n`.
pub open spec fn first_min(row: Seq<u64>, n: int) -> Option<int>
    decreases n,
{
    if n <= 0 {
        None
    } else {
        match first_min(row, n - 1) {
            None => Some(n - 1),
            Some(q) => if row[n - 1] < row[q] { Some(n - 1) } else { Some(q) },
        }
    }
}

/// The first index of a smallest element; `None` for an empty row.
pub open spec fn nearest(row: Seq<u64>) -> Option<int> {
    first_min(row, row.len() as int)
}

pub proof fn lemma_first_min(row: Seq<u64>, n: int)
    requires
        0 <= n <= row.len(),
    ensures
        first_min(row, n) is None <==> n == 0,
        first_min(row, n) matches Some(q) ==> {
            &&& 0 <= q < n
            &&& forall|i: int| 0 <= i < n ==> row[q] <= #[trigger] row[i]
            &&& forall|i: int| 0 <= i < q ==> row[q] < #[trigger] row[i]
        },
    decreases n,
{
    if n > 0 {
        lemma_first_min(row, n - 1);
    }
}

/// The status a distance earns.
pub open spec fn rate(d: Option<u64>, t: Thresholds) -> ColorStatus {
    match d {
        Some(d) => if d <= t.warn_delta {
            ColorStatus::Held
        } else if d <= t.fail_delta {
            ColorStatus::Drift
        } else {
            ColorStatus::Missing
        },
        None => ColorStatus::Missing,
    }
}

/// The result for one reference color, given its row of distances to the
/// clusters: its nearest cluster (the first of equally near ones) decides.
pub open spec fn color_result(pc: PaletteColor, clusters: Seq<Cluster>, row: Seq<u64>, t: Thresholds) -> ColorResult {
    let d = match nearest(row) {
        Some(j) => Some(row[j]),
        None => None,
    };
    ColorResult {
        reference: pc.color,
        label: pc.label,
        weight: pc.weight,
        nearest: match nearest(row) {
            Some(j) => Some(clusters[j].color),
            None => None,
        },
        delta_e: d,
        status: rate(d, t),
    }
}

/// The distances from every reference color to cluster `j`.
pub open spec fn column(dist: Seq<Vec<u64>>, j: int) -> Seq<u64> {
    Seq::new(dist.len(), |i: int| dist[i]@[j])
}

/// The clusters among the first `n` whose nearest reference color is farther
/// than `fail`, in cluster order.
pub open spec fn foreign_upto(
    pal: Seq<PaletteColor>,
    clusters: Seq<Cluster>,
    dist: Seq<Vec<u64>>,
    fail: u64,
    n: int,
) -> Seq<ForeignColor>
    decreases n,
{
    if n <= 0 {
        Seq::empty()
    } else {
        let prev = foreign_upto(pal, clusters, dist, fail, n - 1);
        let col = column(dist, n - 1);
        match nearest(col) {
            None => prev,
            Some(i) => if col[i] > fail {
                prev.push(
                    ForeignColor {
                        color: clusters[n - 1].color,
                        count: clusters[n - 1].count,
                        nearest_reference: pal[i].color,
                        delta_e: col[i],
                    },
                )
            } else {
                prev
            },
        }
    }
}

/// Position key of a foreign color: heaviest first, then ascending color,
/// then the order they were found in.
pub open spec fn foreign_key(t: (u64, Rgb8, usize)) -> Key {
    ((u64::MAX - t.0) as u64, pack(t.1) as u64, t.2 as u64)
}

/// The foreign colors, heaviest first, ties by ascending color, and equal
/// ones in cluster order.
pub open spec fn spec_foreign(
    pal: Seq<PaletteColor>,
    clusters: Seq<Cluster>,
    dist: Seq<Vec<u64>>,
    fail: u64,
) -> Seq<ForeignColor> {
    let raw = foreign_upto(pal, clusters, dist, fail, clusters.len() as int);
    let tags = Seq::new(raw.len(), |p: int| (raw[p].count, raw[p].color, p as usize));
    tags.sort_by(key_leq(|t: (u64, Rgb8, usize)| foreign_key(t))).map_values(
        |t: (u64, Rgb8, usize)| raw[t.2 as int],
    )
}

/// The distance matrix has one row per reference color and one column per
/// cluster.
pub open spec fn dist_shape(pal: Seq<PaletteColor>, clusters: Seq<Cluster>, dist: Seq<Vec<u64>>) -> bool {
    &&& dist.len() == pal.len()
    &&& forall|i: int| 0 <= i < dist.len() ==> (#[trigger] dist[i])@.len() == clusters.len()
}

// ---------------------------------------------------------------------------
// Implementation

pub(crate) fn nearest_in_row(row: &Vec<u64>) -> (r: Option<usize>)
    ensures
        match r {
            Some(j) => nearest(row@) == Some(j as int),
            None => nearest(row@) is None,
        },
{
    let mut best: Option<usize> = None;
    for j in 0..row.len()
        invariant
            match best {
                Some(q) => first_min(row@, j as int) == Some(q as int) && q < j,
                None => first_min(row@, j as int) is None && j == 0,
            },
    {
        match best {
            None => { best = Some(j); }
            Some(q) => {
                if row[j] < row[q] {
                    best = Some(j);
                }
            }
        }
    }
    best
}

fn nearest_in_column(dist: &Vec<Vec<u64>>, j: usize, n: usize) -> (r: Option<usize>)
    requires
        forall|i: int| 0 <= i < dist.len() ==> (#[trigger] dist@[i])@.len() == n,
        j < n,
    ensures
        match r {
            Some(i) => nearest(column(dist@, j as int)) == Some(i as int),
            None => nearest(column(dist@, j as int)) is None,
        },
{
    let ghost col = column(dist@, j as int);
    let mut best: Option<usize> = None;
    for i in 0..dist.len()
        invariant
            col == column(dist@, j as int),
            j < n,
            forall|p: int| 0 <= p < dist.len() ==> (#[trigger] dist@[p])@.len() == n,
            match best {
                Some(q) => first_min(col, i as int) == Some(q as int) && q < i,
                None => first_min(col, i as int) is None && i == 0,
            },
    {
        assert(col[i as int] == dist@[i as int]@[j as int]);
        match best {
            None => { best = Some(i); }
            Some(q) => {
                assert(col[q as int] == dist@[q as int]@[j as int]);
                if dist[i][j] < dist[q][j] {
                    best = Some(i);
                }
            }
        }
    }
    best
}

fn rate_exec(d: Option<u64>, t: &Thresholds) -> (s: ColorStatus)
    ensures
        s == rate(d, *t),
{
    match d {
        Some(d) => if d <= t.warn_delta {
            ColorStatus::Held
        } else if d <= t.fail_delta {
            ColorStatus::Drift
        } else {
            ColorStatus::Missing
        },
        None => ColorStatus::Missing,
    }
}

/// Score the clusters of one image against the palette. `dist[i][j]` is the
/// order key of the distance between reference color `i` and cluster `j`.
pub fn check(palette: &Palette, clusters: &Vec<Cluster>, dist: &Vec<Vec<u64>>, t: &Thresholds) -> (r: CheckReport)
    requires
        dist_shape(palette.colors@, clusters@, dist@),
    ensures
        r.colors@.len() == palette.colors@.len(),
        forall|i: int| 0 <= i < r.colors@.len() ==> #[trigger] r.colors@[i]
            == color_result(palette.colors@[i], clusters@, dist@[i]@, *t),
        r.foreign@ == spec_foreign(palette.colors@, clusters@, dist@, t.fail_delta),
{
    let mut colors: Vec<ColorResult> = Vec::new();
    for i in 0..palette.colors.len()
        invariant
            dist_shape(palette.colors@, clusters@, dist@),
            colors@.len() == i,
            forall|p: int| 0 <= p < i ==> #[trigger] colors@[p]
                == color_result(palette.colors@[p], clusters@, dist@[p]@, *t),
    {
        let pc = &palette.colors[i];
        let row = &dist[i];
        let n = nearest_in_row(row);
        proof {
            lemma_first_min(row@, row@.len() as int);
        }
        let (nearest_color, d) = match n {
            Some(j) => (Some(clusters[j].color), Some(row[j])),
            None => (None, None),
        };
        colors.push(ColorResult {
            reference: pc.color,
            label: clone_opt_string(&pc.label),
            weight: pc.weight,
            nearest: nearest_color,
            delta_e: d,
            status: rate_exec(d, t),
        });
    }
    let foreign = foreign_colors(palette, clusters, dist, t.fail_delta);
    CheckReport { colors, foreign }
}

fn foreign_colors(palette: &Palette, clusters: &Vec<Cluster>, dist: &Vec<Vec<u64>>, fail: u64) -> (r: Vec<ForeignColor>)
    requires
        dist_shape(palette.colors@, clusters@, dist@),
    ensures
        r@ == spec_foreign(palette.colors@, clusters@, dist@, fail),
{
    let ghost pal = palette.colors@;
    let mut raw: Vec<ForeignColor> = Vec::new();
    for j in 0..clusters.len()
        invariant
            pal == palette.colors@,
            dist_shape(pal, clusters@, dist@),
            raw@ == foreign_upto(pal, clusters@, dist@, fail, j as int),
    {
        let n = nearest_in_column(dist, j, clusters.len());
        let ghost col = column(dist@, j as int);
        proof {
            lemma_first_min(col, col.len() as int);
        }
        match n {
            Some(i) => {
                assert(col[i as int] == dist@[i as int]@[j as int]);
                let d = dist[i][j];
                if d > fail {
                    raw.push(ForeignColor {
                        color: clusters[j].color,
                        count: clusters[j].count,
                        nearest_reference: palette.colors[i].color,
                        delta_e: d,
                    });
                }
            }
            None => {}
        }
    }
    let mut tags: Vec<(u64, Rgb8, usize)> = Vec::new();
    for p in 0..raw.len()
        invariant
            tags@.len() == p,
            forall|q: int| 0 <= q < p ==> #[trigger] tags@[q] == (raw@[q].count, raw@[q].color, q as usize),
    {
        tags.push((raw[p].count, raw[p].color, p));
    }
    let ghost tk = |t: (u64, Rgb8, usize)| foreign_key(t);
    let key = |t: &(u64, Rgb8, usize)| -> (out: Key)
        ensures
            out == foreign_key(*t),
        { (u64::MAX - t.0, pack_exec(t.1), t.2 as u64) };
    proof {
        assert forall|a: (u64, Rgb8, usize), b: (u64, Rgb8, usize)| #[trigger] tk(a) == #[trigger] tk(b) implies a == b by {
            lemma_pack(a.1, b.1);
        }
        assert(tags@ == Seq::new(raw@.len(), |p: int| (raw@[p].count, raw@[p].color, p as usize)));
    }
    let sorted = sort_by_key(&tags, &key, Ghost(tk));
    proof {
        broadcast use vstd::seq_lib::group_to_multiset_ensures;
        assert forall|x: (u64, Rgb8, usize)| sorted@.contains(x) implies tags@.contains(x) by {
            assert(sorted@.to_multiset().count(x) > 0);
        }
    }
    let mut r: Vec<ForeignColor> = Vec::new();
    for q in 0..sorted.len()
        invariant
            r@ == sorted@.take(q as int).map_values(|t: (u64, Rgb8, usize)| raw@[t.2 as int]),
            forall|x: (u64, Rgb8, usize)| sorted@.contains(x) ==> tags@.contains(x),
            forall|q: int| 0 <= q < tags@.len() ==> #[trigger] tags@[q].2 < raw@.len(),
    {
        assert(sorted@.contains(sorted@[q as int]));
        r.push(raw[sorted[q].2]);
        assert(sorted@.take(q + 1) == sorted@.take(q as int).push(sorted@[q as int]));
    }
    assert(sorted@.take(sorted.len() as int) == sorted@);
    r
}

/// The verdict for one image.
pub open spec fn spec_verdict(colors: Seq<ColorResult>, foreign_over: bool, strict: bool) -> Verdict {
    let any_missing = exists|i: int| 0 <= i < colors.len() && (#[trigger] colors[i]).status == ColorStatus::Missing;
    let any_drift = exists|i: int| 0 <= i < colors.len() && (#[trigger] colors[i]).status == ColorStatus::Drift;
    if any_missing || foreign_over || (strict && any_drift) {
        Verdict::Fail
    } else if any_drift {
        Verdict::Warn
    } else {
        Verdict::Pass
    }
}

/// Decide the image: it fails when a palette color is missing, when there
/// is too much foreign paint (`foreign_over`), or, with `strict`, when a
/// color drifted; it warns when a color drifted; it passes otherwise.
pub fn verdict(report: &CheckReport, t: &Thresholds, foreign_over: bool) -> (v: Verdict)
    ensures
        v == spec_verdict(report.colors@, foreign_over, t.strict),
{
    let mut any_missing = false;
    let mut any_drift = false;
    for i in 0..report.colors.len()
        invariant
            any_missing == exists|p: int| 0 <= p < i && (#[trigger] report.colors@[p]).status == ColorStatus::Missing,
            any_drift == exists|p: int| 0 <= p < i && (#[trigger] report.colors@[p]).status == ColorStatus::Drift,
    {
        let s = report.colors[i].status;
        if s == ColorStatus::Missing {
            any_missing = true;
        }
        if s == ColorStatus::Drift {
            any_drift = true;
        }
    }
    if any_missing || foreign_over || (t.strict && any_drift) {
        Verdict::Fail
    } else if any_drift {
        Verdict::Warn
    } else {
        Verdict::Pass
    }
}


/// Whether any image of a run failed; the run then exits with status 1
/// (warnings alone do not fail it).
pub fn any_fail(verdicts: &Vec<Verdict>) -> (r: bool)
    ensures
        r == exists|i: int| 0 <= i < verdicts@.len() && verdicts@[i] == Verdict::Fail,
{
    let mut r = false;
    for i in 0..verdicts.len()
        invariant
            r == exists|p: int| 0 <= p < i && verdicts@[p] == Verdict::Fail,
    {
        if verdicts[i] == Verdict::Fail {
            r = true;
        }
    }
    r
}

/// The exit status of a check run: 1 when any image failed, 0 otherwise.
pub fn exit_status(verdicts: &Vec<Verdict>) -> (c: u8)
    ensures
        c == if exists|i: int| 0 <= i < verdicts@.len() && verdicts@[i] == Verdict::Fail { 1u8 } else { 0u8 },
{
    if any_fail(verdicts) { 1 } else { 0 }
}

/// A reference color is held exactly when some cluster lies within the warn
/// threshold of it, and missing exactly when every cluster lies beyond the
/// fail threshold (or there is no cluster); in between it has drifted.
pub proof fn lemma_status_meaning(pc: PaletteColor, clusters: Seq<Cluster>, row: Seq<u64>, t: Thresholds)
    requires
        row.len() == clusters.len(),
        t.warn_delta <= t.fail_delta,
    ensures
        color_result(pc, clusters, row, t).status == ColorStatus::Held
            <==> exists|j: int| 0 <= j < row.len() && #[trigger] row[j] <= t.warn_delta,
        color_result(pc, clusters, row, t).status == ColorStatus::Missing
            <==> forall|j: int| 0 <= j < row.len() ==> #[trigger] row[j] > t.fail_delta,
        color_result(pc, clusters, row, t).status == ColorStatus::Drift
            <==> (exists|j: int| 0 <= j < row.len() && #[trigger] row[j] <= t.fail_delta)
                && (forall|j: int| 0 <= j < row.len() ==> #[trigger] row[j] > t.warn_delta),
{
    lemma_first_min(row, row.len() as int);
}

/// `--strict` changes one thing only: a warning becomes a failure.
pub proof fn lemma_strict_fails_warnings(colors: Seq<ColorResult>, foreign_over: bool)
    ensures
        spec_verdict(colors, foreign_over, true) == if spec_verdict(colors, foreign_over, false) == Verdict::Warn {
            Verdict::Fail
        } else {
            spec_verdict(colors, foreign_over, false)
        },
{
}

/// Foreign paint over its limit fails the image whatever else holds.
pub proof fn lemma_foreign_over_fails(colors: Seq<ColorResult>, strict: bool)
    ensures
        spec_verdict(colors, true, strict) == Verdict::Fail,
{
}

/// Cluster `j` is foreign paint: there are reference colors, and every one
/// of them lies beyond `fail`.
pub open spec fn is_foreign(pal: Seq<PaletteColor>, dist: Seq<Vec<u64>>, fail: u64, j: int) -> bool {
    pal.len() > 0 && forall|i: int| 0 <= i < pal.len() ==> #[trigger] dist[i]@[j] > fail
}

/// How cluster `j` is reported when it is foreign: with its nearest reference
/// color (the first of equally near ones) and the distance to it.
pub open spec fn foreign_of(pal: Seq<PaletteColor>, clusters: Seq<Cluster>, dist: Seq<Vec<u64>>, j: int) -> ForeignColor {
    let col = column(dist, j);
    let i = nearest(col).unwrap();
    ForeignColor {
        color: clusters[j].color,
        count: clusters[j].count,
        nearest_reference: pal[i].color,
        delta_e: col[i],
    }
}

/// How many of the first `n` clusters are foreign.
pub open spec fn count_foreign(pal: Seq<PaletteColor>, dist: Seq<Vec<u64>>, fail: u64, n: int) -> int
    decreases n,
{
    if n <= 0 {
        0
    } else {
        count_foreign(pal, dist, fail, n - 1) + if is_foreign(pal, dist, fail, n - 1) { 1int } else { 0int }
    }
}

proof fn lemma_foreign_upto(pal: Seq<PaletteColor>, clusters: Seq<Cluster>, dist: Seq<Vec<u64>>, fail: u64, n: int)
    requires
        dist_shape(pal, clusters, dist),
        0 <= n <= clusters.len(),
    ensures
        foreign_upto(pal, clusters, dist, fail, n).len() == count_foreign(pal, dist, fail, n),
        foreign_upto(pal, clusters, dist, fail, n).len() <= n,
        forall|x: ForeignColor| foreign_upto(pal, clusters, dist, fail, n).contains(x)
            <==> exists|j: int| 0 <= j < n && is_foreign(pal, dist, fail, j) && x == #[trigger] foreign_of(pal, clusters, dist, j),
    decreases n,
{
    if n > 0 {
        lemma_foreign_upto(pal, clusters, dist, fail, n - 1);
        let prev = foreign_upto(pal, clusters, dist, fail, n - 1);
        let cur = foreign_upto(pal, clusters, dist, fail, n);
        let j = n - 1;
        let col = column(dist, j);
        lemma_first_min(col, col.len() as int);
        let far = is_foreign(pal, dist, fail, j);
        // The nearest reference color is beyond `fail` exactly when all are.
        assert(far <==> (nearest(col) matches Some(i) && col[i] > fail)) by {
            if let Some(i) = nearest(col) {
                if col[i] > fail {
                    assert forall|k: int| 0 <= k < pal.len() implies #[trigger] dist[k]@[j] > fail by {
                        assert(col[k] == dist[k]@[j]);
                    }
                } else {
                    assert(col[i] == dist[i]@[j]);
                }
            }
        }
        if far {
            assert(cur == prev.push(foreign_of(pal, clusters, dist, j)));
        } else {
            assert(cur == prev);
        }
        assert forall|x: ForeignColor| cur.contains(x)
            <==> exists|k: int| 0 <= k < n && is_foreign(pal, dist, fail, k) && x == #[trigger] foreign_of(pal, clusters, dist, k) by {
            if cur.contains(x) {
                let q = choose|q: int| 0 <= q < cur.len() && cur[q] == x;
                if q < prev.len() {
                    assert(prev[q] == x);
                    assert(prev.contains(x));
                } else {
                    assert(is_foreign(pal, dist, fail, j) && x == foreign_of(pal, clusters, dist, j));
                }
            }
            if exists|k: int| 0 <= k < n && is_foreign(pal, dist, fail, k) && x == #[trigger] foreign_of(pal, clusters, dist, k) {
                let k = choose|k: int| 0 <= k < n && is_foreign(pal, dist, fail, k) && x == #[trigger] foreign_of(pal, clusters, dist, k);
                if k < n - 1 {
                    assert(prev.contains(x));
                    let q = choose|q: int| 0 <= q < prev.len() && prev[q] == x;
                    assert(cur[q] == x);
                } else {
                    assert(cur[cur.len() - 1] == x);
                }
            }
        }
    }
}

/// The foreign paint of an image: exactly the clusters that lie beyond
/// `fail` of every reference color, each once, with its nearest reference
/// color and the distance to it, heaviest first and equally heavy ones in
/// ascending color order.
pub proof fn lemma_foreign_meaning(pal: Seq<PaletteColor>, clusters: Seq<Cluster>, dist: Seq<Vec<u64>>, fail: u64)
    requires
        dist_shape(pal, clusters, dist),
        clusters.len() <= usize::MAX,
    ensures
        spec_foreign(pal, clusters, dist, fail).len() == count_foreign(pal, dist, fail, clusters.len() as int),
        forall|x: ForeignColor| spec_foreign(pal, clusters, dist, fail).contains(x)
            <==> exists|j: int| 0 <= j < clusters.len() && is_foreign(pal, dist, fail, j)
                && x == #[trigger] foreign_of(pal, clusters, dist, j),
        forall|p: int, q: int| 0 <= p < q < spec_foreign(pal, clusters, dist, fail).len() ==> {
            let a = #[trigger] spec_foreign(pal, clusters, dist, fail)[p];
            let b = #[trigger] spec_foreign(pal, clusters, dist, fail)[q];
            a.count > b.count || (a.count == b.count && pack(a.color) <= pack(b.color))
        },
{
    broadcast use vstd::seq_lib::group_to_multiset_ensures;
    let n = clusters.len() as int;
    lemma_foreign_upto(pal, clusters, dist, fail, n);
    let raw = foreign_upto(pal, clusters, dist, fail, n);
    let tags = Seq::new(raw.len(), |p: int| (raw[p].count, raw[p].color, p as usize));
    let tk = |t: (u64, Rgb8, usize)| foreign_key(t);
    let leq = key_leq(tk);
    assert(injective_key(tk)) by {
        assert forall|a: (u64, Rgb8, usize), b: (u64, Rgb8, usize)| #[trigger] tk(a) == #[trigger] tk(b) implies a == b by {
            lemma_pack(a.1, b.1);
            lemma_pack(b.1, a.1);
        }
    }
    crate::sort::lemma_key_total(tk);
    tags.lemma_sort_by_ensures(leq);
    let sorted = tags.sort_by(leq);
    let f = spec_foreign(pal, clusters, dist, fail);
    assert(f == sorted.map_values(|t: (u64, Rgb8, usize)| raw[t.2 as int]));
    assert(sorted.len() == tags.len()) by {
        assert(sorted.to_multiset().len() == tags.to_multiset().len());
    }
    // Every sorted tag is one of the tags.
    assert forall|q: int| #![trigger sorted[q]] 0 <= q < sorted.len() implies exists|p: int| 0 <= p < tags.len() && #[trigger] tags[p] == sorted[q] by {
        assert(sorted.contains(sorted[q]));
        assert(sorted.to_multiset().count(sorted[q]) > 0);
        assert(tags.contains(sorted[q]));
    }
    assert forall|x: ForeignColor| f.contains(x) <==> raw.contains(x) by {
        if f.contains(x) {
            let q = choose|q: int| 0 <= q < f.len() && f[q] == x;
            let p = choose|p: int| 0 <= p < tags.len() && #[trigger] tags[p] == sorted[q];
            assert(tags[p].2 as int == p);
            assert(raw[p] == x);
        }
        if raw.contains(x) {
            let p = choose|p: int| 0 <= p < raw.len() && raw[p] == x;
            assert(tags.contains(tags[p]));
            assert(tags.to_multiset().count(tags[p]) > 0);
            assert(sorted.contains(tags[p]));
            let q = choose|q: int| 0 <= q < sorted.len() && sorted[q] == tags[p];
            assert(tags[p].2 as int == p);
            assert(f[q] == x);
        }
    }
    assert forall|p: int, q: int| 0 <= p < q < f.len() implies {
        let a = #[trigger] f[p];
        let b = #[trigger] f[q];
        a.count > b.count || (a.count == b.count && pack(a.color) <= pack(b.color))
    } by {
        assert(leq(sorted[p], sorted[q]));
        let pp = choose|r: int| 0 <= r < tags.len() && #[trigger] tags[r] == sorted[p];
        let qq = choose|r: int| 0 <= r < tags.len() && #[trigger] tags[r] == sorted[q];
        assert(tags[pp].2 as int == pp && tags[qq].2 as int == qq);
        lemma_pack(raw[pp].color, raw[qq].color);
        lemma_pack(raw[qq].color, raw[pp].color);
    }
}

proof fn lemma_foreign_upto_count(pal: Seq<PaletteColor>, clusters: Seq<Cluster>, dist: Seq<Vec<u64>>, fail: u64, n: int)
    requires
        dist_shape(pal, clusters, dist),
        0 <= n <= clusters.len(),
    ensures
        sum_by(foreign_upto(pal, clusters, dist, fail, n), |f: ForeignColor| f.count as int)
            <= sum_by(clusters.take(n), |c: Cluster| c.count as int),
    decreases n,
{
    if n > 0 {
        lemma_foreign_upto_count(pal, clusters, dist, fail, n - 1);
        assert(clusters.take(n).drop_last() == clusters.take(n - 1));
        let prev = foreign_upto(pal, clusters, dist, fail, n - 1);
        let cur = foreign_upto(pal, clusters, dist, fail, n);
        if cur.len() > prev.len() {
            assert(cur.drop_last() == prev);
        }
    }
}

/// The foreign paint never holds more pixels than the clusters do, so its
/// share of the foreground is at most one.
pub proof fn lemma_foreign_share_at_most_one(pal: Seq<PaletteColor>, clusters: Seq<Cluster>, dist: Seq<Vec<u64>>, fail: u64)
    requires
        dist_shape(pal, clusters, dist),
        clusters.len() <= usize::MAX,
    ensures
        sum_by(spec_foreign(pal, clusters, dist, fail), |f: ForeignColor| f.count as int)
            <= sum_by(clusters, |c: Cluster| c.count as int),
{
    broadcast use vstd::seq_lib::group_to_multiset_ensures;
    let n = clusters.len() as int;
    lemma_foreign_upto(pal, clusters, dist, fail, n);
    lemma_foreign_upto_count(pal, clusters, dist, fail, n);
    assert(clusters.take(n) == clusters);
    let raw = foreign_upto(pal, clusters, dist, fail, n);
    let tags = Seq::new(raw.len(), |p: int| (raw[p].count, raw[p].color, p as usize));
    let tk = |t: (u64, Rgb8, usize)| foreign_key(t);
    let leq = key_leq(tk);
    assert(injective_key(tk)) by {
        assert forall|a: (u64, Rgb8, usize), b: (u64, Rgb8, usize)| #[trigger] tk(a) == #[trigger] tk(b) implies a == b by {
            lemma_pack(a.1, b.1);
            lemma_pack(b.1, a.1);
        }
    }
    crate::sort::lemma_key_total(tk);
    tags.lemma_sort_by_ensures(leq);
    let sorted = tags.sort_by(leq);
    let f = |t: (u64, Rgb8, usize)| raw[t.2 as int];
    let w = |x: ForeignColor| x.count as int;
    assert(spec_foreign(pal, clusters, dist, fail) == sorted.map_values(f));
    lemma_sum_map(sorted, f, w);
    lemma_sum_perm(sorted, tags, |t: (u64, Rgb8, usize)| w(f(t)));
    lemma_sum_map(tags, f, w);
    assert(tags.map_values(f) =~= raw) by {
        assert forall|p: int| 0 <= p < raw.len() implies #[trigger] tags.map_values(f)[p] == raw[p] by {
            assert(tags[p].2 as int == p);
        }
    }
}

/// An image fails exactly when a reference color is missing, when there is
/// too much foreign paint, or, under `strict`, when a color drifted; it
/// warns exactly when it does not fail and some color drifted; otherwise it
/// passes.
pub proof fn lemma_verdict_meaning(colors: Seq<ColorResult>, foreign_over: bool, strict: bool)
    ensures
        spec_verdict(colors, foreign_over, strict) == Verdict::Fail <==> (
            (exists|i: int| 0 <= i < colors.len() && colors[i].status == ColorStatus::Missing)
            || foreign_over
            || (strict && exists|i: int| 0 <= i < colors.len() && colors[i].status == ColorStatus::Drift)),
        spec_verdict(colors, foreign_over, strict) == Verdict::Warn <==> (
            spec_verdict(colors, foreign_over, strict) != Verdict::Fail
            && exists|i: int| 0 <= i < colors.len() && colors[i].status == ColorStatus::Drift),
        spec_verdict(colors, foreign_over, strict) == Verdict::Pass <==> (
            !foreign_over && forall|i: int| 0 <= i < colors.len() ==> colors[i].status == ColorStatus::Held),
{
    if !foreign_over && forall|i: int| 0 <= i < colors.len() ==> colors[i].status == ColorStatus::Held {
        assert(!exists|i: int| 0 <= i < colors.len() && (#[trigger] colors[i]).status == ColorStatus::Missing);
        assert(!exists|i: int| 0 <= i < colors.len() && (#[trigger] colors[i]).status == ColorStatus::Drift);
    }
    if spec_verdict(colors, foreign_over, strict) == Verdict::Pass {
        assert forall|i: int| 0 <= i < colors.len() implies colors[i].status == ColorStatus::Held by {
            assert(!(colors[i].status == ColorStatus::Missing));
            assert(!(colors[i].status == ColorStatus::Drift));
        }
    }
}

} // verus!
