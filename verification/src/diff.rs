//! Comparing the palettes of two images directly.
//!
//! Each cluster of the baseline is matched to its nearest cluster of the
//! other image; distances are order keys of CIEDE2000 values computed by the
//! caller, and the numbers of the report (weights, distances, their mean and
//! maximum) are doubles the caller formats.

use vstd::prelude::*;
use crate::check::{nearest, lemma_first_min, nearest_in_row};
use crate::color::{Rgb8, spec_hex};
use crate::json::{joined, hex_json, spec_quote, lemma_joined_step, push_quoted, push_hex};
use crate::palette::text_at;
use crate::quantize::Cluster;
use crate::report::{Style, swatch_text, texts_view, text_at_exec};
use crate::text::{push_str, string_of};

verus! {

/// For each cluster of the baseline (a row of `dist`), the index of its
/// nearest cluster in the other image, the first of equally near ones.
pub fn nearest_matches(dist: &Vec<Vec<u64>>, others: usize) -> (r: Vec<usize>)
    requires
        others > 0,
        forall|i: int| 0 <= i < dist.len() ==> (#[trigger] dist@[i])@.len() == others,
    ensures
        r@.len() == dist@.len(),
        forall|i: int| 0 <= i < r@.len() ==> nearest(dist@[i]@) == Some(#[trigger] r@[i] as int),
        forall|i: int| 0 <= i < r@.len() ==> #[trigger] r@[i] < others,
{
    let mut r: Vec<usize> = Vec::new();
    for i in 0..dist.len()
        invariant
            others > 0,
            forall|p: int| 0 <= p < dist.len() ==> (#[trigger] dist@[p])@.len() == others,
            r@.len() == i,
            forall|p: int| 0 <= p < i ==> nearest(dist@[p]@) == Some(#[trigger] r@[p] as int),
            forall|p: int| 0 <= p < i ==> #[trigger] r@[p] < others,
    {
        let row = &dist[i];
        proof {
            lemma_first_min(row@, row@.len() as int);
        }
        match nearest_in_row(row) {
            Some(j) => r.push(j),
            None => {
                assert(false);
                r.push(0);
            },
        }
    }
    r
}

pub open spec fn diff_item(c: Cluster, weight: Seq<char>, nearest: Rgb8, delta: Seq<char>) -> Seq<char> {
    "{\"hex\": "@ + hex_json(c.color) + ", \"weight\": "@ + weight + ", \"nearest\": "@ + hex_json(nearest)
        + ", \"delta_e\": "@ + delta + "}"@
}

/// The texts of a diff's numbers, formatted by the caller: each baseline
/// cluster's weight and distance to its match, and the weighted mean and
/// the maximum of those distances.
pub struct DiffNumbers {
    pub weights: Vec<String>,
    pub deltas: Vec<String>,
    pub mean: String,
    pub max: String,
}

pub open spec fn diff_items(a: Seq<Cluster>, b: Seq<Cluster>, matches: Seq<usize>, nums: DiffNumbers) -> Seq<Seq<char>> {
    Seq::new(a.len(), |i: int| diff_item(a[i], text_at(texts_view(nums.weights@), i), b[matches[i] as int].color,
        text_at(texts_view(nums.deltas@), i)))
}

/// The matches are one per baseline cluster, each naming a cluster of the
/// other image.
pub open spec fn matches_fit(a: Seq<Cluster>, b: Seq<Cluster>, matches: Seq<usize>) -> bool {
    matches.len() == a.len() && forall|i: int| 0 <= i < matches.len() ==> #[trigger] matches[i] < b.len()
}

/// The document `diff --json` prints.
pub open spec fn spec_diff_document(
    version: Seq<char>,
    a_name: Seq<char>,
    b_name: Seq<char>,
    a: Seq<Cluster>,
    b: Seq<Cluster>,
    matches: Seq<usize>,
    nums: DiffNumbers,
) -> Seq<char> {
    "{\"tool\": \"palettefit\", \"version\": "@ + spec_quote(version) + ", \"command\": \"diff\", \"a\": "@ + spec_quote(a_name)
        + ", \"b\": "@ + spec_quote(b_name) + ", \"colors\": ["@ + joined(diff_items(a, b, matches, nums))
        + "], \"weighted_mean_delta_e\": "@ + nums.mean@ + ", \"max_delta_e\": "@ + nums.max@ + "}"@
}

fn push_diff_item(out: &mut Vec<char>, c: Cluster, weight: &str, nearest: Rgb8, delta: &str)
    ensures
        final(out)@ == old(out)@ + diff_item(c, weight@, nearest, delta@),
{
    let ghost start = out@;
    push_str(out, "{\"hex\": ");
    push_hex(out, c.color);
    push_str(out, ", \"weight\": ");
    push_str(out, weight);
    push_str(out, ", \"nearest\": ");
    push_hex(out, nearest);
    push_str(out, ", \"delta_e\": ");
    push_str(out, delta);
    push_str(out, "}");
    assert(out@ =~= start + diff_item(c, weight@, nearest, delta@));
}

/// The document `diff --json` prints: each baseline cluster with its match.
pub fn diff_document(
    version: &str,
    a_name: &str,
    b_name: &str,
    a: &Vec<Cluster>,
    b: &Vec<Cluster>,
    matches: &Vec<usize>,
    nums: &DiffNumbers,
) -> (r: String)
    requires
        matches_fit(a@, b@, matches@),
    ensures
        r@ == spec_diff_document(version@, a_name@, b_name@, a@, b@, matches@, *nums),
{
    let mut out: Vec<char> = Vec::new();
    push_str(&mut out, "{\"tool\": \"palettefit\", \"version\": ");
    push_quoted(&mut out, version);
    push_str(&mut out, ", \"command\": \"diff\", \"a\": ");
    push_quoted(&mut out, a_name);
    push_str(&mut out, ", \"b\": ");
    push_quoted(&mut out, b_name);
    push_str(&mut out, ", \"colors\": [");
    let ghost items = diff_items(a@, b@, matches@, *nums);
    let ghost start = out@;
    for i in 0..a.len()
        invariant
            matches_fit(a@, b@, matches@),
            items == diff_items(a@, b@, matches@, *nums),
            out@ == start + joined(items.take(i as int)),
    {
        proof { lemma_joined_step(items, i as int); }
        if i > 0 {
            push_str(&mut out, ", ");
        }
        let m = matches[i];
        push_diff_item(&mut out, a[i], text_at_exec(&nums.weights, i), b[m].color, text_at_exec(&nums.deltas, i));
        assert(out@ =~= start + joined(items.take(i + 1)));
    }
    assert(items.take(a.len() as int) =~= items);
    let ghost mid = out@;
    push_str(&mut out, "], \"weighted_mean_delta_e\": ");
    push_str(&mut out, nums.mean.as_str());
    push_str(&mut out, ", \"max_delta_e\": ");
    push_str(&mut out, nums.max.as_str());
    push_str(&mut out, "}");
    assert(out@ =~= spec_diff_document(version@, a_name@, b_name@, a@, b@, matches@, *nums));
    string_of(&out)
}

/// One row of a diff table: a baseline cluster, its weight, and its match.
pub open spec fn diff_row(color: bool, c: Cluster, weight: Seq<char>, nearest: Rgb8, delta: Seq<char>) -> Seq<char> {
    "  "@ + swatch_text(color, c.color) + "#"@ + spec_hex(c.color) + "  "@ + weight + "%  ->  "@
        + swatch_text(color, nearest) + "#"@ + spec_hex(nearest) + "  dE "@ + delta + "\n"@
}

pub open spec fn diff_rows(color: bool, a: Seq<Cluster>, b: Seq<Cluster>, matches: Seq<usize>, nums: DiffNumbers, n: int) -> Seq<char>
    decreases n,
{
    if n <= 0 {
        Seq::empty()
    } else {
        diff_rows(color, a, b, matches, nums, n - 1) + diff_row(color, a[n - 1], text_at(texts_view(nums.weights@), n - 1),
            b[matches[n - 1] as int].color, text_at(texts_view(nums.deltas@), n - 1))
    }
}

/// The diff as `diff` prints it.
pub open spec fn spec_diff_table(
    color: bool,
    a_name: Seq<char>,
    b_name: Seq<char>,
    a: Seq<Cluster>,
    b: Seq<Cluster>,
    matches: Seq<usize>,
    nums: DiffNumbers,
) -> Seq<char> {
    a_name + " vs "@ + b_name + "\n"@ + diff_rows(color, a, b, matches, nums, a.len() as int)
        + "weighted mean dE "@ + nums.mean@ + ", max dE "@ + nums.max@ + "\n"@
}

fn push_diff_row(st: &Style, out: &mut Vec<char>, c: Cluster, weight: &str, nearest: Rgb8, delta: &str)
    ensures
        final(out)@ == old(out)@ + diff_row(st.uses_color(), c, weight@, nearest, delta@),
{
    let ghost start = out@;
    push_str(out, "  ");
    push_str(out, st.swatch(c.color).as_str());
    push_str(out, "#");
    push_str(out, c.color.hex().as_str());
    push_str(out, "  ");
    push_str(out, weight);
    push_str(out, "%  ->  ");
    push_str(out, st.swatch(nearest).as_str());
    push_str(out, "#");
    push_str(out, nearest.hex().as_str());
    push_str(out, "  dE ");
    push_str(out, delta);
    push_str(out, "\n");
    assert(out@ =~= start + diff_row(st.uses_color(), c, weight@, nearest, delta@));
}

/// The diff as a table: the two names, a row per baseline cluster, and the
/// mean and maximum distance.
pub fn diff_table(
    st: &Style,
    a_name: &str,
    b_name: &str,
    a: &Vec<Cluster>,
    b: &Vec<Cluster>,
    matches: &Vec<usize>,
    nums: &DiffNumbers,
) -> (r: String)
    requires
        matches_fit(a@, b@, matches@),
    ensures
        r@ == spec_diff_table(st.uses_color(), a_name@, b_name@, a@, b@, matches@, *nums),
{
    let ghost color = st.uses_color();
    let mut out: Vec<char> = Vec::new();
    push_str(&mut out, a_name);
    push_str(&mut out, " vs ");
    push_str(&mut out, b_name);
    push_str(&mut out, "\n");
    let ghost head = out@;
    for i in 0..a.len()
        invariant
            matches_fit(a@, b@, matches@),
            color == st.uses_color(),
            out@ == head + diff_rows(color, a@, b@, matches@, *nums, i as int),
    {
        let m = matches[i];
        push_diff_row(st, &mut out, a[i], text_at_exec(&nums.weights, i), b[m].color, text_at_exec(&nums.deltas, i));
        assert(out@ =~= head + diff_rows(color, a@, b@, matches@, *nums, i + 1));
    }
    push_str(&mut out, "weighted mean dE ");
    push_str(&mut out, nums.mean.as_str());
    push_str(&mut out, ", max dE ");
    push_str(&mut out, nums.max.as_str());
    push_str(&mut out, "\n");
    assert(out@ =~= spec_diff_table(color, a_name@, b_name@, a@, b@, matches@, *nums));
    string_of(&out)
}

proof fn lemma_diff_rows_prefix(color: bool, a: Seq<Cluster>, b: Seq<Cluster>, matches: Seq<usize>, nums: DiffNumbers, m: int, n: int)
    requires
        0 <= m <= n,
    ensures
        diff_rows(color, a, b, matches, nums, m).is_prefix_of(diff_rows(color, a, b, matches, nums, n)),
    decreases n,
{
    if m < n {
        lemma_diff_rows_prefix(color, a, b, matches, nums, m, n - 1);
        let p = diff_rows(color, a, b, matches, nums, m);
        let q = diff_rows(color, a, b, matches, nums, n - 1);
        let r = diff_rows(color, a, b, matches, nums, n);
        assert(r.subrange(0, q.len() as int) =~= q);
        assert(r.subrange(0, p.len() as int) =~= q.subrange(0, p.len() as int));
    } else {
        let p = diff_rows(color, a, b, matches, nums, m);
        assert(p.subrange(0, p.len() as int) =~= p);
    }
}

/// Row `i` of a diff table follows the rows before it and shows baseline
/// cluster `i`, its weight, its own match `b[matches[i]]` and its distance.
pub proof fn lemma_diff_table_row(
    color: bool,
    a_name: Seq<char>,
    b_name: Seq<char>,
    a: Seq<Cluster>,
    b: Seq<Cluster>,
    matches: Seq<usize>,
    nums: DiffNumbers,
    i: int,
)
    requires
        0 <= i < a.len(),
    ensures
        (a_name + " vs "@ + b_name + "\n"@ + diff_rows(color, a, b, matches, nums, i)
            + diff_row(color, a[i], text_at(texts_view(nums.weights@), i), b[matches[i] as int].color,
                text_at(texts_view(nums.deltas@), i))).is_prefix_of(spec_diff_table(color, a_name, b_name, a, b, matches, nums)),
{
    let n = a.len() as int;
    lemma_diff_rows_prefix(color, a, b, matches, nums, i + 1, n);
    let head = a_name + " vs "@ + b_name + "\n"@;
    let p = diff_rows(color, a, b, matches, nums, i + 1);
    let q = diff_rows(color, a, b, matches, nums, n);
    let t = spec_diff_table(color, a_name, b_name, a, b, matches, nums);
    assert(t.subrange(0, (head.len() + q.len()) as int) =~= head + q);
    assert(t.subrange(0, (head.len() + p.len()) as int) =~= head + p);
}

/// Item `i` of a diff document is baseline cluster `i` with its weight, its
/// own match `b[matches[i]]` and its distance; the items stand in baseline
/// order.
pub proof fn lemma_diff_document_item(a: Seq<Cluster>, b: Seq<Cluster>, matches: Seq<usize>, nums: DiffNumbers, i: int)
    requires
        0 <= i < a.len(),
    ensures
        diff_items(a, b, matches, nums).len() == a.len(),
        diff_items(a, b, matches, nums)[i] == diff_item(a[i], text_at(texts_view(nums.weights@), i),
            b[matches[i] as int].color, text_at(texts_view(nums.deltas@), i)),
{
}

} // verus!
