//! Pixel sampling and background exclusion.
//!
//! Decoding an image file is the caller's business; this module works on the
//! decoded pixels, row-major RGBA with four bytes per pixel. Distances
//! between colors are CIEDE2000 values handed in as order keys.

use vstd::prelude::*;
use crate::color::{Rgb8, spec_parse_rgb};
use crate::quantize::Entry;
use crate::text::{chars_of, string_of};

verus! {

/// Pixels with alpha below this are treated as fully transparent background.
pub const ALPHA_MIN: u8 = 128;

/// How the background should be excluded before palette extraction.
#[derive(Debug, Clone, Copy, PartialEq, Eq, Structural)]
pub enum BgMode {
    /// Detect a flat background from the image corners (default). Transparent
    /// pixels are always excluded regardless of mode.
    Auto,
    /// Only transparent pixels are excluded (`--bg none`).
    Off,
    /// Treat this color (and colors within tolerance of it) as background.
    Color(Rgb8),
}

/// A `--bg` value that is neither `auto`, `none` nor a hex color.
#[derive(Debug, Clone)]
pub struct InvalidBg {
    pub value: String,
}

pub open spec fn auto_word() -> Seq<char> {
    seq!['a', 'u', 't', 'o']
}

pub open spec fn none_word() -> Seq<char> {
    seq!['n', 'o', 'n', 'e']
}

/// What `BgMode::parse` reads: `auto`, `none`, or a hex color.
pub open spec fn spec_parse_bg(s: Seq<char>) -> Option<BgMode> {
    if s == auto_word() {
        Some(BgMode::Auto)
    } else if s == none_word() {
        Some(BgMode::Off)
    } else {
        match spec_parse_rgb(s) {
            Some(c) => Some(BgMode::Color(c)),
            None => None,
        }
    }
}

fn chars_eq(a: &Vec<char>, b: &Vec<char>) -> (r: bool)
    ensures
        r == (a@ == b@),
{
    if a.len() != b.len() {
        return false;
    }
    let mut i: usize = 0;
    while i < a.len()
        invariant
            a.len() == b.len(),
            i <= a.len(),
            forall|j: int| 0 <= j < i ==> a@[j] == b@[j],
        decreases a.len() - i,
    {
        if a[i] != b[i] {
            return false;
        }
        i += 1;
    }
    assert(a@ =~= b@);
    true
}

impl BgMode {
    pub fn parse(s: &str) -> (r: Result<Self, InvalidBg>)
        ensures
            match r {
                Ok(m) => spec_parse_bg(s@) == Some(m),
                Err(e) => spec_parse_bg(s@) is None && e.value@ == s@,
            },
    {
        let v = chars_of(s);
        let auto = chars_of("auto");
        let none = chars_of("none");
        proof {
            reveal_strlit("auto");
            reveal_strlit("none");
            assert(auto@ == auto_word());
            assert(none@ == none_word());
        }
        if chars_eq(&v, &auto) {
            Ok(BgMode::Auto)
        } else if chars_eq(&v, &none) {
            Ok(BgMode::Off)
        } else {
            match Rgb8::parse_chars(&v) {
                Some(c) => Ok(BgMode::Color(c)),
                None => Err(InvalidBg { value: string_of(&v) }),
            }
        }
    }
}

/// The background color a mode excludes: none, the declared one, or (for
/// `Auto`) what corner detection found.
pub fn background(mode: BgMode, detected: Option<Rgb8>) -> (r: Option<Rgb8>)
    ensures
        r == match mode {
            BgMode::Off => None,
            BgMode::Color(c) => Some(c),
            BgMode::Auto => detected,
        },
{
    match mode {
        BgMode::Off => None,
        BgMode::Color(c) => Some(c),
        BgMode::Auto => detected,
    }
}

// ---------------------------------------------------------------------------
// Grid sampling

/// Row-major RGBA pixels of a `width` x `height` image.
pub open spec fn is_image(rgba: Seq<u8>, width: int, height: int) -> bool {
    rgba.len() == width * height * 4
}

pub open spec fn alpha_at(rgba: Seq<u8>, width: int, x: int, y: int) -> u8 {
    rgba[(y * width + x) * 4 + 3]
}

pub open spec fn color_at(rgba: Seq<u8>, width: int, x: int, y: int) -> Rgb8 {
    let i = (y * width + x) * 4;
    Rgb8 { r: rgba[i], g: rgba[i + 1], b: rgba[i + 2] }
}

/// The opaque colors of row `y` at `x`, `x + step`, ... below `width`.
pub open spec fn row_opaque(rgba: Seq<u8>, width: int, step: int, y: int, x: int) -> Seq<Rgb8>
    decreases if width - x > 0 { width - x } else { 0 },
{
    if x >= width || step <= 0 || x < 0 {
        Seq::empty()
    } else {
        (if alpha_at(rgba, width, x, y) >= ALPHA_MIN { seq![color_at(rgba, width, x, y)] } else { Seq::empty() })
            + row_opaque(rgba, width, step, y, x + step)
    }
}

/// How many of those samples are transparent.
pub open spec fn row_transparent(rgba: Seq<u8>, width: int, step: int, y: int, x: int) -> int
    decreases if width - x > 0 { width - x } else { 0 },
{
    if x >= width || step <= 0 || x < 0 {
        0
    } else {
        (if alpha_at(rgba, width, x, y) >= ALPHA_MIN { 0int } else { 1int })
            + row_transparent(rgba, width, step, y, x + step)
    }
}

/// How many samples the row has from `x` on.
pub open spec fn row_samples(width: int, step: int, x: int) -> int
    decreases if width - x > 0 { width - x } else { 0 },
{
    if x >= width || step <= 0 || x < 0 {
        0
    } else {
        1 + row_samples(width, step, x + step)
    }
}

/// The opaque colors of rows `y`, `y + step`, ... below `height`, row by row.
pub open spec fn grid_opaque(rgba: Seq<u8>, width: int, height: int, step: int, y: int) -> Seq<Rgb8>
    decreases if height - y > 0 { height - y } else { 0 },
{
    if y >= height || step <= 0 || y < 0 {
        Seq::empty()
    } else {
        row_opaque(rgba, width, step, y, 0) + grid_opaque(rgba, width, height, step, y + step)
    }
}

pub open spec fn grid_transparent(rgba: Seq<u8>, width: int, height: int, step: int, y: int) -> int
    decreases if height - y > 0 { height - y } else { 0 },
{
    if y >= height || step <= 0 || y < 0 {
        0
    } else {
        row_transparent(rgba, width, step, y, 0) + grid_transparent(rgba, width, height, step, y + step)
    }
}

pub open spec fn grid_samples(width: int, height: int, step: int, y: int) -> int
    decreases if height - y > 0 { height - y } else { 0 },
{
    if y >= height || step <= 0 || y < 0 {
        0
    } else {
        row_samples(width, step, 0) + grid_samples(width, height, step, y + step)
    }
}

proof fn lemma_row_samples(width: int, step: int, x: int)
    requires
        0 <= x,
        step >= 1,
    ensures
        0 <= row_samples(width, step, x) <= if x <= width { width - x } else { 0 },
    decreases if width - x > 0 { width - x } else { 0 },
{
    if x < width {
        lemma_row_samples(width, step, x + step);
    }
}

proof fn lemma_grid_samples(width: int, height: int, step: int, y: int)
    requires
        0 <= y,
        step >= 1,
        width >= 0,
    ensures
        0 <= grid_samples(width, height, step, y) <= if y <= height { (height - y) * width } else { 0 },
    decreases if height - y > 0 { height - y } else { 0 },
{
    if y < height {
        lemma_grid_samples(width, height, step, y + step);
        lemma_row_samples(width, step, 0);
        let g = grid_samples(width, height, step, y + step);
        assert(g <= (height - y) * width - width) by (nonlinear_arith)
            requires
                g <= if y + step <= height { (height - (y + step)) * width } else { 0 },
                step >= 1,
                width >= 0,
                y < height;
    }
}

/// What was sampled from a decoded image.
#[derive(Debug, Clone)]
pub struct GridSample {
    /// How many pixels the grid walked over.
    pub sampled: u64,
    /// How many of them were transparent.
    pub transparent: u64,
    /// The opaque ones, in row-major order.
    pub opaque: Vec<Rgb8>,
}

/// Walk the image on a fixed grid of pitch `step` from the top-left corner,
/// row by row, sorting the pixels into transparent and opaque.
pub fn sample_grid(rgba: &Vec<u8>, width: u32, height: u32, step: u32) -> (g: GridSample)
    requires
        is_image(rgba@, width as int, height as int),
        step >= 1,
    ensures
        g.opaque@ == grid_opaque(rgba@, width as int, height as int, step as int, 0),
        g.transparent == grid_transparent(rgba@, width as int, height as int, step as int, 0),
        g.sampled == grid_samples(width as int, height as int, step as int, 0),
{
    let ghost w = width as int;
    let ghost h = height as int;
    let ghost st = step as int;
    let ghost all_opaque = grid_opaque(rgba@, w, h, st, 0);
    let ghost all_transparent = grid_transparent(rgba@, w, h, st, 0);
    let ghost all_samples = grid_samples(w, h, st, 0);
    proof {
        lemma_grid_samples(w, h, st, 0);
        assert(h * w <= u64::MAX) by (nonlinear_arith)
            requires 0 <= h <= u32::MAX, 0 <= w <= u32::MAX;
    }
    proof {
        lemma_grid_transparent_nonneg(rgba@, w, h, st, 0);
    }
    let mut sampled: u64 = 0;
    let mut transparent: u64 = 0;
    let mut opaque: Vec<Rgb8> = Vec::new();
    let mut y: u64 = 0;
    while y < height as u64
        invariant
            is_image(rgba@, w, h),
            w == width, h == height, st == step, st >= 1,
            all_opaque == grid_opaque(rgba@, w, h, st, 0),
            all_transparent == grid_transparent(rgba@, w, h, st, 0),
            all_samples == grid_samples(w, h, st, 0),
            all_samples <= h * w <= u64::MAX,
            all_transparent <= all_samples,
            opaque@ + grid_opaque(rgba@, w, h, st, y as int) == all_opaque,
            transparent + grid_transparent(rgba@, w, h, st, y as int) == all_transparent,
            sampled + grid_samples(w, h, st, y as int) == all_samples,
        decreases if height - y > 0 { height - y } else { 0 },
    {
        let ghost row_start = opaque@;
        let ghost t_start = transparent as int;
        let ghost s_start = sampled as int;
        proof {
            lemma_grid_samples(w, h, st, y + st);
            lemma_row_samples(w, st, 0);
            lemma_grid_transparent_nonneg(rgba@, w, h, st, y as int);
            lemma_grid_transparent_nonneg(rgba@, w, h, st, y + st);
            lemma_row_transparent_nonneg(rgba@, w, st, y as int, 0);
            assert(grid_samples(w, h, st, y as int) == row_samples(w, st, 0) + grid_samples(w, h, st, y + st));
            assert(grid_transparent(rgba@, w, h, st, y as int)
                == row_transparent(rgba@, w, st, y as int, 0) + grid_transparent(rgba@, w, h, st, y + st));
            assert(grid_opaque(rgba@, w, h, st, y as int)
                == row_opaque(rgba@, w, st, y as int, 0) + grid_opaque(rgba@, w, h, st, y + st));
        }
        let mut x: u64 = 0;
        while x < width as u64
            invariant
                is_image(rgba@, w, h),
                w == width, h == height, st == step, st >= 1,
                (y as int) < h,
                opaque@ + row_opaque(rgba@, w, st, y as int, x as int) == row_start + row_opaque(rgba@, w, st, y as int, 0),
                transparent + row_transparent(rgba@, w, st, y as int, x as int) == t_start + row_transparent(rgba@, w, st, y as int, 0),
                sampled + row_samples(w, st, x as int) == s_start + row_samples(w, st, 0),
                s_start + row_samples(w, st, 0) <= u64::MAX,
                t_start + row_transparent(rgba@, w, st, y as int, 0) <= u64::MAX,
                row_transparent(rgba@, w, st, y as int, x as int) >= 0,
            decreases if width - x > 0 { width - x } else { 0 },
        {
            proof {
                assert(((y as int) * w + (x as int)) * 4 + 3 < rgba@.len()) by (nonlinear_arith)
                    requires (y as int) < h, (x as int) < w, 0 <= (y as int), 0 <= (x as int), rgba@.len() == w * h * 4;
                assert(0 <= (y as int) * w) by (nonlinear_arith)
                    requires 0 <= (y as int), 0 <= w;
                lemma_row_transparent_nonneg(rgba@, w, st, y as int, x + st);
            }
            let yy = y as usize;
            let ww = width as usize;
            let xx = x as usize;
            assert(yy * ww == (y as int) * w);
            let total_len = rgba.len();
            assert(rgba@.len() == total_len);
            let i = (yy * ww + xx) * 4;
            let a = rgba[i + 3];
            sampled = sampled + 1;
            if a < ALPHA_MIN {
                transparent = transparent + 1;
            } else {
                opaque.push(Rgb8 { r: rgba[i], g: rgba[i + 1], b: rgba[i + 2] });
            }
            x = x + step as u64;
        }
        y = y + step as u64;
        proof {
            lemma_grid_transparent_nonneg(rgba@, w, h, st, y as int);
        }
    }
    assert(opaque@ + Seq::<Rgb8>::empty() == opaque@);
    GridSample { sampled, transparent, opaque }
}

proof fn lemma_row_transparent_nonneg(rgba: Seq<u8>, width: int, step: int, y: int, x: int)
    ensures
        0 <= row_transparent(rgba, width, step, y, x) <= row_samples(width, step, x),
    decreases if width - x > 0 { width - x } else { 0 },
{
    if !(x >= width || step <= 0 || x < 0) {
        lemma_row_transparent_nonneg(rgba, width, step, y, x + step);
    }
}

proof fn lemma_grid_transparent_nonneg(rgba: Seq<u8>, width: int, height: int, step: int, y: int)
    ensures
        0 <= grid_transparent(rgba, width, height, step, y) <= grid_samples(width, height, step, y),
    decreases if height - y > 0 { height - y } else { 0 },
{
    if !(y >= height || step <= 0 || y < 0) {
        lemma_row_transparent_nonneg(rgba, width, step, y, 0);
        lemma_grid_transparent_nonneg(rgba, width, height, step, y + step);
    }
}


proof fn lemma_row_accounts(rgba: Seq<u8>, width: int, step: int, y: int, x: int)
    ensures
        row_samples(width, step, x) == row_transparent(rgba, width, step, y, x) + row_opaque(rgba, width, step, y, x).len(),
    decreases if width - x > 0 { width - x } else { 0 },
{
    if !(x >= width || step <= 0 || x < 0) {
        lemma_row_accounts(rgba, width, step, y, x + step);
    }
}

proof fn lemma_grid_accounts_from(rgba: Seq<u8>, width: int, height: int, step: int, y: int)
    ensures
        grid_samples(width, height, step, y)
            == grid_transparent(rgba, width, height, step, y) + grid_opaque(rgba, width, height, step, y).len(),
    decreases if height - y > 0 { height - y } else { 0 },
{
    if !(y >= height || step <= 0 || y < 0) {
        lemma_row_accounts(rgba, width, step, y, 0);
        lemma_grid_accounts_from(rgba, width, height, step, y + step);
    }
}

/// Every sampled pixel is counted once: it is either transparent or one of
/// the opaque colors.
pub proof fn lemma_grid_accounts(rgba: Seq<u8>, width: int, height: int, step: int)
    ensures
        grid_samples(width, height, step, 0)
            == grid_transparent(rgba, width, height, step, 0) + grid_opaque(rgba, width, height, step, 0).len(),
{
    lemma_grid_accounts_from(rgba, width, height, step, 0);
}


/// `c` is the color of some opaque pixel of the image.
pub open spec fn opaque_source(rgba: Seq<u8>, width: int, height: int, c: Rgb8) -> bool {
    exists|x: int, y: int| 0 <= x < width && 0 <= y < height && alpha_at(rgba, width, x, y) >= ALPHA_MIN
        && #[trigger] color_at(rgba, width, x, y) == c
}

proof fn lemma_row_opaque_sources(rgba: Seq<u8>, width: int, height: int, step: int, y: int, x: int)
    requires
        0 <= y < height,
    ensures
        forall|i: int| 0 <= i < row_opaque(rgba, width, step, y, x).len()
            ==> opaque_source(rgba, width, height, #[trigger] row_opaque(rgba, width, step, y, x)[i]),
    decreases if width - x > 0 { width - x } else { 0 },
{
    if !(x >= width || step <= 0 || x < 0) {
        lemma_row_opaque_sources(rgba, width, height, step, y, x + step);
        let head = if alpha_at(rgba, width, x, y) >= ALPHA_MIN { seq![color_at(rgba, width, x, y)] } else { Seq::<Rgb8>::empty() };
        let rest = row_opaque(rgba, width, step, y, x + step);
        let row = row_opaque(rgba, width, step, y, x);
        assert(row == head + rest);
        assert forall|i: int| 0 <= i < row.len() implies opaque_source(rgba, width, height, #[trigger] row[i]) by {
            if i < head.len() {
                assert(row[i] == color_at(rgba, width, x, y));
            } else {
                assert(row[i] == rest[i - head.len()]);
            }
        }
    }
}

proof fn lemma_grid_opaque_sources(rgba: Seq<u8>, width: int, height: int, step: int, y: int)
    ensures
        forall|i: int| 0 <= i < grid_opaque(rgba, width, height, step, y).len()
            ==> opaque_source(rgba, width, height, #[trigger] grid_opaque(rgba, width, height, step, y)[i]),
    decreases if height - y > 0 { height - y } else { 0 },
{
    if !(y >= height || step <= 0 || y < 0) {
        lemma_row_opaque_sources(rgba, width, height, step, y, 0);
        lemma_grid_opaque_sources(rgba, width, height, step, y + step);
        let row = row_opaque(rgba, width, step, y, 0);
        let rest = grid_opaque(rgba, width, height, step, y + step);
        let g = grid_opaque(rgba, width, height, step, y);
        assert(g == row + rest);
        assert forall|i: int| 0 <= i < g.len() implies opaque_source(rgba, width, height, #[trigger] g[i]) by {
            if i < row.len() {
                assert(g[i] == row[i]);
            } else {
                assert(g[i] == rest[i - row.len()]);
            }
        }
    }
}

/// Transparent pixels never reach the palette: every color the grid keeps
/// is that of an opaque pixel of the image.
pub proof fn lemma_only_opaque_pixels(rgba: Seq<u8>, width: int, height: int, step: int)
    ensures
        forall|i: int| 0 <= i < grid_opaque(rgba, width, height, step, 0).len()
            ==> opaque_source(rgba, width, height, #[trigger] grid_opaque(rgba, width, height, step, 0)[i]),
{
    lemma_grid_opaque_sources(rgba, width, height, step, 0);
}


// ---------------------------------------------------------------------------
// Background

/// The pixel's color when it is opaque.
pub open spec fn opaque_at(rgba: Seq<u8>, width: int, x: int, y: int) -> Option<Rgb8> {
    if alpha_at(rgba, width, x, y) >= ALPHA_MIN { Some(color_at(rgba, width, x, y)) } else { None }
}

fn opaque_pixel(rgba: &Vec<u8>, width: u32, height: u32, x: u32, y: u32) -> (c: Option<Rgb8>)
    requires
        is_image(rgba@, width as int, height as int),
        x < width,
        y < height,
    ensures
        c == opaque_at(rgba@, width as int, x as int, y as int),
{
    proof {
        assert(((y as int) * width + (x as int)) * 4 + 3 < rgba@.len()) by (nonlinear_arith)
            requires (y as int) < height, (x as int) < width, 0 <= (y as int), 0 <= (x as int),
                rgba@.len() == (width as int) * (height as int) * 4;
        assert(0 <= (y as int) * width) by (nonlinear_arith)
            requires 0 <= (y as int), 0 <= width;
    }
    let total_len = rgba.len();
    assert(rgba@.len() == total_len);
    let yy = y as usize;
    let ww = width as usize;
    assert(yy * ww == (y as int) * (width as int));
    let i = (yy * ww + x as usize) * 4;
    if rgba[i + 3] >= ALPHA_MIN {
        Some(Rgb8 { r: rgba[i], g: rgba[i + 1], b: rgba[i + 2] })
    } else {
        None
    }
}

/// The four corners, top-left, top-right, bottom-left, bottom-right, each
/// with its color when it is opaque.
pub fn corner_colors(rgba: &Vec<u8>, width: u32, height: u32) -> (r: Vec<Option<Rgb8>>)
    requires
        is_image(rgba@, width as int, height as int),
        width >= 1,
        height >= 1,
    ensures
        r@ == seq![
            opaque_at(rgba@, width as int, 0, 0),
            opaque_at(rgba@, width as int, width - 1, 0),
            opaque_at(rgba@, width as int, 0, height - 1),
            opaque_at(rgba@, width as int, width - 1, height - 1),
        ],
{
    let mut r: Vec<Option<Rgb8>> = Vec::new();
    r.push(opaque_pixel(rgba, width, height, 0, 0));
    r.push(opaque_pixel(rgba, width, height, width - 1, 0));
    r.push(opaque_pixel(rgba, width, height, 0, height - 1));
    r.push(opaque_pixel(rgba, width, height, width - 1, height - 1));
    r
}

/// How many of the opaque corners lie within `tolerance` of corner `a`.
pub open spec fn agreeing(corners: Seq<Option<Rgb8>>, dist: Seq<Vec<u64>>, tolerance: u64, a: int, n: int) -> int
    decreases n,
{
    if n <= 0 {
        0
    } else {
        agreeing(corners, dist, tolerance, a, n - 1)
            + if corners[n - 1] is Some && dist[a]@[n - 1] <= tolerance { 1int } else { 0int }
    }
}

/// The first opaque corner (in corner order, among the first `n`) that at
/// least three opaque corners agree with.
pub open spec fn detect_upto(corners: Seq<Option<Rgb8>>, dist: Seq<Vec<u64>>, tolerance: u64, n: int) -> Option<Rgb8>
    decreases n,
{
    if n <= 0 {
        None
    } else {
        match detect_upto(corners, dist, tolerance, n - 1) {
            Some(c) => Some(c),
            None => if corners[n - 1] is Some && agreeing(corners, dist, tolerance, n - 1, corners.len() as int) >= 3 {
                corners[n - 1]
            } else {
                None
            },
        }
    }
}

/// A flat background shows the same color in most corners: the first
/// opaque corner that at least three opaque corners (itself included) agree
/// with within `tolerance`, if any. `dist[a][b]` is the order key of the
/// distance from corner `b`'s color to corner `a`'s.
pub fn detect_background(corners: &Vec<Option<Rgb8>>, dist: &Vec<Vec<u64>>, tolerance: u64) -> (r: Option<Rgb8>)
    requires
        dist@.len() == corners@.len(),
        forall|a: int| 0 <= a < dist@.len() ==> (#[trigger] dist@[a])@.len() == corners@.len(),
    ensures
        r == detect_upto(corners@, dist@, tolerance, corners@.len() as int),
{
    let n = corners.len();
    let mut found: Option<Rgb8> = None;
    for a in 0..n
        invariant
            n == corners.len(),
            dist@.len() == n,
            forall|p: int| 0 <= p < dist@.len() ==> (#[trigger] dist@[p])@.len() == n,
            found == detect_upto(corners@, dist@, tolerance, a as int),
    {
        if found.is_none() {
            if let Some(candidate) = corners[a] {
                let mut count: usize = 0;
                for b in 0..n
                    invariant
                        n == corners.len(),
                        a < n,
                        dist@.len() == n,
                        dist@[a as int]@.len() == n,
                        count == agreeing(corners@, dist@, tolerance, a as int, b as int),
                        count <= b,
                {
                    if corners[b].is_some() && dist[a][b] <= tolerance {
                        count += 1;
                    }
                }
                if count >= 3 {
                    found = Some(candidate);
                }
            }
        }
    }
    found
}

/// The entries at positions `< n` that stay: farther than `tolerance` from
/// the background, `dist[i]` being entry `i`'s distance to it.
pub open spec fn kept_upto(entries: Seq<Entry>, dist: Seq<u64>, tolerance: u64, n: int) -> Seq<Entry>
    decreases n,
{
    if n <= 0 {
        Seq::empty()
    } else {
        kept_upto(entries, dist, tolerance, n - 1)
            + if dist[n - 1] <= tolerance { Seq::empty() } else { seq![entries[n - 1]] }
    }
}

/// The pixels of the entries at positions `< n` that go.
pub open spec fn removed_upto(entries: Seq<Entry>, dist: Seq<u64>, tolerance: u64, n: int) -> int
    decreases n,
{
    if n <= 0 {
        0
    } else {
        removed_upto(entries, dist, tolerance, n - 1)
            + if dist[n - 1] <= tolerance { entries[n - 1].1 as int } else { 0int }
    }
}

proof fn lemma_removed_bound(entries: Seq<Entry>, dist: Seq<u64>, tolerance: u64, n: int)
    requires
        0 <= n <= entries.len(),
    ensures
        0 <= removed_upto(entries, dist, tolerance, n) <= crate::quantize::seq_count(entries.take(n)),
    decreases n,
{
    if n > 0 {
        lemma_removed_bound(entries, dist, tolerance, n - 1);
        assert(entries.take(n).drop_last() == entries.take(n - 1));
    }
}

/// Drop the entries within `tolerance` of the background; returns the
/// entries that stay (in order) and the pixel count of those that went.
pub fn exclude_background(entries: &Vec<Entry>, dist: &Vec<u64>, tolerance: u64) -> (r: (Vec<Entry>, u64))
    requires
        dist@.len() == entries@.len(),
        crate::quantize::seq_count(entries@) <= u64::MAX,
    ensures
        r.0@ == kept_upto(entries@, dist@, tolerance, entries@.len() as int),
        r.1 == removed_upto(entries@, dist@, tolerance, entries@.len() as int),
{
    let mut kept: Vec<Entry> = Vec::new();
    let mut removed: u64 = 0;
    proof {
        lemma_removed_bound(entries@, dist@, tolerance, entries@.len() as int);
        assert(entries@.take(entries@.len() as int) == entries@);
    }
    for i in 0..entries.len()
        invariant
            dist@.len() == entries@.len(),
            crate::quantize::seq_count(entries@) <= u64::MAX,
            kept@ == kept_upto(entries@, dist@, tolerance, i as int),
            removed == removed_upto(entries@, dist@, tolerance, i as int),
    {
        proof {
            lemma_removed_bound(entries@, dist@, tolerance, i + 1);
            crate::quantize::lemma_seq_count_prefix(entries@, i + 1);
        }
        if dist[i] <= tolerance {
            removed = removed + entries[i].1;
        } else {
            kept.push(entries[i]);
        }
        assert(kept@ =~= kept_upto(entries@, dist@, tolerance, i + 1));
    }
    (kept, removed)
}

/// Excluding the background loses no pixel: the pixels of the entries that
/// stay and the pixels counted as removed add up to all the entries' pixels.
pub proof fn lemma_exclusion_accounts(entries: Seq<Entry>, dist: Seq<u64>, tolerance: u64)
    ensures
        crate::quantize::seq_count(kept_upto(entries, dist, tolerance, entries.len() as int))
            + removed_upto(entries, dist, tolerance, entries.len() as int) == crate::quantize::seq_count(entries),
{
    lemma_exclusion_accounts_upto(entries, dist, tolerance, entries.len() as int);
    assert(entries.take(entries.len() as int) == entries);
}

proof fn lemma_exclusion_accounts_upto(entries: Seq<Entry>, dist: Seq<u64>, tolerance: u64, n: int)
    requires
        0 <= n <= entries.len(),
    ensures
        crate::quantize::seq_count(kept_upto(entries, dist, tolerance, n)) + removed_upto(entries, dist, tolerance, n)
            == crate::quantize::seq_count(entries.take(n)),
    decreases n,
{
    if n > 0 {
        lemma_exclusion_accounts_upto(entries, dist, tolerance, n - 1);
        assert(entries.take(n).drop_last() == entries.take(n - 1));
        let k = kept_upto(entries, dist, tolerance, n - 1);
        if dist[n - 1] > tolerance {
            let k2 = k + seq![entries[n - 1]];
            assert(k2.drop_last() == k);
        } else {
            assert(k + Seq::<Entry>::empty() == k);
        }
    }
}

/// A flat background is detected exactly when some opaque corner has at
/// least three opaque corners (itself included) within `tolerance`; the
/// first such corner is the background.
pub proof fn lemma_detect_meaning(corners: Seq<Option<Rgb8>>, dist: Seq<Vec<u64>>, tolerance: u64)
    ensures
        detect_upto(corners, dist, tolerance, corners.len() as int) matches Some(c) ==> exists|a: int|
            0 <= a < corners.len() && corners[a] == Some(c) && #[trigger] agreeing(corners, dist, tolerance, a, corners.len() as int) >= 3
            && forall|b: int| 0 <= b < a ==> !(corners[b] is Some && #[trigger] agreeing(corners, dist, tolerance, b, corners.len() as int) >= 3),
        detect_upto(corners, dist, tolerance, corners.len() as int) is None ==> forall|a: int|
            0 <= a < corners.len() && corners[a] is Some ==> #[trigger] agreeing(corners, dist, tolerance, a, corners.len() as int) < 3,
{
    lemma_detect_upto(corners, dist, tolerance, corners.len() as int);
}

proof fn lemma_detect_upto(corners: Seq<Option<Rgb8>>, dist: Seq<Vec<u64>>, tolerance: u64, n: int)
    ensures
        detect_upto(corners, dist, tolerance, n) matches Some(c) ==> exists|a: int|
            0 <= a < n && corners[a] == Some(c) && #[trigger] agreeing(corners, dist, tolerance, a, corners.len() as int) >= 3
            && forall|b: int| 0 <= b < a ==> !(corners[b] is Some && #[trigger] agreeing(corners, dist, tolerance, b, corners.len() as int) >= 3),
        detect_upto(corners, dist, tolerance, n) is None ==> forall|a: int|
            0 <= a < n && corners[a] is Some ==> #[trigger] agreeing(corners, dist, tolerance, a, corners.len() as int) < 3,
    decreases n,
{
    if n > 0 {
        lemma_detect_upto(corners, dist, tolerance, n - 1);
        if detect_upto(corners, dist, tolerance, n - 1) is None {
            let a = n - 1;
            if corners[a] is Some && agreeing(corners, dist, tolerance, a, corners.len() as int) >= 3 {
                assert(corners[a] == detect_upto(corners, dist, tolerance, n));
            }
        }
    }
}

proof fn lemma_row_samples_count(width: int, step: int, x: int)
    requires
        step >= 1,
        x >= 0,
    ensures
        row_samples(width, step, x) == if x < width { (width - x + step - 1) / step } else { 0 },
    decreases if width - x > 0 { width - x } else { 0 },
{
    if x < width {
        lemma_row_samples_count(width, step, x + step);
        let d = width - x;
        if x + step < width {
            assert((d + step - 1) / step == 1 + (d - step + step - 1) / step) by (nonlinear_arith)
                requires step >= 1, d > step;
        } else {
            assert((d + step - 1) / step == 1) by (nonlinear_arith)
                requires step >= 1, 1 <= d <= step;
        }
    }
}

proof fn lemma_grid_samples_count(width: int, height: int, step: int, y: int)
    requires
        step >= 1,
        y >= 0,
    ensures
        grid_samples(width, height, step, y)
            == (if y < height { (height - y + step - 1) / step } else { 0 }) * row_samples(width, step, 0),
    decreases if height - y > 0 { height - y } else { 0 },
{
    if y < height {
        lemma_grid_samples_count(width, height, step, y + step);
        let d = height - y;
        let r = row_samples(width, step, 0);
        assert(grid_samples(width, height, step, y) == r + grid_samples(width, height, step, y + step));
        if y + step < height {
            let q = (height - (y + step) + step - 1) / step;
            assert((d + step - 1) / step == 1 + q) by (nonlinear_arith)
                requires step >= 1, d > step, d == height - y, q == (height - (y + step) + step - 1) / step;
            assert(grid_samples(width, height, step, y + step) == q * r);
            assert(r + q * r == (1 + q) * r) by (nonlinear_arith);
        } else {
            assert((d + step - 1) / step == 1) by (nonlinear_arith)
                requires step >= 1, 1 <= d <= step;
            assert(grid_samples(width, height, step, y + step) == 0);
        }
    }
}

/// The grid takes every `step`-th pixel of every `step`-th row: it samples
/// `ceil(width / step) * ceil(height / step)` pixels.
pub proof fn lemma_grid_size(width: int, height: int, step: int)
    requires
        width >= 0,
        height >= 0,
        step >= 1,
    ensures
        grid_samples(width, height, step, 0) == ((width + step - 1) / step) * ((height + step - 1) / step),
{
    lemma_row_samples_count(width, step, 0);
    lemma_grid_samples_count(width, height, step, 0);
    if width == 0 {
        assert((step - 1) / step == 0) by (nonlinear_arith) requires step >= 1;
    }
    if height == 0 {
        assert((step - 1) / step == 0) by (nonlinear_arith) requires step >= 1;
    }
    let a = (width + step - 1) / step;
    let b = (height + step - 1) / step;
    assert(b * a == a * b) by (nonlinear_arith);
}

/// The `q`-th position of a grid of pitch `step`.
pub open spec fn grid_pos(q: int, step: int) -> int {
    q * step
}

/// `c` is the color of an opaque pixel on the grid of pitch `step`.
pub open spec fn grid_source(rgba: Seq<u8>, width: int, height: int, step: int, c: Rgb8) -> bool {
    exists|qx: int, qy: int| 0 <= grid_pos(qx, step) < width && 0 <= grid_pos(qy, step) < height
        && alpha_at(rgba, width, grid_pos(qx, step), grid_pos(qy, step)) >= ALPHA_MIN
        && #[trigger] color_at(rgba, width, grid_pos(qx, step), grid_pos(qy, step)) == c
}

proof fn lemma_row_grid_sources(rgba: Seq<u8>, width: int, height: int, step: int, qy: int, qx: int)
    requires
        0 <= grid_pos(qy, step) < height,
        step >= 1,
        qx >= 0,
    ensures
        forall|i: int| 0 <= i < row_opaque(rgba, width, step, grid_pos(qy, step), grid_pos(qx, step)).len()
            ==> grid_source(rgba, width, height, step,
                #[trigger] row_opaque(rgba, width, step, grid_pos(qy, step), grid_pos(qx, step))[i]),
    decreases if width - grid_pos(qx, step) > 0 { width - grid_pos(qx, step) } else { 0 },
{
    let x = grid_pos(qx, step);
    let y = grid_pos(qy, step);
    assert(x >= 0) by (nonlinear_arith) requires qx >= 0, step >= 1, x == qx * step;
    if x < width {
        assert(grid_pos(qx + 1, step) == x + step) by (nonlinear_arith) requires x == qx * step;
        lemma_row_grid_sources(rgba, width, height, step, qy, qx + 1);
        let head = if alpha_at(rgba, width, x, y) >= ALPHA_MIN { seq![color_at(rgba, width, x, y)] } else { Seq::<Rgb8>::empty() };
        let rest = row_opaque(rgba, width, step, y, x + step);
        let row = row_opaque(rgba, width, step, y, x);
        assert(row == head + rest);
        assert forall|i: int| 0 <= i < row.len() implies grid_source(rgba, width, height, step, #[trigger] row[i]) by {
            if i < head.len() {
                assert(row[i] == color_at(rgba, width, grid_pos(qx, step), grid_pos(qy, step)));
            } else {
                assert(row[i] == rest[i - head.len()]);
            }
        }
    }
}

proof fn lemma_grid_sources_from(rgba: Seq<u8>, width: int, height: int, step: int, qy: int)
    requires
        step >= 1,
        qy >= 0,
    ensures
        forall|i: int| 0 <= i < grid_opaque(rgba, width, height, step, grid_pos(qy, step)).len()
            ==> grid_source(rgba, width, height, step, #[trigger] grid_opaque(rgba, width, height, step, grid_pos(qy, step))[i]),
    decreases if height - grid_pos(qy, step) > 0 { height - grid_pos(qy, step) } else { 0 },
{
    let y = grid_pos(qy, step);
    assert(y >= 0) by (nonlinear_arith) requires qy >= 0, step >= 1, y == qy * step;
    if y < height {
        assert(grid_pos(qy + 1, step) == y + step) by (nonlinear_arith) requires y == qy * step;
        assert(grid_pos(0, step) == 0);
        lemma_row_grid_sources(rgba, width, height, step, qy, 0);
        lemma_grid_sources_from(rgba, width, height, step, qy + 1);
        let row = row_opaque(rgba, width, step, y, 0);
        let rest = grid_opaque(rgba, width, height, step, y + step);
        let g = grid_opaque(rgba, width, height, step, y);
        assert(g == row + rest);
        assert forall|i: int| 0 <= i < g.len() implies grid_source(rgba, width, height, step, #[trigger] g[i]) by {
            if i < row.len() {
                assert(g[i] == row[i]);
            } else {
                assert(g[i] == rest[i - row.len()]);
            }
        }
    }
}

/// Every color the grid keeps is that of an opaque pixel whose column and
/// row are both multiples of the pitch.
pub proof fn lemma_only_grid_pixels(rgba: Seq<u8>, width: int, height: int, step: int)
    requires
        step >= 1,
    ensures
        forall|i: int| 0 <= i < grid_opaque(rgba, width, height, step, 0).len()
            ==> grid_source(rgba, width, height, step, #[trigger] grid_opaque(rgba, width, height, step, 0)[i]),
{
    assert(grid_pos(0, step) == 0);
    lemma_grid_sources_from(rgba, width, height, step, 0);
}

/// Background exclusion keeps exactly the entries farther than the
/// tolerance from the background, and no more entries than it was given.
pub proof fn lemma_exclusion_keeps_far_entries(entries: Seq<Entry>, dist: Seq<u64>, tolerance: u64, n: int)
    requires
        0 <= n <= entries.len(),
        dist.len() == entries.len(),
    ensures
        kept_upto(entries, dist, tolerance, n).len() <= n,
        forall|x: Entry| kept_upto(entries, dist, tolerance, n).contains(x)
            <==> exists|i: int| 0 <= i < n && dist[i] > tolerance && #[trigger] entries[i] == x,
    decreases n,
{
    if n > 0 {
        lemma_exclusion_keeps_far_entries(entries, dist, tolerance, n - 1);
        let prev = kept_upto(entries, dist, tolerance, n - 1);
        let cur = kept_upto(entries, dist, tolerance, n);
        if dist[n - 1] > tolerance {
            assert(cur == prev.push(entries[n - 1]));
        } else {
            assert(cur == prev + Seq::<Entry>::empty());
            assert(cur == prev);
        }
        assert forall|x: Entry| cur.contains(x)
            <==> exists|i: int| 0 <= i < n && dist[i] > tolerance && #[trigger] entries[i] == x by {
            if cur.contains(x) {
                let q = choose|q: int| 0 <= q < cur.len() && cur[q] == x;
                if q < prev.len() {
                    assert(prev[q] == x);
                    assert(prev.contains(x));
                } else {
                    assert(dist[n - 1] > tolerance && entries[n - 1] == x);
                }
            }
            if exists|i: int| 0 <= i < n && dist[i] > tolerance && #[trigger] entries[i] == x {
                let i = choose|i: int| 0 <= i < n && dist[i] > tolerance && #[trigger] entries[i] == x;
                if i < n - 1 {
                    assert(prev.contains(x));
                    let q = choose|q: int| 0 <= q < prev.len() && prev[q] == x;
                    assert(cur[q] == x);
                } else {
                    assert(cur[cur.len() - 1] == x);
                }
            }
        }
    }
}

/// The corners counted as agreeing with corner `a` are exactly the opaque
/// corners within `tolerance` of it: transparent corners never count.
pub proof fn lemma_agreeing_counts_opaque_near(corners: Seq<Option<Rgb8>>, dist: Seq<Vec<u64>>, tolerance: u64, a: int, n: int)
    requires
        n >= 0,
    ensures
        agreeing(corners, dist, tolerance, a, n)
            == Seq::new(n as nat, |b: int| b).filter(|b: int| corners[b] is Some && dist[a]@[b] <= tolerance).len(),
    decreases n,
{
    let pred = |b: int| corners[b] is Some && dist[a]@[b] <= tolerance;
    let idx = Seq::new(n as nat, |b: int| b);
    if n > 0 {
        lemma_agreeing_counts_opaque_near(corners, dist, tolerance, a, n - 1);
        let prev = Seq::new((n - 1) as nat, |b: int| b);
        assert(idx.drop_last() =~= prev);
        assert(idx.last() == n - 1);
        reveal(Seq::filter);
        let sub = prev.filter(pred);
        assert(idx.filter(pred) == if pred(n - 1) { sub.push(n - 1) } else { sub });
    } else {
        reveal(Seq::filter);
        assert(idx.len() == 0);
        assert(idx.filter(pred) == idx);
    }
}

} // verus!
