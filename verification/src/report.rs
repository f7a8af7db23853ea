//! Human-readable terminal output, with true-color swatches where supported.
//!
//! Numbers in the tables (distances, percentages) are doubles; the caller
//! formats them and hands the texts in.

use vstd::prelude::*;
use crate::check::{CheckReport, ColorResult, ColorStatus, ForeignColor, Verdict};
use crate::color::{Rgb8, spec_hex};
use crate::palette::{opt_view, text_at};
use crate::quantize::Cluster;
use crate::text::{chars_of, string_of, decimal, append_chars, push_str};

verus! {

/// Whether to emit ANSI escapes.
#[derive(Debug, Clone, Copy, PartialEq, Eq, Structural)]
pub enum ColorChoice {
    Auto,
    Never,
}

pub struct Style {
    color: bool,
}

/// `\x1b[` -- the start of an ANSI control sequence.
pub open spec fn csi() -> Seq<char> {
    seq!['\u{1b}', '[']
}

/// `\x1b[0m` -- reset.
pub open spec fn reset() -> Seq<char> {
    seq!['\u{1b}', '[', '0', 'm']
}

pub open spec fn spec_swatch(c: Rgb8) -> Seq<char> {
    csi() + seq!['4', '8', ';', '2', ';'] + decimal(c.r as int) + seq![';'] + decimal(c.g as int) + seq![';']
        + decimal(c.b as int) + seq!['m', ' ', ' '] + reset() + seq![' ']
}

pub open spec fn spec_paint(color: bool, code: Seq<char>, s: Seq<char>) -> Seq<char> {
    if color {
        csi() + code + seq!['m'] + s + reset()
    } else {
        s
    }
}

fn push_decimal(out: &mut Vec<char>, n: u8)
    ensures
        final(out)@ == old(out)@ + decimal(n as int),
{
    if n >= 100 {
        out.push(((48 + n / 100) as u8) as char);
        out.push(((48 + (n / 10) % 10) as u8) as char);
        out.push(((48 + n % 10) as u8) as char);
        assert(decimal(n as int) == decimal(n as int / 10) + seq![((48 + n % 10) as u8) as char]);
        assert(decimal(n as int / 10) == decimal(n as int / 100) + seq![((48 + (n / 10) % 10) as u8) as char]);
    } else if n >= 10 {
        out.push(((48 + n / 10) as u8) as char);
        out.push(((48 + n % 10) as u8) as char);
        assert(decimal(n as int) == decimal(n as int / 10) + seq![((48 + n % 10) as u8) as char]);
    } else {
        out.push(((48 + n) as u8) as char);
    }
}

impl Style {
    /// Colors go out when asked for automatically, stdout is a terminal and
    /// `NO_COLOR` is not set; never when asked for never.
    pub fn new(choice: ColorChoice, stdout_is_tty: bool, no_color_set: bool) -> (s: Self)
        ensures
            s.uses_color() == (choice == ColorChoice::Auto && stdout_is_tty && !no_color_set),
    {
        let color = match choice {
            ColorChoice::Never => false,
            ColorChoice::Auto => stdout_is_tty && !no_color_set,
        };
        Style { color }
    }

    pub closed spec fn uses_color(&self) -> bool {
        self.color
    }

    /// A two-cell block painted with the color, so hex values can be checked
    /// by eye. Empty when color is off.
    pub fn swatch(&self, c: Rgb8) -> (s: String)
        ensures
            s@ == if self.uses_color() { spec_swatch(c) } else { Seq::empty() },
    {
        if self.color {
            let mut out: Vec<char> = Vec::new();
            out.push('\u{1b}');
            out.push('[');
            out.push('4');
            out.push('8');
            out.push(';');
            out.push('2');
            out.push(';');
            push_decimal(&mut out, c.r);
            out.push(';');
            push_decimal(&mut out, c.g);
            out.push(';');
            push_decimal(&mut out, c.b);
            out.push('m');
            out.push(' ');
            out.push(' ');
            out.push('\u{1b}');
            out.push('[');
            out.push('0');
            out.push('m');
            out.push(' ');
            string_of(&out)
        } else {
            String::new()
        }
    }

    fn paint(&self, code: &str, s: &str) -> (r: String)
        ensures
            r@ == spec_paint(self.uses_color(), code@, s@),
    {
        if self.color {
            let mut out: Vec<char> = Vec::new();
            out.push('\u{1b}');
            out.push('[');
            append_chars(&mut out, &chars_of(code));
            out.push('m');
            append_chars(&mut out, &chars_of(s));
            out.push('\u{1b}');
            out.push('[');
            out.push('0');
            out.push('m');
            string_of(&out)
        } else {
            string_of(&chars_of(s))
        }
    }

    /// The status word, padded to one width, green, yellow or red.
    pub fn status_word(&self, s: ColorStatus) -> (r: String)
        ensures
            r@ == match s {
                ColorStatus::Held => spec_paint(self.uses_color(), "32"@, "ok     "@),
                ColorStatus::Drift => spec_paint(self.uses_color(), "33"@, "drift  "@),
                ColorStatus::Missing => spec_paint(self.uses_color(), "31"@, "missing"@),
            },
    {
        match s {
            ColorStatus::Held => self.paint("32", "ok     "),
            ColorStatus::Drift => self.paint("33", "drift  "),
            ColorStatus::Missing => self.paint("31", "missing"),
        }
    }

    /// The verdict word, bold green, yellow or red.
    pub fn verdict_word(&self, v: Verdict) -> (r: String)
        ensures
            r@ == match v {
                Verdict::Pass => spec_paint(self.uses_color(), "32;1"@, "PASS"@),
                Verdict::Warn => spec_paint(self.uses_color(), "33;1"@, "WARN"@),
                Verdict::Fail => spec_paint(self.uses_color(), "31;1"@, "FAIL"@),
            },
    {
        match v {
            Verdict::Pass => self.paint("32;1", "PASS"),
            Verdict::Warn => self.paint("33;1", "WARN"),
            Verdict::Fail => self.paint("31;1", "FAIL"),
        }
    }
}

// ---------------------------------------------------------------------------
// Tables

pub open spec fn swatch_text(color: bool, c: Rgb8) -> Seq<char> {
    if color { spec_swatch(c) } else { Seq::empty() }
}

pub open spec fn status_text(color: bool, s: ColorStatus) -> Seq<char> {
    match s {
        ColorStatus::Held => spec_paint(color, "32"@, "ok     "@),
        ColorStatus::Drift => spec_paint(color, "33"@, "drift  "@),
        ColorStatus::Missing => spec_paint(color, "31"@, "missing"@),
    }
}

pub open spec fn verdict_text(color: bool, v: Verdict) -> Seq<char> {
    match v {
        Verdict::Pass => spec_paint(color, "32;1"@, "PASS"@),
        Verdict::Warn => spec_paint(color, "33;1"@, "WARN"@),
        Verdict::Fail => spec_paint(color, "31;1"@, "FAIL"@),
    }
}

/// One row of an extracted palette: swatch, hex, and the weight in percent.
pub open spec fn palette_row(color: bool, c: Cluster, percent: Seq<char>) -> Seq<char> {
    "  "@ + swatch_text(color, c.color) + "#"@ + spec_hex(c.color) + "  "@ + percent + "%\n"@
}

pub open spec fn palette_rows(color: bool, cs: Seq<Cluster>, percents: Seq<Seq<char>>, n: int) -> Seq<char>
    decreases n,
{
    if n <= 0 {
        Seq::empty()
    } else {
        palette_rows(color, cs, percents, n - 1) + palette_row(color, cs[n - 1], text_at(percents, n - 1))
    }
}

/// Where a reference color's nearest cluster is, and how far.
pub open spec fn nearest_text(color: bool, c: ColorResult, delta: Seq<char>) -> Seq<char> {
    match (c.nearest, c.delta_e) {
        (Some(n), Some(_)) => "nearest "@ + swatch_text(color, n) + "#"@ + spec_hex(n) + "  dE "@ + delta,
        _ => "no foreground pixels"@,
    }
}

pub open spec fn label_text(l: Option<Seq<char>>) -> Seq<char> {
    match l {
        Some(v) => v,
        None => Seq::empty(),
    }
}

/// One reference color's row: status, the reference, its nearest cluster and
/// its label.
pub open spec fn result_row(color: bool, c: ColorResult, delta: Seq<char>) -> Seq<char> {
    "  "@ + status_text(color, c.status) + " "@ + swatch_text(color, c.reference) + "#"@ + spec_hex(c.reference)
        + "  "@ + nearest_text(color, c, delta) + "  "@ + label_text(opt_view(c.label)) + "\n"@
}

pub open spec fn result_rows(color: bool, cs: Seq<ColorResult>, deltas: Seq<Seq<char>>, n: int) -> Seq<char>
    decreases n,
{
    if n <= 0 {
        Seq::empty()
    } else {
        result_rows(color, cs, deltas, n - 1) + result_row(color, cs[n - 1], text_at(deltas, n - 1))
    }
}

/// One foreign color's row: its share and its nearest reference color.
pub open spec fn foreign_row(color: bool, f: ForeignColor, percent: Seq<char>, delta: Seq<char>) -> Seq<char> {
    "    "@ + swatch_text(color, f.color) + "#"@ + spec_hex(f.color) + "  "@ + percent
        + "%  (nearest reference #"@ + spec_hex(f.nearest_reference) + " at dE "@ + delta + ")\n"@
}

pub open spec fn foreign_rows(color: bool, fs: Seq<ForeignColor>, percents: Seq<Seq<char>>, deltas: Seq<Seq<char>>, n: int) -> Seq<char>
    decreases n,
{
    if n <= 0 {
        Seq::empty()
    } else {
        foreign_rows(color, fs, percents, deltas, n - 1)
            + foreign_row(color, fs[n - 1], text_at(percents, n - 1), text_at(deltas, n - 1))
    }
}

/// At most this many foreign colors are listed in a table.
pub const FOREIGN_ROWS: usize = 5;

/// The numbers of a check table, formatted by the caller: the distance of
/// each reference color to its nearest cluster, the foreign share, and each
/// listed foreign color's share and distance.
pub struct CheckNumbers {
    pub deltas: Vec<String>,
    pub foreign_share: String,
    pub foreign_percents: Vec<String>,
    pub foreign_deltas: Vec<String>,
}

pub open spec fn texts_view(v: Seq<String>) -> Seq<Seq<char>> {
    v.map_values(|t: String| t@)
}

/// The table for one checked image.
pub open spec fn spec_check_table(
    color: bool,
    name: Seq<char>,
    report: CheckReport,
    verdict: Verdict,
    nums: CheckNumbers,
) -> Seq<char> {
    let fs = report.foreign@;
    name + ": "@ + verdict_text(color, verdict) + "\n"@
        + result_rows(color, report.colors@, texts_view(nums.deltas@), report.colors@.len() as int)
        + if fs.len() == 0 {
            Seq::empty()
        } else {
            "  foreign paint: "@ + nums.foreign_share@ + "% of foreground\n"@
                + foreign_rows(color, fs, texts_view(nums.foreign_percents@), texts_view(nums.foreign_deltas@),
                    if fs.len() < FOREIGN_ROWS { fs.len() as int } else { FOREIGN_ROWS as int })
        }
}

pub(crate) fn text_at_exec(texts: &Vec<String>, i: usize) -> (t: &str)
    ensures
        t@ == text_at(texts_view(texts@), i as int),
{
    if i < texts.len() {
        texts[i].as_str()
    } else {
        proof {
            reveal_strlit("");
        }
        ""
    }
}

impl Style {
    /// An extracted palette as a table; `percents[i]` is the text of
    /// cluster `i`'s weight in percent.
    pub fn palette_table(&self, clusters: &Vec<Cluster>, percents: &Vec<String>) -> (s: String)
        ensures
            s@ == palette_rows(self.uses_color(), clusters@, texts_view(percents@), clusters@.len() as int),
    {
        let mut out: Vec<char> = Vec::new();
        for i in 0..clusters.len()
            invariant
                out@ == palette_rows(self.uses_color(), clusters@, texts_view(percents@), i as int),
        {
            let c = clusters[i];
            push_str(&mut out, "  ");
            push_str(&mut out, self.swatch(c.color).as_str());
            push_str(&mut out, "#");
            push_str(&mut out, c.color.hex().as_str());
            push_str(&mut out, "  ");
            push_str(&mut out, text_at_exec(percents, i));
            push_str(&mut out, "%\n");
            assert(out@ =~= palette_rows(self.uses_color(), clusters@, texts_view(percents@), i + 1));
        }
        string_of(&out)
    }

    fn push_nearest(&self, out: &mut Vec<char>, c: &ColorResult, delta: &str)
        ensures
            final(out)@ == old(out)@ + nearest_text(self.uses_color(), *c, delta@),
    {
        match (c.nearest, c.delta_e) {
            (Some(n), Some(_)) => {
                let ghost start = out@;
                push_str(out, "nearest ");
                push_str(out, self.swatch(n).as_str());
                push_str(out, "#");
                push_str(out, n.hex().as_str());
                push_str(out, "  dE ");
                push_str(out, delta);
                assert(out@ =~= start + nearest_text(self.uses_color(), *c, delta@));
            },
            _ => {
                push_str(out, "no foreground pixels");
            },
        }
    }

    #[verifier::rlimit(40)]
    fn push_result_row(&self, out: &mut Vec<char>, c: &ColorResult, delta: &str)
        ensures
            final(out)@ == old(out)@ + result_row(self.uses_color(), *c, delta@),
    {
        let ghost start = out@;
        push_str(out, "  ");
        push_str(out, self.status_word(c.status).as_str());
        push_str(out, " ");
        push_str(out, self.swatch(c.reference).as_str());
        push_str(out, "#");
        push_str(out, c.reference.hex().as_str());
        push_str(out, "  ");
        let ghost a = out@;
        assert(a =~= start + ("  "@ + status_text(self.uses_color(), c.status) + " "@ + swatch_text(self.uses_color(), c.reference)
            + "#"@ + spec_hex(c.reference) + "  "@));
        self.push_nearest(out, c, delta);
        push_str(out, "  ");
        match &c.label {
            Some(l) => push_str(out, l.as_str()),
            None => {},
        }
        push_str(out, "\n");
        assert(out@ =~= a + (nearest_text(self.uses_color(), *c, delta@) + "  "@ + label_text(opt_view(c.label)) + "\n"@));
    }

    fn push_foreign_row(&self, out: &mut Vec<char>, f: &ForeignColor, percent: &str, delta: &str)
        ensures
            final(out)@ == old(out)@ + foreign_row(self.uses_color(), *f, percent@, delta@),
    {
        push_str(out, "    ");
        push_str(out, self.swatch(f.color).as_str());
        push_str(out, "#");
        push_str(out, f.color.hex().as_str());
        push_str(out, "  ");
        push_str(out, percent);
        push_str(out, "%  (nearest reference #");
        push_str(out, f.nearest_reference.hex().as_str());
        push_str(out, " at dE ");
        push_str(out, delta);
        push_str(out, ")\n");
        assert(final(out)@ =~= old(out)@ + foreign_row(self.uses_color(), *f, percent@, delta@));
    }

    fn push_result_rows(&self, out: &mut Vec<char>, report: &CheckReport, nums: &CheckNumbers)
        ensures
            final(out)@ == old(out)@ + result_rows(self.uses_color(), report.colors@, texts_view(nums.deltas@),
                report.colors@.len() as int),
    {
        let ghost color = self.uses_color();
        let ghost head = out@;
        for i in 0..report.colors.len()
            invariant
                color == self.uses_color(),
                out@ == head + result_rows(color, report.colors@, texts_view(nums.deltas@), i as int),
        {
            self.push_result_row(out, &report.colors[i], text_at_exec(&nums.deltas, i));
            assert(out@ =~= head + result_rows(color, report.colors@, texts_view(nums.deltas@), i + 1));
        }
    }

    fn push_foreign_part(&self, out: &mut Vec<char>, report: &CheckReport, nums: &CheckNumbers)
        requires
            report.foreign@.len() > 0,
        ensures
            final(out)@ == old(out)@ + "  foreign paint: "@ + nums.foreign_share@ + "% of foreground\n"@
                + foreign_rows(self.uses_color(), report.foreign@, texts_view(nums.foreign_percents@),
                    texts_view(nums.foreign_deltas@),
                    if report.foreign@.len() < FOREIGN_ROWS { report.foreign@.len() as int } else { FOREIGN_ROWS as int }),
    {
        let ghost color = self.uses_color();
        let ghost start = out@;
        push_str(out, "  foreign paint: ");
        push_str(out, nums.foreign_share.as_str());
        push_str(out, "% of foreground\n");
        let ghost fhead = out@;
        let n = if report.foreign.len() < FOREIGN_ROWS { report.foreign.len() } else { FOREIGN_ROWS };
        for i in 0..n
            invariant
                color == self.uses_color(),
                n <= report.foreign.len(),
                out@ == fhead + foreign_rows(color, report.foreign@, texts_view(nums.foreign_percents@),
                    texts_view(nums.foreign_deltas@), i as int),
        {
            self.push_foreign_row(out, &report.foreign[i], text_at_exec(&nums.foreign_percents, i),
                text_at_exec(&nums.foreign_deltas, i));
            assert(out@ =~= fhead + foreign_rows(color, report.foreign@, texts_view(nums.foreign_percents@),
                texts_view(nums.foreign_deltas@), i + 1));
        }
    }

    /// One checked image's report as a table: the verdict, a row per
    /// reference color, and the foreign paint (at most five colors of it).
    pub fn check_table(&self, name: &str, report: &CheckReport, verdict: Verdict, nums: &CheckNumbers) -> (s: String)
        ensures
            s@ == spec_check_table(self.uses_color(), name@, *report, verdict, *nums),
    {
        let mut out: Vec<char> = Vec::new();
        push_str(&mut out, name);
        push_str(&mut out, ": ");
        push_str(&mut out, self.verdict_word(verdict).as_str());
        push_str(&mut out, "\n");
        self.push_result_rows(&mut out, report, nums);
        let ghost body = out@;
        if report.foreign.len() > 0 {
            self.push_foreign_part(&mut out, report, nums);
        }
        assert(out@ =~= spec_check_table(self.uses_color(), name@, *report, verdict, *nums));
        string_of(&out)
    }
}

/// What happened to the background, `dropped` being the text of the share
/// of samples that were dropped, in percent.
pub open spec fn spec_background_text(background: Option<Rgb8>, dropped: Seq<char>) -> Seq<char> {
    match background {
        Some(c) => "#"@ + spec_hex(c) + " excluded ("@ + dropped + "% of samples dropped)"@,
        None => "none excluded"@,
    }
}

/// What happened to the background, `dropped` being the text of the share
/// of samples that were dropped, in percent.
pub fn background_text(background: Option<Rgb8>, dropped: &str) -> (s: String)
    ensures
        s@ == spec_background_text(background, dropped@),
{
    let mut out: Vec<char> = Vec::new();
    match background {
        Some(c) => {
            push_str(&mut out, "#");
            push_str(&mut out, c.hex().as_str());
            push_str(&mut out, " excluded (");
            push_str(&mut out, dropped);
            push_str(&mut out, "% of samples dropped)");
            assert(out@ =~= spec_background_text(background, dropped@));
        },
        None => {
            push_str(&mut out, "none excluded");
            assert(out@ =~= spec_background_text(background, dropped@));
        },
    }
    string_of(&out)
}

// ---------------------------------------------------------------------------
// Each row of a table is about its own item

proof fn lemma_prefix_step(p: Seq<char>, q: Seq<char>, row: Seq<char>)
    requires
        p.is_prefix_of(q),
    ensures
        p.is_prefix_of(q + row),
{
    assert((q + row).subrange(0, p.len() as int) =~= q.subrange(0, p.len() as int));
}

proof fn lemma_result_rows_prefix(color: bool, cs: Seq<ColorResult>, deltas: Seq<Seq<char>>, m: int, n: int)
    requires
        0 <= m <= n,
    ensures
        result_rows(color, cs, deltas, m).is_prefix_of(result_rows(color, cs, deltas, n)),
    decreases n,
{
    if m < n {
        lemma_result_rows_prefix(color, cs, deltas, m, n - 1);
        lemma_prefix_step(result_rows(color, cs, deltas, m), result_rows(color, cs, deltas, n - 1),
            result_row(color, cs[n - 1], text_at(deltas, n - 1)));
    } else {
        assert(result_rows(color, cs, deltas, m).subrange(0, result_rows(color, cs, deltas, m).len() as int)
            =~= result_rows(color, cs, deltas, m));
    }
}

proof fn lemma_foreign_rows_prefix(color: bool, fs: Seq<ForeignColor>, percents: Seq<Seq<char>>, deltas: Seq<Seq<char>>, m: int, n: int)
    requires
        0 <= m <= n,
    ensures
        foreign_rows(color, fs, percents, deltas, m).is_prefix_of(foreign_rows(color, fs, percents, deltas, n)),
    decreases n,
{
    if m < n {
        lemma_foreign_rows_prefix(color, fs, percents, deltas, m, n - 1);
        lemma_prefix_step(foreign_rows(color, fs, percents, deltas, m), foreign_rows(color, fs, percents, deltas, n - 1),
            foreign_row(color, fs[n - 1], text_at(percents, n - 1), text_at(deltas, n - 1)));
    } else {
        assert(foreign_rows(color, fs, percents, deltas, m).subrange(0, foreign_rows(color, fs, percents, deltas, m).len() as int)
            =~= foreign_rows(color, fs, percents, deltas, m));
    }
}

proof fn lemma_palette_rows_prefix(color: bool, cs: Seq<Cluster>, percents: Seq<Seq<char>>, m: int, n: int)
    requires
        0 <= m <= n,
    ensures
        palette_rows(color, cs, percents, m).is_prefix_of(palette_rows(color, cs, percents, n)),
    decreases n,
{
    if m < n {
        lemma_palette_rows_prefix(color, cs, percents, m, n - 1);
        lemma_prefix_step(palette_rows(color, cs, percents, m), palette_rows(color, cs, percents, n - 1),
            palette_row(color, cs[n - 1], text_at(percents, n - 1)));
    } else {
        assert(palette_rows(color, cs, percents, m).subrange(0, palette_rows(color, cs, percents, m).len() as int)
            =~= palette_rows(color, cs, percents, m));
    }
}

proof fn lemma_prefix_in_context(head: Seq<char>, p: Seq<char>, q: Seq<char>, tail: Seq<char>)
    requires
        p.is_prefix_of(q),
    ensures
        (head + p).is_prefix_of(head + q + tail),
{
    assert((head + q + tail).subrange(0, (head + p).len() as int) =~= head + p);
}

/// Row `i` of an extracted palette's table follows the rows before it and
/// shows cluster `i` with its own weight text.
pub proof fn lemma_palette_table_row(color: bool, cs: Seq<Cluster>, percents: Seq<Seq<char>>, i: int)
    requires
        0 <= i < cs.len(),
    ensures
        (palette_rows(color, cs, percents, i) + palette_row(color, cs[i], text_at(percents, i)))
            .is_prefix_of(palette_rows(color, cs, percents, cs.len() as int)),
{
    lemma_palette_rows_prefix(color, cs, percents, i + 1, cs.len() as int);
}

/// Row `i` of a check table follows the verdict line and the rows before it
/// and shows reference color `i` with its own status, nearest cluster,
/// distance text `deltas[i]` and label.
pub proof fn lemma_check_table_row(color: bool, name: Seq<char>, report: CheckReport, verdict: Verdict, nums: CheckNumbers, i: int)
    requires
        0 <= i < report.colors@.len(),
    ensures
        (name + ": "@ + verdict_text(color, verdict) + "\n"@
            + result_rows(color, report.colors@, texts_view(nums.deltas@), i)
            + result_row(color, report.colors@[i], text_at(texts_view(nums.deltas@), i)))
            .is_prefix_of(spec_check_table(color, name, report, verdict, nums)),
{
    let cs = report.colors@;
    let ds = texts_view(nums.deltas@);
    let head = name + ": "@ + verdict_text(color, verdict) + "\n"@;
    lemma_result_rows_prefix(color, cs, ds, i + 1, cs.len() as int);
    let fs = report.foreign@;
    let tail = if fs.len() == 0 {
        Seq::empty()
    } else {
        "  foreign paint: "@ + nums.foreign_share@ + "% of foreground\n"@
            + foreign_rows(color, fs, texts_view(nums.foreign_percents@), texts_view(nums.foreign_deltas@),
                if fs.len() < FOREIGN_ROWS { fs.len() as int } else { FOREIGN_ROWS as int })
    };
    lemma_prefix_in_context(head, result_rows(color, cs, ds, i + 1), result_rows(color, cs, ds, cs.len() as int), tail);
    assert(head + result_rows(color, cs, ds, i + 1) =~= head + result_rows(color, cs, ds, i) + result_row(color, cs[i], text_at(ds, i)));
}

/// The foreign part of a check table lists at most five foreign colors; its
/// row `i` follows the rows before it and shows foreign color `i` with its
/// own share and distance texts.
#[verifier::rlimit(20)]
pub proof fn lemma_check_table_foreign_row(color: bool, name: Seq<char>, report: CheckReport, verdict: Verdict, nums: CheckNumbers, i: int)
    requires
        0 <= i < report.foreign@.len(),
        i < FOREIGN_ROWS,
    ensures
        (name + ": "@ + verdict_text(color, verdict) + "\n"@
            + result_rows(color, report.colors@, texts_view(nums.deltas@), report.colors@.len() as int)
            + "  foreign paint: "@ + nums.foreign_share@ + "% of foreground\n"@
            + foreign_rows(color, report.foreign@, texts_view(nums.foreign_percents@), texts_view(nums.foreign_deltas@), i)
            + foreign_row(color, report.foreign@[i], text_at(texts_view(nums.foreign_percents@), i),
                text_at(texts_view(nums.foreign_deltas@), i)))
            .is_prefix_of(spec_check_table(color, name, report, verdict, nums)),
{
    let fs = report.foreign@;
    let ps = texts_view(nums.foreign_percents@);
    let ds = texts_view(nums.foreign_deltas@);
    let shown = if fs.len() < FOREIGN_ROWS { fs.len() as int } else { FOREIGN_ROWS as int };
    let top = name + ": "@ + verdict_text(color, verdict) + "\n"@
        + result_rows(color, report.colors@, texts_view(nums.deltas@), report.colors@.len() as int);
    lemma_foreign_rows_prefix(color, fs, ps, ds, i + 1, shown);
    let before = foreign_rows(color, fs, ps, ds, i);
    let row = foreign_row(color, fs[i], text_at(ps, i), text_at(ds, i));
    lemma_foreign_rows_step(color, fs, ps, ds, i);
    lemma_check_table_parts(color, name, report, verdict, nums);
    lemma_row_after_intro(top, "  foreign paint: "@, nums.foreign_share@, "% of foreground\n"@, before, row,
        foreign_rows(color, fs, ps, ds, shown));
}

proof fn lemma_foreign_rows_step(color: bool, fs: Seq<ForeignColor>, percents: Seq<Seq<char>>, deltas: Seq<Seq<char>>, i: int)
    requires
        0 <= i,
    ensures
        foreign_rows(color, fs, percents, deltas, i + 1)
            == foreign_rows(color, fs, percents, deltas, i) + foreign_row(color, fs[i], text_at(percents, i), text_at(deltas, i)),
{
}

proof fn lemma_check_table_parts(color: bool, name: Seq<char>, report: CheckReport, verdict: Verdict, nums: CheckNumbers)
    requires
        report.foreign@.len() > 0,
    ensures
        spec_check_table(color, name, report, verdict, nums)
            == (name + ": "@ + verdict_text(color, verdict) + "\n"@
                + result_rows(color, report.colors@, texts_view(nums.deltas@), report.colors@.len() as int))
            + ("  foreign paint: "@ + nums.foreign_share@ + "% of foreground\n"@
                + foreign_rows(color, report.foreign@, texts_view(nums.foreign_percents@), texts_view(nums.foreign_deltas@),
                    if report.foreign@.len() < FOREIGN_ROWS { report.foreign@.len() as int } else { FOREIGN_ROWS as int })),
{
}

proof fn lemma_row_after_intro(top: Seq<char>, a: Seq<char>, b: Seq<char>, c: Seq<char>, before: Seq<char>, row: Seq<char>, all: Seq<char>)
    requires
        (before + row).is_prefix_of(all),
    ensures
        (top + a + b + c + before + row).is_prefix_of(top + (a + b + c + all)),
{
    let intro = a + b + c;
    assert(top + a + b + c + before + row =~= top + intro + before + row);
    let p = before + row;
    assert(all.subrange(0, p.len() as int) =~= p);
    let lhs = top + intro + before + row;
    let rhs = top + (intro + all);
    assert forall|k: int| 0 <= k < lhs.len() implies rhs[k] == lhs[k] by {
        if k >= top.len() + intro.len() {
            assert(all[k - top.len() - intro.len()] == p[k - top.len() - intro.len()]);
        }
    }
    assert(rhs.subrange(0, lhs.len() as int) =~= lhs);
}

/// A swatch sets the background to the color's own red, green and blue, in
/// that order, paints two cells, resets, and leaves one space.
pub proof fn lemma_swatch_channels(c: Rgb8)
    ensures
        spec_swatch(c) == seq!['\u{1b}', '[', '4', '8', ';', '2', ';'] + decimal(c.r as int) + seq![';']
            + decimal(c.g as int) + seq![';'] + decimal(c.b as int)
            + seq!['m', ' ', ' ', '\u{1b}', '[', '0', 'm', ' '],
{
    assert(spec_swatch(c) =~= seq!['\u{1b}', '[', '4', '8', ';', '2', ';'] + decimal(c.r as int) + seq![';']
        + decimal(c.g as int) + seq![';'] + decimal(c.b as int) + seq!['m', ' ', ' ', '\u{1b}', '[', '0', 'm', ' ']);
}

} // verus!
