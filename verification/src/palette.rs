//! The palette file: a plain-text, hand-editable list of reference colors.
//!
//! ```text
//! # palettefit palette v1
//! # name: Miko
//! # source: miko-ref-sheet.png
//! e63946 0.412 hair
//! 457b9d 0.288 jacket
//! f1faee 0.183 skin
//! 1d3557        eyes
//! ```
//!
//! One color per line: hex, an optional weight (the share of foreground
//! pixels it covered in the reference), and an optional free-text label.
//! Lines starting with `#` are comments; `# name:` and `# source:` are
//! recognized as metadata.
//!
//! Weights are doubles. Reading one from text and writing one as text are
//! done by the caller: `weight_candidates` names the token of each line that
//! may be a weight, the caller reads each into a `WeightReading`, and `parse`
//! does the rest. Weights travel as the bits of the double.

use vstd::prelude::*;
use crate::color::{Rgb8, spec_hex, spec_parse_rgb, strip_hash, lemma_hex_roundtrip};
use crate::text::{is_ws, skip_ws, back_ws, join_lines, all_ws, is_word, lemma_join_lines_append, lemma_split_join_lines, lemma_trim_frame, lemma_tokens_concat, lemma_tokens_word, lemma_tokens_are_words, lemma_join_words};
use crate::text::{chars_of, string_of, append_chars, trim, tokens, split_lines, join_words, starts_with, trim_exec, tokens_exec, split_lines_exec, join_words_exec, starts_with_exec};
use crate::quantize::Cluster;

verus! {

/// One reference color. The weight is carried as the bits of the IEEE-754
/// double that was read or computed for it.
#[derive(Debug, Clone)]
pub struct PaletteColor {
    pub color: Rgb8,
    pub weight: Option<u64>,
    pub label: Option<String>,
}

#[derive(Debug, Clone)]
pub struct Palette {
    pub name: Option<String>,
    pub source: Option<String>,
    pub colors: Vec<PaletteColor>,
}

pub struct PaletteColorView {
    pub color: Rgb8,
    pub weight: Option<u64>,
    pub label: Option<Seq<char>>,
}

pub struct PaletteView {
    pub name: Option<Seq<char>>,
    pub source: Option<Seq<char>>,
    pub colors: Seq<PaletteColorView>,
}

pub open spec fn opt_view(s: Option<String>) -> Option<Seq<char>> {
    match s {
        Some(v) => Some(v@),
        None => None,
    }
}

impl View for PaletteColor {
    type V = PaletteColorView;

    open spec fn view(&self) -> PaletteColorView {
        PaletteColorView { color: self.color, weight: self.weight, label: opt_view(self.label) }
    }
}

impl View for Palette {
    type V = PaletteView;

    open spec fn view(&self) -> PaletteView {
        PaletteView {
            name: opt_view(self.name),
            source: opt_view(self.source),
            colors: self.colors@.map_values(|c: PaletteColor| c@),
        }
    }
}

/// What the caller read from the token that may be a weight.
#[derive(Debug, Clone, Copy, PartialEq, Eq, Structural)]
pub enum WeightReading {
    /// The token is not a number (or there is none).
    NotNumber,
    /// A number within `0..=1`, as the bits of the double.
    InRange(u64),
    /// A number outside `0..=1` (NaN included), as the bits of the double.
    OutOfRange(u64),
}

/// Why a palette file was rejected. Lines are numbered from 1.
#[derive(Debug, Clone)]
pub enum PaletteError {
    /// The first token of a line that is no comment is not a hex color.
    BadHex { line: usize, token: String },
    /// A weight outside `0..=1`.
    WeightOutOfRange { line: usize, bits: u64 },
    /// The file holds no color line.
    NoColors,
}

pub enum PaletteErrorView {
    BadHex { line: int, token: Seq<char> },
    WeightOutOfRange { line: int, bits: u64 },
    NoColors,
}

impl View for PaletteError {
    type V = PaletteErrorView;

    open spec fn view(&self) -> PaletteErrorView {
        match self {
            PaletteError::BadHex { line, token } => PaletteErrorView::BadHex { line: *line as int, token: token@ },
            PaletteError::WeightOutOfRange { line, bits } => PaletteErrorView::WeightOutOfRange { line: *line as int, bits: *bits },
            PaletteError::NoColors => PaletteErrorView::NoColors,
        }
    }
}

// ---------------------------------------------------------------------------
// Specification of the format

pub open spec fn name_tag() -> Seq<char> {
    seq!['n', 'a', 'm', 'e', ':']
}

pub open spec fn source_tag() -> Seq<char> {
    seq!['s', 'o', 'u', 'r', 'c', 'e', ':']
}

/// The words of line `i` after the first, the first of which may be a
/// weight: the token a caller reads for that line (empty when there is none).
pub open spec fn weight_candidate(line: Seq<char>) -> Seq<char> {
    let ts = tokens(trim(line));
    if ts.len() >= 2 { ts[1] } else { Seq::empty() }
}

/// The reading for line `i`; a line without one reads as no number.
pub open spec fn reading_at(readings: Seq<WeightReading>, i: int) -> WeightReading {
    if 0 <= i < readings.len() { readings[i] } else { WeightReading::NotNumber }
}

pub open spec fn label_of(words: Seq<Seq<char>>) -> Option<Seq<char>> {
    if words.len() == 0 { None } else { Some(join_words(words)) }
}

/// A comment line: `name:` and `source:` set metadata, anything else is
/// ignored.
pub open spec fn apply_comment(p: PaletteView, comment: Seq<char>) -> PaletteView {
    if starts_with(comment, name_tag()) {
        PaletteView { name: Some(trim(comment.skip(5))), ..p }
    } else if starts_with(comment, source_tag()) {
        PaletteView { source: Some(trim(comment.skip(7))), ..p }
    } else {
        p
    }
}

/// One line of the file, numbered `lineno` from 1.
pub open spec fn parse_line(p: PaletteView, raw: Seq<char>, rd: WeightReading, lineno: int) -> Result<PaletteView, PaletteErrorView> {
    let line = trim(raw);
    if line.len() == 0 {
        Ok(p)
    } else {
        let ts = tokens(line);
        match spec_parse_rgb(ts[0]) {
            Some(c) => {
                let rest = ts.drop_first();
                match (if rest.len() > 0 { rd } else { WeightReading::NotNumber }) {
                    WeightReading::InRange(b) => Ok(PaletteView {
                        colors: p.colors.push(PaletteColorView { color: c, weight: Some(b), label: label_of(rest.drop_first()) }),
                        ..p
                    }),
                    WeightReading::OutOfRange(b) => Err(PaletteErrorView::WeightOutOfRange { line: lineno, bits: b }),
                    WeightReading::NotNumber => Ok(PaletteView {
                        colors: p.colors.push(PaletteColorView { color: c, weight: None, label: label_of(rest) }),
                        ..p
                    }),
                }
            },
            None => if line[0] == '#' {
                Ok(apply_comment(p, trim(line.drop_first())))
            } else {
                Err(PaletteErrorView::BadHex { line: lineno, token: ts[0] })
            },
        }
    }
}

pub open spec fn empty_palette() -> PaletteView {
    PaletteView { name: None, source: None, colors: Seq::empty() }
}

/// The first `n` lines, stopping at the first error.
pub open spec fn parse_lines(lines: Seq<Seq<char>>, readings: Seq<WeightReading>, n: int) -> Result<PaletteView, PaletteErrorView>
    decreases n,
{
    if n <= 0 {
        Ok(empty_palette())
    } else {
        match parse_lines(lines, readings, n - 1) {
            Err(e) => Err(e),
            Ok(p) => parse_line(p, lines[n - 1], reading_at(readings, n - 1), n),
        }
    }
}

/// What `Palette::parse` reads from a text, given the weight readings of its
/// lines.
pub open spec fn spec_parse(text: Seq<char>, readings: Seq<WeightReading>) -> Result<PaletteView, PaletteErrorView> {
    let lines = split_lines(text);
    match parse_lines(lines, readings, lines.len() as int) {
        Err(e) => Err(e),
        Ok(p) => if p.colors.len() == 0 { Err(PaletteErrorView::NoColors) } else { Ok(p) },
    }
}

pub open spec fn header() -> Seq<char> {
    seq!['#', ' ', 'p', 'a', 'l', 'e', 't', 't', 'e', 'f', 'i', 't', ' ', 'p', 'a', 'l', 'e', 't', 't', 'e', ' ', 'v', '1', '\n']
}

pub open spec fn name_prefix() -> Seq<char> {
    seq!['#', ' ', 'n', 'a', 'm', 'e', ':', ' ']
}

pub open spec fn source_prefix() -> Seq<char> {
    seq!['#', ' ', 's', 'o', 'u', 'r', 'c', 'e', ':', ' ']
}

/// The text of one color: hex, then the weight's text when it has a weight,
/// then the label when it has one.
pub open spec fn color_body(c: PaletteColorView, weight_text: Seq<char>) -> Seq<char> {
    spec_hex(c.color)
        + (if c.weight is Some { seq![' '] + weight_text } else { Seq::empty() })
        + (match c.label { Some(l) => seq![' '] + l, None => Seq::empty() })
}

/// The line of one color.
pub open spec fn color_line(c: PaletteColorView, weight_text: Seq<char>) -> Seq<char> {
    color_body(c, weight_text) + seq!['\n']
}

pub open spec fn text_at(texts: Seq<Seq<char>>, i: int) -> Seq<char> {
    if 0 <= i < texts.len() { texts[i] } else { Seq::empty() }
}

pub open spec fn color_lines(cs: Seq<PaletteColorView>, texts: Seq<Seq<char>>, n: int) -> Seq<char>
    decreases n,
{
    if n <= 0 {
        Seq::empty()
    } else {
        color_lines(cs, texts, n - 1) + color_line(cs[n - 1], text_at(texts, n - 1))
    }
}

/// The palette file of `p`, with `texts[i]` the text of color `i`'s weight.
pub open spec fn spec_to_text(p: PaletteView, texts: Seq<Seq<char>>) -> Seq<char> {
    header()
        + (match p.name { Some(n) => name_prefix() + n + seq!['\n'], None => Seq::empty() })
        + (match p.source { Some(s) => source_prefix() + s + seq!['\n'], None => Seq::empty() })
        + color_lines(p.colors, texts, p.colors.len() as int)
}

// ---------------------------------------------------------------------------
// Implementation

/// A copy of an optional string.
pub fn clone_opt_string(s: &Option<String>) -> (r: Option<String>)
    ensures
        r == *s,
{
    match s {
        Some(v) => Some(v.clone()),
        None => None,
    }
}

fn lit(s: &str) -> (v: Vec<char>)
    ensures
        v@ == s@,
{
    chars_of(s)
}

fn reading_at_exec(readings: &Vec<WeightReading>, i: usize) -> (r: WeightReading)
    ensures
        r == reading_at(readings@, i as int),
{
    if i < readings.len() { readings[i] } else { WeightReading::NotNumber }
}

proof fn lemma_parse_lines_err(lines: Seq<Seq<char>>, readings: Seq<WeightReading>, i: int, n: int)
    requires
        0 <= i <= n,
        parse_lines(lines, readings, i) is Err,
    ensures
        parse_lines(lines, readings, n) == parse_lines(lines, readings, i),
    decreases n - i,
{
    if n > i {
        lemma_parse_lines_err(lines, readings, i, n - 1);
    }
}

/// A text with a non-whitespace character has a first token, and it starts
/// with the text's first character when that is one.
proof fn lemma_tokens_first(s: Seq<char>)
    requires
        s.len() > 0,
        !is_ws(s[0]),
    ensures
        tokens(s).len() > 0,
        tokens(s)[0].len() > 0,
        tokens(s)[0][0] == s[0],
    decreases s.len(),
{
    if s.len() == 1 {
        assert(s.drop_last().len() == 0);
        assert(tokens(s.drop_last()).len() == 0);
    } else {
        lemma_tokens_first(s.drop_last());
        let t = tokens(s.drop_last());
        assert(s.drop_last()[0] == s[0]);
        if !is_ws(s.last()) && !is_ws(s[s.len() - 2]) && t.len() > 0 {
            if t.len() == 1 {
                assert(t.last().push(s.last())[0] == t[0][0]);
            }
        }
    }
}

proof fn lemma_trim_first(s: Seq<char>)
    ensures
        trim(s).len() > 0 ==> !is_ws(trim(s)[0]),
{
    lemma_skip_ws(s, 0);
    lemma_back_ws(s, s.len() as int);
}

proof fn lemma_skip_ws(s: Seq<char>, i: int)
    requires
        0 <= i <= s.len(),
    ensures
        i <= skip_ws(s, i) <= s.len(),
        skip_ws(s, i) < s.len() ==> !is_ws(s[skip_ws(s, i)]),
    decreases s.len() - i,
{
    if i < s.len() && is_ws(s[i]) {
        lemma_skip_ws(s, i + 1);
    }
}

proof fn lemma_back_ws(s: Seq<char>, j: int)
    requires
        0 <= j <= s.len(),
    ensures
        0 <= back_ws(s, j) <= j,
        back_ws(s, j) > 0 ==> !is_ws(s[back_ws(s, j) - 1]),
    decreases j,
{
    if j > 0 && is_ws(s[j - 1]) {
        lemma_back_ws(s, j - 1);
    }
}

fn skip_chars(v: &Vec<char>, n: usize) -> (r: Vec<char>)
    requires
        n <= v.len(),
    ensures
        r@ == v@.skip(n as int),
{
    let mut r: Vec<char> = Vec::new();
    let mut i = n;
    while i < v.len()
        invariant
            n <= i <= v.len(),
            r@ == v@.subrange(n as int, i as int),
        decreases v.len() - i,
    {
        r.push(v[i]);
        assert(v@.subrange(n as int, i + 1) == v@.subrange(n as int, i as int).push(v@[i as int]));
        i += 1;
    }
    assert(v@.subrange(n as int, i as int) == v@.skip(n as int));
    r
}

impl Palette {
    /// Parse a palette file. `readings[i]` is what the caller read from the
    /// token of line `i` that may be a weight (see `weight_candidates`).
    pub fn parse(text: &str, readings: &Vec<WeightReading>) -> (r: Result<Palette, PaletteError>)
        ensures
            match (r, spec_parse(text@, readings@)) {
                (Ok(p), Ok(v)) => p@ == v,
                (Err(e), Err(ev)) => e@ == ev,
                _ => false,
            },
    {
        let chars = chars_of(text);
        let lines = split_lines_exec(&chars);
        let ghost ls = split_lines(text@);
        let mut name: Option<String> = None;
        let mut source: Option<String> = None;
        let mut colors: Vec<PaletteColor> = Vec::new();
        assert(colors@.map_values(|c: PaletteColor| c@) =~= Seq::<PaletteColorView>::empty());
        for i in 0..lines.len()
            invariant
                ls == split_lines(text@),
                lines@.len() == ls.len(),
                forall|j: int| 0 <= j < lines@.len() ==> (#[trigger] lines@[j])@ == ls[j],
                parse_lines(ls, readings@, i as int) == Ok::<PaletteView, PaletteErrorView>(PaletteView {
                    name: opt_view(name),
                    source: opt_view(source),
                    colors: colors@.map_values(|c: PaletteColor| c@),
                }),
        {
            let ghost p = PaletteView {
                name: opt_view(name),
                source: opt_view(source),
                colors: colors@.map_values(|c: PaletteColor| c@),
            };
            let line = trim_exec(&lines[i]);
            proof {
                lemma_trim_first(ls[i as int]);
            }
            if line.len() > 0 {
                let ts = tokens_exec(&line);
                proof {
                    lemma_tokens_first(line@);
                }
                match Rgb8::parse_chars(&ts[0]) {
                    Some(c) => {
                        let rd = if ts.len() > 1 { reading_at_exec(readings, i) } else { WeightReading::NotNumber };
                        let ghost rest = tokens(line@).drop_first();
                        assert(ts@.skip(1).map_values(|w: Vec<char>| w@) =~= rest);
                        match rd {
                            WeightReading::InRange(b) => {
                                let words = join_words_exec(&ts, 2);
                                assert(ts@.skip(2).map_values(|w: Vec<char>| w@) =~= rest.drop_first());
                                let label = if ts.len() > 2 { Some(string_of(&words)) } else { None };
                                let pc = PaletteColor { color: c, weight: Some(b), label };
                                colors.push(pc);
                            }
                            WeightReading::OutOfRange(b) => {
                                proof {
                                    lemma_parse_lines_err(ls, readings@, i + 1, ls.len() as int);
                                }
                                return Err(PaletteError::WeightOutOfRange { line: i + 1, bits: b });
                            }
                            WeightReading::NotNumber => {
                                let words = join_words_exec(&ts, 1);
                                let label = if ts.len() > 1 { Some(string_of(&words)) } else { None };
                                let pc = PaletteColor { color: c, weight: None, label };
                                colors.push(pc);
                            }
                        }
                        assert(colors@.map_values(|c: PaletteColor| c@) =~= p.colors.push(colors@.last()@));
                    }
                    None => {
                        if line[0] == '#' {
                            let comment = trim_exec(&skip_chars(&line, 1));
                            let name_tag_v = lit("name:");
                            let source_tag_v = lit("source:");
                            proof {
                                reveal_strlit("name:");
                                reveal_strlit("source:");
                                assert(name_tag_v@ == name_tag());
                                assert(source_tag_v@ == source_tag());
                            }
                            if starts_with_exec(&comment, &name_tag_v) {
                                name = Some(string_of(&trim_exec(&skip_chars(&comment, 5))));
                            } else if starts_with_exec(&comment, &source_tag_v) {
                                source = Some(string_of(&trim_exec(&skip_chars(&comment, 7))));
                            }
                        } else {
                            proof {
                                lemma_parse_lines_err(ls, readings@, i + 1, ls.len() as int);
                            }
                            return Err(PaletteError::BadHex { line: i + 1, token: string_of(&ts[0]) });
                        }
                    }
                }
            }
        }
        if colors.len() == 0 {
            return Err(PaletteError::NoColors);
        }
        Ok(Palette { name, source, colors })
    }

    /// Serialize back to the palette file format; `weight_texts[i]` is the
    /// text of color `i`'s weight (empty when `weight_texts` is shorter).
    pub fn to_text(&self, weight_texts: &Vec<String>) -> (s: String)
        ensures
            s@ == spec_to_text(self@, weight_texts@.map_values(|t: String| t@)),
    {
        let ghost texts = weight_texts@.map_values(|t: String| t@);
        let mut out = lit("# palettefit palette v1\n");
        proof {
            reveal_strlit("# palettefit palette v1\n");
            assert(out@ == header());
        }
        match &self.name {
            Some(n) => {
                let pre = lit("# name: ");
                proof { reveal_strlit("# name: "); }
                append_chars(&mut out, &pre);
                append_chars(&mut out, &chars_of(n.as_str()));
                out.push('\n');
            }
            None => {}
        }
        match &self.source {
            Some(src) => {
                let pre = lit("# source: ");
                proof { reveal_strlit("# source: "); }
                append_chars(&mut out, &pre);
                append_chars(&mut out, &chars_of(src.as_str()));
                out.push('\n');
            }
            None => {}
        }
        let ghost head = out@;
        assert(head == header()
            + (match self@.name { Some(n) => name_prefix() + n + seq!['\n'], None => Seq::empty() })
            + (match self@.source { Some(s) => source_prefix() + s + seq!['\n'], None => Seq::empty() }));
        for i in 0..self.colors.len()
            invariant
                texts == weight_texts@.map_values(|t: String| t@),
                out@ == head + color_lines(self@.colors, texts, i as int),
        {
            let c = &self.colors[i];
            let ghost cv = self@.colors[i as int];
            assert(cv == c@);
            let ghost before = out@;
            let hex = c.color.hex();
            append_chars(&mut out, &chars_of(hex.as_str()));
            match c.weight {
                Some(_) => {
                    out.push(' ');
                    if i < weight_texts.len() {
                        append_chars(&mut out, &chars_of(weight_texts[i].as_str()));
                    }
                }
                None => {}
            }
            match &c.label {
                Some(l) => {
                    out.push(' ');
                    append_chars(&mut out, &chars_of(l.as_str()));
                }
                None => {}
            }
            out.push('\n');
            assert(out@ =~= before + color_line(cv, text_at(texts, i as int)));
        }
        string_of(&out)
    }
}

/// For each line of `text`, the token a caller reads to see whether the line
/// has a weight: the line's second word, or an empty string.
pub fn weight_candidates(text: &str) -> (r: Vec<String>)
    ensures
        r@.len() == split_lines(text@).len(),
        forall|i: int| 0 <= i < r@.len() ==> (#[trigger] r@[i])@ == weight_candidate(split_lines(text@)[i]),
{
    let chars = chars_of(text);
    let lines = split_lines_exec(&chars);
    let mut r: Vec<String> = Vec::new();
    for i in 0..lines.len()
        invariant
            lines@.len() == split_lines(text@).len(),
            forall|j: int| 0 <= j < lines@.len() ==> (#[trigger] lines@[j])@ == split_lines(text@)[j],
            r@.len() == i,
            forall|j: int| 0 <= j < i ==> (#[trigger] r@[j])@ == weight_candidate(split_lines(text@)[j]),
    {
        let ts = tokens_exec(&trim_exec(&lines[i]));
        if ts.len() >= 2 {
            r.push(string_of(&ts[1]));
        } else {
            r.push(String::new());
        }
    }
    r
}

impl Palette {
    /// The palette of extracted clusters, `weights[i]` being the bits of
    /// cluster `i`'s weight (none when `weights` is shorter).
    pub fn from_clusters(clusters: &Vec<Cluster>, weights: &Vec<u64>, name: Option<&str>, source: Option<&str>) -> (p: Self)
        ensures
            p@.name == (match name { Some(n) => Some(n@), None => None::<Seq<char>> }),
            p@.source == (match source { Some(s) => Some(s@), None => None::<Seq<char>> }),
            p@.colors.len() == clusters@.len(),
            forall|i: int| 0 <= i < clusters@.len() ==> #[trigger] p@.colors[i] == (PaletteColorView {
                color: clusters@[i].color,
                weight: if i < weights@.len() { Some(weights@[i]) } else { None },
                label: None,
            }),
    {
        let mut colors: Vec<PaletteColor> = Vec::new();
        for i in 0..clusters.len()
            invariant
                colors@.len() == i,
                forall|j: int| 0 <= j < i ==> (#[trigger] colors@[j])@ == (PaletteColorView {
                    color: clusters@[j].color,
                    weight: if j < weights@.len() { Some(weights@[j]) } else { None },
                    label: None,
                }),
        {
            let weight = if i < weights.len() { Some(weights[i]) } else { None };
            colors.push(PaletteColor { color: clusters[i].color, weight, label: None });
        }
        let name = match name { Some(n) => Some(n.to_string()), None => None };
        let source = match source { Some(s) => Some(s.to_string()), None => None };
        let p = Palette { name, source, colors };
        assert(p@.colors =~= colors@.map_values(|c: PaletteColor| c@));
        p
    }
}

// ---------------------------------------------------------------------------
// Writing a palette and reading it back

/// A name or source the file can carry: no surrounding whitespace and no
/// line break.
pub open spec fn clean_meta(v: Seq<char>) -> bool {
    trim(v) == v && !v.contains('\n')
}

/// A label the file can carry: words separated by single spaces.
pub open spec fn clean_label(l: Seq<char>) -> bool {
    l.len() > 0 && join_words(tokens(l)) == l
}

/// A color the file can carry, `weight_text` being the text of its weight:
/// one word when it has a weight.
pub open spec fn writable_color(c: PaletteColorView, weight_text: Seq<char>) -> bool {
    &&& c.weight is Some ==> is_word(weight_text)
    &&& c.label matches Some(l) ==> clean_label(l)
}

/// A palette whose file reads back as itself.
pub open spec fn writable(p: PaletteView, texts: Seq<Seq<char>>) -> bool {
    &&& p.colors.len() > 0
    &&& p.name matches Some(n) ==> clean_meta(n)
    &&& p.source matches Some(v) ==> clean_meta(v)
    &&& forall|j: int| 0 <= j < p.colors.len() ==> writable_color(#[trigger] p.colors[j], text_at(texts, j))
}

/// What a reader that reads weights back exactly makes of a color's line.
pub open spec fn reading_of(c: PaletteColorView) -> WeightReading {
    match c.weight {
        Some(b) => WeightReading::InRange(b),
        None => WeightReading::NotNumber,
    }
}

/// The token a reader is handed for a color's line: its weight's text, or
/// the first word of its label.
pub open spec fn candidate_of(c: PaletteColorView, weight_text: Seq<char>) -> Seq<char> {
    match (c.weight, c.label) {
        (Some(_), _) => weight_text,
        (None, Some(l)) => tokens(l)[0],
        (None, None) => Seq::empty(),
    }
}

/// The index of the first color line of the file of `p`.
pub open spec fn first_color_line(p: PaletteView) -> int {
    1 + (if p.name is Some { 1int } else { 0int }) + (if p.source is Some { 1int } else { 0int })
}

spec fn header_body() -> Seq<char> {
    seq!['#', ' ', 'p', 'a', 'l', 'e', 't', 't', 'e', 'f', 'i', 't', ' ', 'p', 'a', 'l', 'e', 't', 't', 'e', ' ', 'v', '1']
}

spec fn meta_body(tag: Seq<char>, v: Seq<char>) -> Seq<char> {
    seq!['#', ' '] + tag + seq![' '] + v
}

spec fn color_bodies(cs: Seq<PaletteColorView>, texts: Seq<Seq<char>>, n: int) -> Seq<Seq<char>> {
    Seq::new(n as nat, |j: int| color_body(cs[j], text_at(texts, j)))
}

spec fn file_lines(p: PaletteView, texts: Seq<Seq<char>>) -> Seq<Seq<char>> {
    seq![header_body()]
        + (match p.name { Some(n) => seq![meta_body(name_tag(), n)], None => Seq::empty() })
        + (match p.source { Some(v) => seq![meta_body(source_tag(), v)], None => Seq::empty() })
        + color_bodies(p.colors, texts, p.colors.len() as int)
}

proof fn lemma_trim_ends(s: Seq<char>)
    ensures
        trim(s).len() > 0 ==> !is_ws(trim(s)[0]) && !is_ws(trim(s).last()),
{
    lemma_skip_ws(s, 0);
    lemma_back_ws(s, s.len() as int);
}

proof fn lemma_no_newline_concat(a: Seq<char>, b: Seq<char>)
    requires
        !a.contains('\n'),
        !b.contains('\n'),
    ensures
        !(a + b).contains('\n'),
{
    if (a + b).contains('\n') {
        let i = choose|i: int| 0 <= i < (a + b).len() && (a + b)[i] == '\n';
        if i < a.len() {
            assert(a[i] == '\n');
        } else {
            assert(b[i - a.len()] == '\n');
        }
    }
}

proof fn lemma_word_no_newline(w: Seq<char>)
    requires
        is_word(w),
    ensures
        !w.contains('\n'),
{
    if w.contains('\n') {
        let i = choose|i: int| 0 <= i < w.len() && w[i] == '\n';
        assert(!is_ws(w[i]));
    }
}

proof fn lemma_hash_not_color()
    ensures
        spec_parse_rgb(seq!['#']) is None,
{
    assert(strip_hash(seq!['#']).len() == 0);
}

/// The header is a comment that changes nothing.
proof fn lemma_header_line(q: PaletteView, rd: WeightReading, lineno: int)
    ensures
        parse_line(q, header_body(), rd, lineno) == Ok::<PaletteView, PaletteErrorView>(q),
{
    let h = header_body();
    let rest = seq!['p', 'a', 'l', 'e', 't', 't', 'e', 'f', 'i', 't', ' ', 'p', 'a', 'l', 'e', 't', 't', 'e', ' ', 'v', '1'];
    assert(h =~= seq!['#'] + (seq![' '] + rest));
    lemma_trim_frame(Seq::empty(), h, Seq::empty());
    assert(Seq::<char>::empty() + h + Seq::<char>::empty() == h);
    lemma_tokens_concat(seq!['#'], seq![' '] + rest);
    lemma_tokens_word(seq!['#']);
    lemma_hash_not_color();
    assert(h.drop_first() =~= seq![' '] + rest + Seq::empty());
    lemma_trim_frame(seq![' '], rest, Seq::empty());
    assert(rest.subrange(0, 5)[0] == 'p');
    assert(!starts_with(rest, name_tag()));
    assert(rest.subrange(0, 7)[0] == 'p');
    assert(!starts_with(rest, source_tag()));
}

/// A `# name: ` or `# source: ` line sets that field.
proof fn lemma_meta_line(q: PaletteView, tag: Seq<char>, v: Seq<char>, rd: WeightReading, lineno: int)
    requires
        tag == name_tag() || tag == source_tag(),
        clean_meta(v),
    ensures
        parse_line(q, meta_body(tag, v), rd, lineno) == Ok::<PaletteView, PaletteErrorView>(
            if tag == name_tag() { PaletteView { name: Some(v), ..q } } else { PaletteView { source: Some(v), ..q } },
        ),
{
    let line = meta_body(tag, v);
    lemma_trim_ends(v);
    assert(tag.len() >= 5 && tag.last() == ':');
    // The tag followed by the value, as trimming leaves it.
    let x = if v.len() == 0 { Seq::<char>::empty() } else { seq![' '] + v };
    let t = tag + x;
    assert(t.len() > 0 && !is_ws(t[0]) && !is_ws(t.last())) by {
        if v.len() == 0 {
            assert(t.last() == tag.last());
        } else {
            assert(t.last() == v.last());
        }
    }
    if v.len() == 0 {
        assert(line =~= (seq!['#', ' '] + t) + seq![' ']);
        lemma_trim_frame(Seq::empty(), seq!['#', ' '] + t, seq![' ']);
        assert(Seq::<char>::empty() + (seq!['#', ' '] + t) + seq![' '] == line);
    } else {
        assert(line =~= seq!['#', ' '] + t);
        lemma_trim_frame(Seq::empty(), line, Seq::empty());
        assert(Seq::<char>::empty() + line + Seq::<char>::empty() == line);
    }
    let tl = seq!['#', ' '] + t;
    assert(trim(line) == tl);
    assert(tl =~= seq!['#'] + (seq![' '] + t));
    lemma_tokens_concat(seq!['#'], seq![' '] + t);
    lemma_tokens_word(seq!['#']);
    lemma_hash_not_color();
    assert(tl.drop_first() =~= seq![' '] + t + Seq::empty());
    lemma_trim_frame(seq![' '], t, Seq::empty());
    assert(t.subrange(0, tag.len() as int) =~= tag);
    assert(t.skip(tag.len() as int) =~= x);
    if v.len() == 0 {
        assert(trim(x) =~= v);
    } else {
        assert(x =~= seq![' '] + v + Seq::empty());
        lemma_trim_frame(seq![' '], v, Seq::empty());
    }
    if tag == source_tag() {
        assert(t.subrange(0, 5)[0] == 's');
        assert(!starts_with(t, name_tag()));
    }
}

proof fn lemma_space_no_tokens()
    ensures
        tokens(seq![' ']) == Seq::<Seq<char>>::empty(),
        all_ws(seq![' ']),
        !seq![' '].contains('\n'),
{
    let sp = seq![' '];
    assert(sp.drop_last() =~= Seq::<char>::empty());
    assert(tokens(sp.drop_last()) =~= Seq::<Seq<char>>::empty());
    if sp.contains('\n') {
        let i = choose|i: int| 0 <= i < sp.len() && sp[i] == '\n';
        assert(sp[i] == ' ');
    }
}

/// A space then a text: the tokens of the text; no line break when the text
/// has none.
proof fn lemma_spaced(t: Seq<char>)
    ensures
        tokens(seq![' '] + t) == tokens(t),
        !t.contains('\n') ==> !(seq![' '] + t).contains('\n'),
{
    lemma_space_no_tokens();
    lemma_tokens_concat(seq![' '], t);
    assert(Seq::<Seq<char>>::empty() + tokens(t) == tokens(t));
    if !t.contains('\n') {
        lemma_no_newline_concat(seq![' '], t);
    }
}

/// What a clean label is made of.
proof fn lemma_clean_label(l: Seq<char>)
    requires
        clean_label(l),
    ensures
        tokens(l).len() > 0,
        !is_ws(l[0]),
        !is_ws(l.last()),
        !l.contains('\n'),
{
    lemma_tokens_are_words(l);
    if tokens(l).len() == 0 {
        assert(join_words(tokens(l)).len() == 0);
    }
    lemma_join_words(tokens(l));
    let ts = tokens(l);
    assert(is_word(ts[0]));
    assert(is_word(ts[ts.len() - 1]));
    assert(!is_ws(ts[0][0]));
    assert(!is_ws(ts.last()[ts.last().len() - 1]));
}

/// A color's line reads back as that color, and hands the reader the token
/// `candidate_of` names.
proof fn lemma_color_line(q: PaletteView, c: PaletteColorView, w: Seq<char>, lineno: int)
    requires
        writable_color(c, w),
    ensures
        parse_line(q, color_body(c, w), reading_of(c), lineno)
            == Ok::<PaletteView, PaletteErrorView>(PaletteView { colors: q.colors.push(c), ..q }),
        weight_candidate(color_body(c, w)) == candidate_of(c, w),
        !color_body(c, w).contains('\n'),
{
    let hex = spec_hex(c.color);
    assert forall|n: int| 0 <= n < 16 implies !is_ws(#[trigger] crate::color::hex_digit(n)) by {}
    assert(is_word(hex)) by {
        assert forall|i: int| 0 <= i < hex.len() implies !is_ws(#[trigger] hex[i]) by {}
    }
    lemma_tokens_word(hex);
    lemma_word_no_newline(hex);
    lemma_hex_roundtrip(c.color);
    let wpart = if c.weight is Some { seq![' '] + w } else { Seq::<char>::empty() };
    let lpart = match c.label { Some(l) => seq![' '] + l, None => Seq::<char>::empty() };
    let body = color_body(c, w);
    assert(body == hex + wpart + lpart);
    let tw = if c.weight is Some { seq![w] } else { Seq::<Seq<char>>::empty() };
    let tl = match c.label { Some(l) => tokens(l), None => Seq::<Seq<char>>::empty() };
    if c.weight is Some {
        lemma_spaced(w);
        lemma_tokens_word(w);
        lemma_word_no_newline(w);
    } else {
        assert(tokens(wpart) =~= Seq::<Seq<char>>::empty());
    }
    assert(tokens(wpart) == tw);
    assert(!wpart.contains('\n'));
    match c.label {
        Some(l) => {
            lemma_clean_label(l);
            lemma_spaced(l);
        },
        None => {
            assert(tokens(lpart) =~= Seq::<Seq<char>>::empty());
        },
    }
    assert(tokens(lpart) == tl);
    assert(!lpart.contains('\n'));
    lemma_tokens_concat(hex, wpart);
    lemma_tokens_concat(hex + wpart, lpart);
    let ts = seq![hex] + tw + tl;
    assert(tokens(body) == ts);
    lemma_no_newline_concat(hex, wpart);
    lemma_no_newline_concat(hex + wpart, lpart);
    // The line has nothing to trim.
    assert(body[0] == hex[0]);
    assert(!is_ws(body.last())) by {
        match c.label {
            Some(l) => { assert(body.last() == l.last()); },
            None => {
                if c.weight is Some {
                    assert(body.last() == w.last());
                    assert(!is_ws(w[w.len() - 1]));
                } else {
                    assert(body.last() == hex[5]);
                }
            },
        }
    }
    lemma_trim_frame(Seq::empty(), body, Seq::empty());
    assert(Seq::<char>::empty() + body + Seq::<char>::empty() == body);
    assert(trim(body) == body);
    assert(ts[0] == hex);
    let rest = ts.drop_first();
    assert(rest =~= tw + tl);
    match c.weight {
        Some(b) => {
            assert(rest.len() > 0);
            assert(rest.drop_first() =~= tl);
            assert(ts[1] == w);
        },
        None => {
            assert(rest =~= tl);
            if tl.len() > 0 {
                assert(ts[1] == tl[0]);
            }
        },
    }
    match c.label {
        Some(l) => {
            assert(label_of(tl) == Some(l));
        },
        None => {
            assert(label_of(tl) is None);
        },
    }
}

proof fn lemma_color_lines_join(cs: Seq<PaletteColorView>, texts: Seq<Seq<char>>, n: int)
    requires
        0 <= n <= cs.len(),
    ensures
        color_lines(cs, texts, n) == join_lines(color_bodies(cs, texts, n)),
    decreases n,
{
    if n > 0 {
        lemma_color_lines_join(cs, texts, n - 1);
        assert(color_bodies(cs, texts, n).drop_last() =~= color_bodies(cs, texts, n - 1));
    }
}

/// The file of a palette is its lines, each followed by a line break.
proof fn lemma_file_lines(p: PaletteView, texts: Seq<Seq<char>>)
    ensures
        spec_to_text(p, texts) == join_lines(file_lines(p, texts)),
{
    let h = seq![header_body()];
    let np = match p.name { Some(n) => seq![meta_body(name_tag(), n)], None => Seq::<Seq<char>>::empty() };
    let sp = match p.source { Some(v) => seq![meta_body(source_tag(), v)], None => Seq::<Seq<char>>::empty() };
    let cb = color_bodies(p.colors, texts, p.colors.len() as int);
    assert(join_lines(h) =~= header()) by {
        assert(h.drop_last() =~= Seq::<Seq<char>>::empty());
        assert(join_lines(h.drop_last()) =~= Seq::<char>::empty());
        assert(h.last() == header_body());
        assert(join_lines(h) == join_lines(h.drop_last()) + header_body() + seq!['\n']);
        assert(Seq::<char>::empty() + header_body() + seq!['\n'] =~= header());
    }
    assert(join_lines(np) =~= (match p.name { Some(n) => name_prefix() + n + seq!['\n'], None => Seq::empty() })) by {
        if let Some(n) = p.name {
            assert(np.drop_last() =~= Seq::<Seq<char>>::empty());
            assert(join_lines(np.drop_last()) =~= Seq::<char>::empty());
            assert(meta_body(name_tag(), n) =~= name_prefix() + n);
            assert(join_lines(np) == join_lines(np.drop_last()) + np.last() + seq!['\n']);
        } else {
            assert(join_lines(np) =~= Seq::<char>::empty());
        }
    }
    assert(join_lines(sp) =~= (match p.source { Some(v) => source_prefix() + v + seq!['\n'], None => Seq::empty() })) by {
        if let Some(v) = p.source {
            assert(sp.drop_last() =~= Seq::<Seq<char>>::empty());
            assert(join_lines(sp.drop_last()) =~= Seq::<char>::empty());
            assert(meta_body(source_tag(), v) =~= source_prefix() + v);
            assert(join_lines(sp) == join_lines(sp.drop_last()) + sp.last() + seq!['\n']);
        } else {
            assert(join_lines(sp) =~= Seq::<char>::empty());
        }
    }
    lemma_color_lines_join(p.colors, texts, p.colors.len() as int);
    lemma_join_lines_append(h, np);
    lemma_join_lines_append(h + np, sp);
    lemma_join_lines_append(h + np + sp, cb);
}

proof fn lemma_header_no_newline()
    ensures
        !header_body().contains('\n'),
{
    let h = header_body();
    assert forall|i: int| 0 <= i < h.len() implies h[i] != '\n' by {}
}

proof fn lemma_meta_no_newline(tag: Seq<char>, v: Seq<char>)
    requires
        tag == name_tag() || tag == source_tag(),
        !v.contains('\n'),
    ensures
        !meta_body(tag, v).contains('\n'),
{
    let pre = seq!['#', ' '] + tag + seq![' '];
    assert forall|i: int| 0 <= i < pre.len() implies pre[i] != '\n' by {}
    lemma_no_newline_concat(pre, v);
}

/// Reading the color lines one after another collects the colors in order.
proof fn lemma_parse_colors(
    p: PaletteView,
    texts: Seq<Seq<char>>,
    readings: Seq<WeightReading>,
    lines: Seq<Seq<char>>,
    m: int,
)
    requires
        writable(p, texts),
        forall|j: int| 0 <= j < p.colors.len() ==> reading_at(readings, first_color_line(p) + j) == reading_of(#[trigger] p.colors[j]),
        lines.len() == first_color_line(p) + p.colors.len(),
        forall|j: int| 0 <= j < p.colors.len() ==> lines[first_color_line(p) + j] == color_body(#[trigger] p.colors[j], text_at(texts, j)),
        parse_lines(lines, readings, first_color_line(p))
            == Ok::<PaletteView, PaletteErrorView>(PaletteView { name: p.name, source: p.source, colors: Seq::empty() }),
        0 <= m <= p.colors.len(),
    ensures
        parse_lines(lines, readings, first_color_line(p) + m)
            == Ok::<PaletteView, PaletteErrorView>(PaletteView { name: p.name, source: p.source, colors: p.colors.take(m) }),
    decreases m,
{
    let off = first_color_line(p);
    if m == 0 {
        assert(p.colors.take(0) =~= Seq::<PaletteColorView>::empty());
    } else {
        lemma_parse_colors(p, texts, readings, lines, m - 1);
        let c = p.colors[m - 1];
        let q = PaletteView { name: p.name, source: p.source, colors: p.colors.take(m - 1) };
        assert(writable_color(c, text_at(texts, m - 1)));
        lemma_color_line(q, c, text_at(texts, m - 1), off + m);
        assert(lines[off + m - 1] == color_body(c, text_at(texts, m - 1)));
        assert(reading_at(readings, off + m - 1) == reading_of(c));
        assert(p.colors.take(m - 1).push(c) =~= p.colors.take(m));
    }
}

/// The file of a writable palette splits into its lines: the header, the
/// metadata lines, then one line per color.
proof fn lemma_file_split(p: PaletteView, texts: Seq<Seq<char>>)
    requires
        writable(p, texts),
    ensures
        split_lines(spec_to_text(p, texts)) == file_lines(p, texts),
        file_lines(p, texts).len() == first_color_line(p) + p.colors.len(),
        file_lines(p, texts)[0] == header_body(),
        p.name matches Some(v) ==> file_lines(p, texts)[1] == meta_body(name_tag(), v),
        p.source matches Some(v) ==> file_lines(p, texts)[first_color_line(p) - 1] == meta_body(source_tag(), v),
        forall|j: int| 0 <= j < p.colors.len() ==> file_lines(p, texts)[first_color_line(p) + j]
            == color_body(#[trigger] p.colors[j], text_at(texts, j)),
{
    let off = first_color_line(p);
    let n = p.colors.len() as int;
    let lines = file_lines(p, texts);
    let h = seq![header_body()];
    let np = match p.name { Some(v) => seq![meta_body(name_tag(), v)], None => Seq::<Seq<char>>::empty() };
    let sp = match p.source { Some(v) => seq![meta_body(source_tag(), v)], None => Seq::<Seq<char>>::empty() };
    let pre = h + np + sp;
    let cb = color_bodies(p.colors, texts, n);
    assert(lines == pre + cb);
    assert(pre.len() == off);
    lemma_file_lines(p, texts);
    lemma_header_no_newline();
    if let Some(v) = p.name {
        lemma_meta_no_newline(name_tag(), v);
    }
    if let Some(v) = p.source {
        lemma_meta_no_newline(source_tag(), v);
        assert(lines[off - 1] == sp[0]);
    }
    assert forall|j: int| 0 <= j < n implies lines[off + j] == color_body(#[trigger] p.colors[j], text_at(texts, j)) by {
        assert(lines[off + j] == cb[j]);
    }
    assert forall|i: int| 0 <= i < lines.len() implies !(#[trigger] lines[i]).contains('\n') by {
        if i >= off {
            let j = i - off;
            assert(writable_color(p.colors[j], text_at(texts, j)));
            lemma_color_line(empty_palette(), p.colors[j], text_at(texts, j), 0);
            assert(lines[i] == lines[off + j]);
        } else if i == 0 {
            assert(lines[0] == header_body());
        } else if i == 1 && p.name is Some {
            assert(lines[1] == np[0]);
        } else {
            assert(lines[i] == sp[0]);
        }
    }
    lemma_split_join_lines(lines);
}

/// Reading the header and metadata lines sets the name and the source.
proof fn lemma_prefix_parse(p: PaletteView, texts: Seq<Seq<char>>, readings: Seq<WeightReading>)
    requires
        writable(p, texts),
    ensures
        parse_lines(file_lines(p, texts), readings, first_color_line(p))
            == Ok::<PaletteView, PaletteErrorView>(PaletteView { name: p.name, source: p.source, colors: Seq::empty() }),
{
    lemma_file_split(p, texts);
    let lines = file_lines(p, texts);
    let off = first_color_line(p);
    lemma_header_line(empty_palette(), reading_at(readings, 0), 1);
    assert(parse_lines(lines, readings, 0) == Ok::<PaletteView, PaletteErrorView>(empty_palette()));
    assert(parse_lines(lines, readings, 1) == Ok::<PaletteView, PaletteErrorView>(empty_palette()));
    let with_name = PaletteView { name: p.name, ..empty_palette() };
    let k = if p.name is Some { 2int } else { 1int };
    if let Some(v) = p.name {
        lemma_meta_line(empty_palette(), name_tag(), v, reading_at(readings, 1), 2);
    }
    assert(parse_lines(lines, readings, k) == Ok::<PaletteView, PaletteErrorView>(with_name));
    if let Some(v) = p.source {
        assert(k == off - 1);
        lemma_meta_line(with_name, source_tag(), v, reading_at(readings, k), k + 1);
        assert(source_tag() != name_tag()) by {
            assert(source_tag().len() != name_tag().len());
        }
    }
}

/// A palette written to its file reads back as the same palette, given a
/// reader that reads each weight's text back as that weight. The reader is
/// handed, for each color line, exactly the text written for its weight (or
/// the first word of its label, when it has no weight).
pub proof fn lemma_palette_roundtrip(p: PaletteView, texts: Seq<Seq<char>>, readings: Seq<WeightReading>)
    requires
        writable(p, texts),
        forall|j: int| 0 <= j < p.colors.len() ==> reading_at(readings, first_color_line(p) + j) == reading_of(#[trigger] p.colors[j]),
    ensures
        split_lines(spec_to_text(p, texts)).len() == first_color_line(p) + p.colors.len(),
        forall|j: int| 0 <= j < p.colors.len() ==> weight_candidate(split_lines(spec_to_text(p, texts))[first_color_line(p) + j])
            == candidate_of(#[trigger] p.colors[j], text_at(texts, j)),
        spec_parse(spec_to_text(p, texts), readings) == Ok::<PaletteView, PaletteErrorView>(p),
{
    let off = first_color_line(p);
    let n = p.colors.len() as int;
    let lines = file_lines(p, texts);
    lemma_file_split(p, texts);
    assert forall|j: int| 0 <= j < n implies weight_candidate(lines[off + j]) == candidate_of(#[trigger] p.colors[j], text_at(texts, j)) by {
        assert(writable_color(p.colors[j], text_at(texts, j)));
        lemma_color_line(empty_palette(), p.colors[j], text_at(texts, j), 0);
    }
    lemma_prefix_parse(p, texts, readings);
    lemma_parse_colors(p, texts, readings, lines, n);
    assert(p.colors.take(n) =~= p.colors);
}

} // verus!
