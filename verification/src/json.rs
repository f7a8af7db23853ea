//! The small amount of JSON writing palettefit needs.
//!
//! palettefit only ever *writes* JSON -- the palette file has its own plain
//! text format -- so this is a handful of helpers rather than a serializer
//! in the dependency tree. The document shapes are spelled out in the README.

use vstd::prelude::*;
use crate::check::{CheckReport, ColorResult, ColorStatus, ForeignColor, Verdict};
use crate::color::{Rgb8, hex_digit, spec_hex, is_hex_char, hex_value};
use crate::palette::{Palette, PaletteColor, opt_view, text_at};
use crate::quantize::Cluster;
use crate::report::{texts_view, text_at_exec};
use crate::text::{chars_of, string_of, decimal, push_str, push_decimal_u32, append_chars};

verus! {

/// The JSON escape of one character.
pub open spec fn escape_char(c: char) -> Seq<char> {
    if c == '"' {
        seq!['\\', '"']
    } else if c == '\\' {
        seq!['\\', '\\']
    } else if c == '\n' {
        seq!['\\', 'n']
    } else if c == '\r' {
        seq!['\\', 'r']
    } else if c == '\t' {
        seq!['\\', 't']
    } else if c == '\u{08}' {
        seq!['\\', 'b']
    } else if c == '\u{0c}' {
        seq!['\\', 'f']
    } else if (c as u32) < 0x20 {
        // Control characters have no short escape; the \u form is required.
        seq!['\\', 'u', '0', '0', hex_digit((c as u32) as int / 16), hex_digit((c as u32) as int % 16)]
    } else {
        seq![c]
    }
}

/// Every character of `s` escaped.
pub open spec fn escape(s: Seq<char>) -> Seq<char>
    decreases s.len(),
{
    if s.len() == 0 {
        Seq::empty()
    } else {
        escape(s.drop_last()) + escape_char(s.last())
    }
}

/// `s` as a JSON string literal.
pub open spec fn spec_quote(s: Seq<char>) -> Seq<char> {
    seq!['"'] + escape(s) + seq!['"']
}

/// JSON forbids raw control characters inside a string: the quoted form of
/// any text holds none.
pub proof fn lemma_quote_has_no_control_chars(s: Seq<char>)
    ensures
        forall|i: int| 0 <= i < spec_quote(s).len() ==> (#[trigger] spec_quote(s)[i]) as u32 >= 0x20,
{
    lemma_escape_has_no_control_chars(s);
    let q = spec_quote(s);
    assert forall|i: int| 0 <= i < q.len() implies (#[trigger] q[i]) as u32 >= 0x20 by {
        if 0 < i < q.len() - 1 {
            assert(q[i] == escape(s)[i - 1]);
        }
    }
}

proof fn lemma_escape_has_no_control_chars(s: Seq<char>)
    ensures
        forall|i: int| 0 <= i < escape(s).len() ==> (#[trigger] escape(s)[i]) as u32 >= 0x20,
    decreases s.len(),
{
    if s.len() > 0 {
        lemma_escape_has_no_control_chars(s.drop_last());
        let p = escape(s.drop_last());
        let e = escape_char(s.last());
        let c = s.last();
        assert forall|n: int| 0 <= n < 16 implies (#[trigger] hex_digit(n)) as u32 >= 0x20 by {}
        assert forall|i: int| 0 <= i < e.len() implies (#[trigger] e[i]) as u32 >= 0x20 by {
            if c == '"' || c == '\\' || c == '\n' || c == '\r' || c == '\t' || c == '\u{08}' || c == '\u{0c}' {
                assert(e.len() == 2);
                assert(e[0] == '\\');
                assert(e[1] as u32 >= 0x20);
                assert(i == 0 || i == 1);
            } else if (c as u32) < 0x20 {
                assert(e.len() == 6);
                assert(e[0] == '\\' && e[1] == 'u' && e[2] == '0' && e[3] == '0');
                let v = (c as u32) as int;
                assert(e[4] == hex_digit(v / 16));
                assert(e[5] == hex_digit(v % 16));
                assert(0 <= v / 16 < 16 && 0 <= v % 16 < 16) by (nonlinear_arith)
                    requires 0 <= v < 32;
                assert(e[4] as u32 >= 0x20);
                assert(e[5] as u32 >= 0x20);
                assert(i == 0 || i == 1 || i == 2 || i == 3 || i == 4 || i == 5);
            } else {
                assert(e == seq![c]);
            }
        }
        assert forall|i: int| 0 <= i < escape(s).len() implies (#[trigger] escape(s)[i]) as u32 >= 0x20 by {
            if i < p.len() {
                assert(escape(s)[i] == p[i]);
            } else {
                assert(escape(s)[i] == e[i - p.len()]);
            }
        }
    }
}

/// The character a one-letter JSON escape `\\x` stands for.
pub open spec fn short_escape(x: char) -> Option<char> {
    if x == '"' {
        Some('"')
    } else if x == '\\' {
        Some('\\')
    } else if x == '/' {
        Some('/')
    } else if x == 'b' {
        Some('\u{08}')
    } else if x == 'f' {
        Some('\u{0c}')
    } else if x == 'n' {
        Some('\n')
    } else if x == 'r' {
        Some('\r')
    } else if x == 't' {
        Some('\t')
    } else {
        None
    }
}

pub open spec fn prepend(c: char, rest: Option<Seq<char>>) -> Option<Seq<char>> {
    match rest {
        Some(r) => Some(seq![c] + r),
        None => None,
    }
}

/// The code point written by four hex digits.
pub open spec fn hex4(t: Seq<char>) -> int {
    hex_value(t[0]) * 4096 + hex_value(t[1]) * 256 + hex_value(t[2]) * 16 + hex_value(t[3])
}

/// What the inside of a JSON string literal stands for, read as JSON reads
/// it; `None` when it is not valid there: a raw `"` or control character,
/// an unknown escape, or a `\\u` escape of a lone surrogate.
pub open spec fn json_chars(t: Seq<char>) -> Option<Seq<char>>
    decreases t.len(),
{
    if t.len() == 0 {
        Some(Seq::empty())
    } else if t[0] == '\\' {
        if t.len() >= 2 && short_escape(t[1]) is Some {
            prepend(short_escape(t[1]).unwrap(), json_chars(t.skip(2)))
        } else if t.len() >= 6 && t[1] == 'u' && is_hex_char(t[2]) && is_hex_char(t[3]) && is_hex_char(t[4])
            && is_hex_char(t[5]) && !(0xD800 <= hex4(t.subrange(2, 6)) <= 0xDFFF) {
            prepend(hex4(t.subrange(2, 6)) as char, json_chars(t.skip(6)))
        } else {
            None
        }
    } else if t[0] == '"' || (t[0] as u32) < 0x20 {
        None
    } else {
        prepend(t[0], json_chars(t.skip(1)))
    }
}

/// What a JSON string literal stands for; `None` when it is not one.
pub open spec fn json_string(t: Seq<char>) -> Option<Seq<char>> {
    if t.len() >= 2 && t[0] == '"' && t.last() == '"' {
        json_chars(t.subrange(1, t.len() - 1))
    } else {
        None
    }
}

proof fn lemma_escape_front(c: char, s: Seq<char>)
    ensures
        escape(seq![c] + s) == escape_char(c) + escape(s),
    decreases s.len(),
{
    let t = seq![c] + s;
    if s.len() == 0 {
        assert(t == seq![c]);
        assert(t.drop_last().len() == 0);
        assert(escape(t.drop_last()) == Seq::<char>::empty());
        assert(escape(s) == Seq::<char>::empty());
        assert(escape_char(c) + Seq::<char>::empty() == escape_char(c));
        assert(Seq::<char>::empty() + escape_char(c) == escape_char(c));
    } else {
        lemma_escape_front(c, s.drop_last());
        assert(t.drop_last() == seq![c] + s.drop_last());
        assert(t.last() == s.last());
        assert(escape(t) == escape(t.drop_last()) + escape_char(t.last()));
        assert(escape(s) == escape(s.drop_last()) + escape_char(s.last()));
    }
}

/// Reading one escaped character gives that character back.
proof fn lemma_decode_char(c: char, x: Seq<char>)
    ensures
        json_chars(escape_char(c) + x) == prepend(c, json_chars(x)),
{
    let t = escape_char(c) + x;
    if c == '"' || c == '\\' || c == '\n' || c == '\r' || c == '\t' || c == '\u{08}' || c == '\u{0c}' {
        assert(escape_char(c).len() == 2);
        assert(t[0] == '\\');
        assert(short_escape(t[1]) == Some(c));
        assert(t.skip(2) =~= x);
    } else if (c as u32) < 0x20 {
        let v = (c as u32) as int;
        assert(0 <= v / 16 < 16 && 0 <= v % 16 < 16) by (nonlinear_arith)
            requires 0 <= v < 32;
        assert forall|n: int| 0 <= n < 16 implies is_hex_char(#[trigger] hex_digit(n)) && hex_value(hex_digit(n)) == n by {}
        assert(escape_char(c).len() == 6);
        assert(t[0] == '\\' && t[1] == 'u' && t[2] == '0' && t[3] == '0');
        assert(t[4] == hex_digit(v / 16) && t[5] == hex_digit(v % 16));
        assert(short_escape(t[1]) is None);
        let d = t.subrange(2, 6);
        assert(d[0] == '0' && d[1] == '0' && d[2] == t[4] && d[3] == t[5]);
        assert(hex4(d) == (v / 16) * 16 + v % 16);
        assert(hex4(d) == v);
        assert((v as char) == c);
        assert(t.skip(6) =~= x);
    } else {
        assert(escape_char(c) == seq![c]);
        assert(t[0] == c);
        assert(t.skip(1) =~= x);
    }
}

proof fn lemma_decode_escape(s: Seq<char>)
    ensures
        json_chars(escape(s)) == Some(s),
    decreases s.len(),
{
    if s.len() == 0 {
        assert(escape(s) == Seq::<char>::empty());
    } else {
        let rest = s.drop_first();
        assert(s == seq![s[0]] + rest);
        lemma_escape_front(s[0], rest);
        lemma_decode_escape(rest);
        lemma_decode_char(s[0], escape(rest));
    }
}

/// Read back as JSON, a quoted text is the text itself.
pub proof fn lemma_quote_decodes(s: Seq<char>)
    ensures
        json_string(spec_quote(s)) == Some(s),
{
    let q = spec_quote(s);
    lemma_decode_escape(s);
    assert(q.subrange(1, q.len() - 1) =~= escape(s));
}

fn push_escaped(out: &mut Vec<char>, c: char)
    ensures
        final(out)@ == old(out)@ + escape_char(c),
{
    if c == '"' {
        out.push('\\');
        out.push('"');
    } else if c == '\\' {
        out.push('\\');
        out.push('\\');
    } else if c == '\n' {
        out.push('\\');
        out.push('n');
    } else if c == '\r' {
        out.push('\\');
        out.push('r');
    } else if c == '\t' {
        out.push('\\');
        out.push('t');
    } else if c == '\u{08}' {
        out.push('\\');
        out.push('b');
    } else if c == '\u{0c}' {
        out.push('\\');
        out.push('f');
    } else if (c as u32) < 0x20 {
        let n = c as u32;
        out.push('\\');
        out.push('u');
        out.push('0');
        out.push('0');
        out.push(if n / 16 < 10 { ((48 + n / 16) as u8) as char } else { ((87 + n / 16) as u8) as char });
        out.push(if n % 16 < 10 { ((48 + n % 16) as u8) as char } else { ((87 + n % 16) as u8) as char });
    } else {
        out.push(c);
    }
}

/// Escape a string and wrap it in double quotes, ready to splice into output.
pub fn quote(s: &str) -> (r: String)
    ensures
        r@ == spec_quote(s@),
{
    let v = chars_of(s);
    let mut out: Vec<char> = Vec::new();
    out.push('"');
    for i in 0..v.len()
        invariant
            out@ == seq!['"'] + escape(v@.take(i as int)),
    {
        assert(v@.take(i + 1).drop_last() == v@.take(i as int));
        push_escaped(&mut out, v[i]);
    }
    assert(v@.take(v.len() as int) == v@);
    out.push('"');
    string_of(&out)
}

/// A string field, or `null` when it is absent.
pub fn opt_str(value: Option<&str>) -> (r: String)
    ensures
        r@ == match value {
            Some(s) => spec_quote(s@),
            None => "null"@,
        },
{
    match value {
        Some(s) => quote(s),
        None => String::from_str("null"),
    }
}

// ---------------------------------------------------------------------------
// Documents
//
// Numbers that are doubles (weights, shares, distances) are formatted by the
// caller and handed in as texts.

/// Items separated by `, `.
pub open spec fn joined(items: Seq<Seq<char>>) -> Seq<char>
    decreases items.len(),
{
    if items.len() == 0 {
        Seq::empty()
    } else if items.len() == 1 {
        items[0]
    } else {
        joined(items.drop_last()) + ", "@ + items.last()
    }
}

pub proof fn lemma_joined_step(items: Seq<Seq<char>>, i: int)
    requires
        0 <= i < items.len(),
    ensures
        joined(items.take(i + 1)) == joined(items.take(i)) + (if i > 0 { ", "@ } else { Seq::empty() }) + items[i],
{
    assert(items.take(i + 1).drop_last() == items.take(i));
    if i == 0 {
        assert(items.take(0).len() == 0);
        assert(Seq::<char>::empty() + Seq::<char>::empty() + items[0] == items[0]);
    }
}

pub open spec fn hex_json(c: Rgb8) -> Seq<char> {
    spec_quote(spec_hex(c))
}

pub open spec fn opt_hex_json(c: Option<Rgb8>) -> Seq<char> {
    match c {
        Some(c) => hex_json(c),
        None => "null"@,
    }
}

pub open spec fn opt_str_json(v: Option<Seq<char>>) -> Seq<char> {
    match v {
        Some(s) => spec_quote(s),
        None => "null"@,
    }
}

/// The number's text where there is a number, `null` where there is none.
pub open spec fn number_or_null(present: bool, text: Seq<char>) -> Seq<char> {
    if present { text } else { "null"@ }
}

pub open spec fn bool_json(b: bool) -> Seq<char> {
    if b { "true"@ } else { "false"@ }
}

pub open spec fn status_name(s: ColorStatus) -> Seq<char> {
    match s {
        ColorStatus::Held => "ok"@,
        ColorStatus::Drift => "drift"@,
        ColorStatus::Missing => "missing"@,
    }
}

pub open spec fn verdict_name(v: Verdict) -> Seq<char> {
    match v {
        Verdict::Pass => "pass"@,
        Verdict::Warn => "warn"@,
        Verdict::Fail => "fail"@,
    }
}

pub(crate) fn push_quoted(out: &mut Vec<char>, s: &str)
    ensures
        final(out)@ == old(out)@ + spec_quote(s@),
{
    push_str(out, quote(s).as_str());
}

pub(crate) fn push_hex(out: &mut Vec<char>, c: Rgb8)
    ensures
        final(out)@ == old(out)@ + hex_json(c),
{
    push_quoted(out, c.hex().as_str());
}

fn push_opt_hex(out: &mut Vec<char>, c: Option<Rgb8>)
    ensures
        final(out)@ == old(out)@ + opt_hex_json(c),
{
    match c {
        Some(c) => push_hex(out, c),
        None => push_str(out, "null"),
    }
}

fn push_opt_string(out: &mut Vec<char>, v: &Option<String>)
    ensures
        final(out)@ == old(out)@ + opt_str_json(opt_view(*v)),
{
    match v {
        Some(s) => push_quoted(out, s.as_str()),
        None => push_str(out, "null"),
    }
}

fn push_number_or_null(out: &mut Vec<char>, present: bool, text: &str)
    ensures
        final(out)@ == old(out)@ + number_or_null(present, text@),
{
    if present {
        push_str(out, text);
    } else {
        push_str(out, "null");
    }
}

// The extract document.

pub open spec fn color_item(c: Cluster, weight: Seq<char>) -> Seq<char> {
    "{\"hex\": "@ + hex_json(c.color) + ", \"weight\": "@ + weight + "}"@
}

pub open spec fn color_items(cs: Seq<Cluster>, weights: Seq<Seq<char>>) -> Seq<Seq<char>> {
    Seq::new(cs.len(), |i: int| color_item(cs[i], text_at(weights, i)))
}

/// The document `extract --json` prints.
pub open spec fn spec_extract_document(
    version: Seq<char>,
    image: Seq<char>,
    width: u32,
    height: u32,
    background: Option<Rgb8>,
    excluded_share: Seq<char>,
    clusters: Seq<Cluster>,
    weights: Seq<Seq<char>>,
) -> Seq<char> {
    "{\"tool\": \"palettefit\", \"version\": "@ + spec_quote(version) + ", \"command\": \"extract\", \"image\": "@
        + spec_quote(image) + ", \"width\": "@ + decimal(width as int) + ", \"height\": "@ + decimal(height as int)
        + ", \"background\": "@ + opt_hex_json(background) + ", \"excluded_share\": "@ + excluded_share
        + ", \"colors\": ["@ + joined(color_items(clusters, weights)) + "]}"@
}

fn push_color_items(out: &mut Vec<char>, clusters: &Vec<Cluster>, weights: &Vec<String>)
    ensures
        final(out)@ == old(out)@ + joined(color_items(clusters@, texts_view(weights@))),
{
    let ghost items = color_items(clusters@, texts_view(weights@));
    let ghost start = out@;
    for i in 0..clusters.len()
        invariant
            items == color_items(clusters@, texts_view(weights@)),
            out@ == start + joined(items.take(i as int)),
    {
        proof { lemma_joined_step(items, i as int); }
        let ghost before = out@;
        if i > 0 {
            push_str(out, ", ");
        }
        let ghost mid = out@;
        push_str(out, "{\"hex\": ");
        push_hex(out, clusters[i].color);
        push_str(out, ", \"weight\": ");
        push_str(out, text_at_exec(weights, i));
        push_str(out, "}");
        assert(out@ =~= mid + items[i as int]);
        assert(out@ =~= start + joined(items.take(i + 1)));
    }
    assert(items.take(clusters.len() as int) =~= items);
}

/// The document `extract --json` prints; `weights[i]` is the text of
/// cluster `i`'s weight and `excluded_share` that of the excluded share.
pub fn extract_document(
    version: &str,
    image: &str,
    width: u32,
    height: u32,
    background: Option<Rgb8>,
    excluded_share: &str,
    clusters: &Vec<Cluster>,
    weights: &Vec<String>,
) -> (r: String)
    ensures
        r@ == spec_extract_document(version@, image@, width, height, background, excluded_share@, clusters@,
            texts_view(weights@)),
{
    let mut out: Vec<char> = Vec::new();
    push_str(&mut out, "{\"tool\": \"palettefit\", \"version\": ");
    push_quoted(&mut out, version);
    push_str(&mut out, ", \"command\": \"extract\", \"image\": ");
    push_quoted(&mut out, image);
    push_str(&mut out, ", \"width\": ");
    push_decimal_u32(&mut out, width);
    push_str(&mut out, ", \"height\": ");
    push_decimal_u32(&mut out, height);
    let ghost a = out@;
    push_str(&mut out, ", \"background\": ");
    push_opt_hex(&mut out, background);
    push_str(&mut out, ", \"excluded_share\": ");
    push_str(&mut out, excluded_share);
    push_str(&mut out, ", \"colors\": [");
    push_color_items(&mut out, clusters, weights);
    push_str(&mut out, "]}");
    assert(out@ =~= spec_extract_document(version@, image@, width, height, background, excluded_share@, clusters@,
        texts_view(weights@)));
    string_of(&out)
}

// The check documents.

/// The numbers of one image's check document, formatted by the caller: the
/// distance of each reference color to its nearest cluster, each foreign
/// color's weight and distance, and the foreign share.
pub struct ImageNumbers {
    pub deltas: Vec<String>,
    pub foreign_weights: Vec<String>,
    pub foreign_deltas: Vec<String>,
    pub foreign_share: String,
}

pub open spec fn result_item(c: ColorResult, delta: Seq<char>) -> Seq<char> {
    "{\"reference\": "@ + hex_json(c.reference) + ", \"label\": "@ + opt_str_json(opt_view(c.label))
        + ", \"nearest\": "@ + opt_hex_json(c.nearest) + ", \"delta_e\": "@ + number_or_null(c.delta_e is Some, delta)
        + ", \"status\": "@ + spec_quote(status_name(c.status)) + "}"@
}

pub open spec fn result_items(cs: Seq<ColorResult>, deltas: Seq<Seq<char>>) -> Seq<Seq<char>> {
    Seq::new(cs.len(), |i: int| result_item(cs[i], text_at(deltas, i)))
}

pub open spec fn foreign_item(f: ForeignColor, weight: Seq<char>, delta: Seq<char>) -> Seq<char> {
    "{\"hex\": "@ + hex_json(f.color) + ", \"weight\": "@ + weight + ", \"nearest_reference\": "@
        + hex_json(f.nearest_reference) + ", \"delta_e\": "@ + delta + "}"@
}

pub open spec fn foreign_items(fs: Seq<ForeignColor>, weights: Seq<Seq<char>>, deltas: Seq<Seq<char>>) -> Seq<Seq<char>> {
    Seq::new(fs.len(), |i: int| foreign_item(fs[i], text_at(weights, i), text_at(deltas, i)))
}

/// One image's part of the document `check --json` prints.
pub open spec fn spec_image_document(
    image: Seq<char>,
    verdict: Verdict,
    background: Option<Rgb8>,
    report: CheckReport,
    nums: ImageNumbers,
) -> Seq<char> {
    "{\"image\": "@ + spec_quote(image) + ", \"verdict\": "@ + spec_quote(verdict_name(verdict)) + ", \"background\": "@
        + opt_hex_json(background) + ", \"colors\": ["@ + joined(result_items(report.colors@, texts_view(nums.deltas@)))
        + "], \"foreign\": ["@
        + joined(foreign_items(report.foreign@, texts_view(nums.foreign_weights@), texts_view(nums.foreign_deltas@)))
        + "], \"foreign_share\": "@ + nums.foreign_share@ + "}"@
}

fn push_result_item(out: &mut Vec<char>, c: &ColorResult, delta: &str)
    ensures
        final(out)@ == old(out)@ + result_item(*c, delta@),
{
    let ghost start = out@;
    push_str(out, "{\"reference\": ");
    push_hex(out, c.reference);
    push_str(out, ", \"label\": ");
    push_opt_string(out, &c.label);
    push_str(out, ", \"nearest\": ");
    push_opt_hex(out, c.nearest);
    let ghost a = out@;
    push_str(out, ", \"delta_e\": ");
    push_number_or_null(out, c.delta_e.is_some(), delta);
    push_str(out, ", \"status\": ");
    push_quoted(out, c.status.as_str());
    push_str(out, "}");
    assert(out@ =~= start + result_item(*c, delta@));
}

fn push_result_items(out: &mut Vec<char>, cs: &Vec<ColorResult>, deltas: &Vec<String>)
    ensures
        final(out)@ == old(out)@ + joined(result_items(cs@, texts_view(deltas@))),
{
    let ghost items = result_items(cs@, texts_view(deltas@));
    let ghost start = out@;
    for i in 0..cs.len()
        invariant
            items == result_items(cs@, texts_view(deltas@)),
            out@ == start + joined(items.take(i as int)),
    {
        proof { lemma_joined_step(items, i as int); }
        if i > 0 {
            push_str(out, ", ");
        }
        push_result_item(out, &cs[i], text_at_exec(deltas, i));
        assert(out@ =~= start + joined(items.take(i + 1)));
    }
    assert(items.take(cs.len() as int) =~= items);
}

fn push_foreign_item(out: &mut Vec<char>, f: &ForeignColor, weight: &str, delta: &str)
    ensures
        final(out)@ == old(out)@ + foreign_item(*f, weight@, delta@),
{
    let ghost start = out@;
    push_str(out, "{\"hex\": ");
    push_hex(out, f.color);
    push_str(out, ", \"weight\": ");
    push_str(out, weight);
    push_str(out, ", \"nearest_reference\": ");
    push_hex(out, f.nearest_reference);
    push_str(out, ", \"delta_e\": ");
    push_str(out, delta);
    push_str(out, "}");
    assert(out@ =~= start + foreign_item(*f, weight@, delta@));
}

fn push_foreign_items(out: &mut Vec<char>, fs: &Vec<ForeignColor>, weights: &Vec<String>, deltas: &Vec<String>)
    ensures
        final(out)@ == old(out)@ + joined(foreign_items(fs@, texts_view(weights@), texts_view(deltas@))),
{
    let ghost items = foreign_items(fs@, texts_view(weights@), texts_view(deltas@));
    let ghost start = out@;
    for i in 0..fs.len()
        invariant
            items == foreign_items(fs@, texts_view(weights@), texts_view(deltas@)),
            out@ == start + joined(items.take(i as int)),
    {
        proof { lemma_joined_step(items, i as int); }
        if i > 0 {
            push_str(out, ", ");
        }
        push_foreign_item(out, &fs[i], text_at_exec(weights, i), text_at_exec(deltas, i));
        assert(out@ =~= start + joined(items.take(i + 1)));
    }
    assert(items.take(fs.len() as int) =~= items);
}

/// One image's part of the document `check --json` prints.
pub fn image_document(image: &str, verdict: Verdict, background: Option<Rgb8>, report: &CheckReport, nums: &ImageNumbers) -> (r: String)
    ensures
        r@ == spec_image_document(image@, verdict, background, *report, *nums),
{
    let mut out: Vec<char> = Vec::new();
    push_str(&mut out, "{\"image\": ");
    push_quoted(&mut out, image);
    push_str(&mut out, ", \"verdict\": ");
    push_quoted(&mut out, verdict.as_str());
    push_str(&mut out, ", \"background\": ");
    push_opt_hex(&mut out, background);
    push_str(&mut out, ", \"colors\": [");
    let ghost a = out@;
    push_result_items(&mut out, &report.colors, &nums.deltas);
    push_str(&mut out, "], \"foreign\": [");
    push_foreign_items(&mut out, &report.foreign, &nums.foreign_weights, &nums.foreign_deltas);
    push_str(&mut out, "], \"foreign_share\": ");
    push_str(&mut out, nums.foreign_share.as_str());
    push_str(&mut out, "}");
    assert(out@ =~= spec_image_document(image@, verdict, background, *report, *nums));
    string_of(&out)
}

/// The thresholds as `check --json` records them, formatted by the caller.
pub struct ThresholdTexts {
    pub warn_delta: String,
    pub fail_delta: String,
    pub max_foreign: Option<String>,
    pub strict: bool,
}

pub open spec fn palette_item(c: PaletteColor, weight: Seq<char>) -> Seq<char> {
    "{\"hex\": "@ + hex_json(c.color) + ", \"weight\": "@ + number_or_null(c.weight is Some, weight) + ", \"label\": "@
        + opt_str_json(opt_view(c.label)) + "}"@
}

pub open spec fn palette_items(cs: Seq<PaletteColor>, weights: Seq<Seq<char>>) -> Seq<Seq<char>> {
    Seq::new(cs.len(), |i: int| palette_item(cs[i], text_at(weights, i)))
}

/// The document `check --json` prints: the palette, the thresholds, the
/// documents of the images, and whether any image failed.
pub open spec fn spec_check_document(
    version: Seq<char>,
    palette: Palette,
    weights: Seq<Seq<char>>,
    t: ThresholdTexts,
    images: Seq<Seq<char>>,
    any_fail: bool,
) -> Seq<char> {
    "{\"tool\": \"palettefit\", \"version\": "@ + spec_quote(version) + ", \"command\": \"check\", \"palette\": {\"name\": "@
        + opt_str_json(opt_view(palette.name)) + ", \"source\": "@ + opt_str_json(opt_view(palette.source))
        + ", \"colors\": ["@ + joined(palette_items(palette.colors@, weights))
        + "]}, \"thresholds\": {\"warn_delta\": "@ + t.warn_delta@ + ", \"fail_delta\": "@ + t.fail_delta@
        + ", \"max_foreign\": "@ + number_or_null(t.max_foreign is Some, match t.max_foreign { Some(m) => m@, None => Seq::empty() })
        + ", \"strict\": "@ + bool_json(t.strict) + "}, \"images\": ["@ + joined(images) + "], \"verdict\": "@
        + spec_quote(if any_fail { "fail"@ } else { "pass"@ }) + "}"@
}

fn push_palette_item(out: &mut Vec<char>, c: &PaletteColor, weight: &str)
    ensures
        final(out)@ == old(out)@ + palette_item(*c, weight@),
{
    let ghost start = out@;
    push_str(out, "{\"hex\": ");
    push_hex(out, c.color);
    push_str(out, ", \"weight\": ");
    push_number_or_null(out, c.weight.is_some(), weight);
    push_str(out, ", \"label\": ");
    push_opt_string(out, &c.label);
    push_str(out, "}");
    assert(out@ =~= start + palette_item(*c, weight@));
}

fn push_palette_items(out: &mut Vec<char>, cs: &Vec<PaletteColor>, weights: &Vec<String>)
    ensures
        final(out)@ == old(out)@ + joined(palette_items(cs@, texts_view(weights@))),
{
    let ghost items = palette_items(cs@, texts_view(weights@));
    let ghost start = out@;
    for i in 0..cs.len()
        invariant
            items == palette_items(cs@, texts_view(weights@)),
            out@ == start + joined(items.take(i as int)),
    {
        proof { lemma_joined_step(items, i as int); }
        if i > 0 {
            push_str(out, ", ");
        }
        push_palette_item(out, &cs[i], text_at_exec(weights, i));
        assert(out@ =~= start + joined(items.take(i + 1)));
    }
    assert(items.take(cs.len() as int) =~= items);
}

fn push_joined(out: &mut Vec<char>, items: &Vec<String>)
    ensures
        final(out)@ == old(out)@ + joined(texts_view(items@)),
{
    let ghost all = texts_view(items@);
    let ghost start = out@;
    for i in 0..items.len()
        invariant
            all == texts_view(items@),
            out@ == start + joined(all.take(i as int)),
    {
        proof { lemma_joined_step(all, i as int); }
        if i > 0 {
            push_str(out, ", ");
        }
        push_str(out, items[i].as_str());
        assert(out@ =~= start + joined(all.take(i + 1)));
    }
    assert(all.take(items.len() as int) =~= all);
}

/// The document `check --json` prints; `weights[i]` is the text of palette
/// color `i`'s weight and `images` are the images' documents.
pub fn check_document(
    version: &str,
    palette: &Palette,
    weights: &Vec<String>,
    t: &ThresholdTexts,
    images: &Vec<String>,
    any_fail: bool,
) -> (r: String)
    ensures
        r@ == spec_check_document(version@, *palette, texts_view(weights@), *t, texts_view(images@), any_fail),
{
    let mut out: Vec<char> = Vec::new();
    push_str(&mut out, "{\"tool\": \"palettefit\", \"version\": ");
    push_quoted(&mut out, version);
    push_str(&mut out, ", \"command\": \"check\", \"palette\": {\"name\": ");
    push_opt_string(&mut out, &palette.name);
    push_str(&mut out, ", \"source\": ");
    push_opt_string(&mut out, &palette.source);
    push_str(&mut out, ", \"colors\": [");
    push_palette_items(&mut out, &palette.colors, weights);
    let ghost a = out@;
    push_str(&mut out, "]}, \"thresholds\": {\"warn_delta\": ");
    push_str(&mut out, t.warn_delta.as_str());
    push_str(&mut out, ", \"fail_delta\": ");
    push_str(&mut out, t.fail_delta.as_str());
    push_str(&mut out, ", \"max_foreign\": ");
    match &t.max_foreign {
        Some(m) => push_number_or_null(&mut out, true, m.as_str()),
        None => push_number_or_null(&mut out, false, ""),
    }
    push_str(&mut out, ", \"strict\": ");
    if t.strict {
        push_str(&mut out, "true");
    } else {
        push_str(&mut out, "false");
    }
    let ghost b = out@;
    push_str(&mut out, "}, \"images\": [");
    push_joined(&mut out, images);
    push_str(&mut out, "], \"verdict\": ");
    if any_fail {
        push_quoted(&mut out, "fail");
    } else {
        push_quoted(&mut out, "pass");
    }
    push_str(&mut out, "}");
    assert(out@ =~= spec_check_document(version@, *palette, texts_view(weights@), *t, texts_view(images@), any_fail));
    string_of(&out)
}

// ---------------------------------------------------------------------------
// What the documents say

/// The name a verdict is written as.
pub open spec fn verdict_word(v: Verdict) -> Seq<char> {
    match v {
        Verdict::Pass => seq!['p', 'a', 's', 's'],
        Verdict::Warn => seq!['w', 'a', 'r', 'n'],
        Verdict::Fail => seq!['f', 'a', 'i', 'l'],
    }
}

/// An image's document opens with the image's name and then its verdict,
/// each verdict written under its own name: `"pass"`, `"warn"` or `"fail"`.
pub proof fn lemma_image_document_verdict(
    image: Seq<char>,
    verdict: Verdict,
    background: Option<Rgb8>,
    report: CheckReport,
    nums: ImageNumbers,
)
    ensures
        ("{\"image\": "@ + spec_quote(image) + ", \"verdict\": "@ + spec_quote(verdict_word(verdict)))
            .is_prefix_of(spec_image_document(image, verdict, background, report, nums)),
{
    reveal_strlit("pass");
    reveal_strlit("warn");
    reveal_strlit("fail");
    assert(verdict_name(verdict) == verdict_word(verdict));
    let d = spec_image_document(image, verdict, background, report, nums);
    let head = "{\"image\": "@ + spec_quote(image) + ", \"verdict\": "@ + spec_quote(verdict_word(verdict));
    assert(d.subrange(0, head.len() as int) =~= head);
}

/// The name a color's status is written as.
pub open spec fn status_word(s: ColorStatus) -> Seq<char> {
    match s {
        ColorStatus::Held => seq!['o', 'k'],
        ColorStatus::Drift => seq!['d', 'r', 'i', 'f', 't'],
        ColorStatus::Missing => seq!['m', 'i', 's', 's', 'i', 'n', 'g'],
    }
}

/// A reference color's item opens with that color and closes with its own
/// status, each status written under its own name.
pub proof fn lemma_result_item_status(c: ColorResult, delta: Seq<char>)
    ensures
        ("{\"reference\": "@ + hex_json(c.reference)).is_prefix_of(result_item(c, delta)),
        (", \"status\": "@ + spec_quote(status_word(c.status)) + "}"@).is_suffix_of(result_item(c, delta)),
{
    reveal_strlit("ok");
    reveal_strlit("drift");
    reveal_strlit("missing");
    assert(status_name(c.status) == status_word(c.status));
    let it = result_item(c, delta);
    let head = "{\"reference\": "@ + hex_json(c.reference);
    let tail = ", \"status\": "@ + spec_quote(status_word(c.status)) + "}"@;
    assert(it.subrange(0, head.len() as int) =~= head);
    assert(it.subrange(it.len() - tail.len(), it.len() as int) =~= tail);
}

/// Each item of a document is about its own element, with its own number
/// texts, and the items stand in the elements' order.
pub proof fn lemma_document_items(
    clusters: Seq<Cluster>,
    results: Seq<ColorResult>,
    foreign: Seq<ForeignColor>,
    palette: Seq<PaletteColor>,
    t1: Seq<Seq<char>>,
    t2: Seq<Seq<char>>,
)
    ensures
        color_items(clusters, t1).len() == clusters.len(),
        forall|i: int| 0 <= i < clusters.len() ==> #[trigger] color_items(clusters, t1)[i] == color_item(clusters[i], text_at(t1, i)),
        result_items(results, t1).len() == results.len(),
        forall|i: int| 0 <= i < results.len() ==> #[trigger] result_items(results, t1)[i] == result_item(results[i], text_at(t1, i)),
        foreign_items(foreign, t1, t2).len() == foreign.len(),
        forall|i: int| 0 <= i < foreign.len() ==> #[trigger] foreign_items(foreign, t1, t2)[i]
            == foreign_item(foreign[i], text_at(t1, i), text_at(t2, i)),
        palette_items(palette, t1).len() == palette.len(),
        forall|i: int| 0 <= i < palette.len() ==> #[trigger] palette_items(palette, t1)[i] == palette_item(palette[i], text_at(t1, i)),
{
}

/// The last field of a check document is the overall verdict, `"fail"` if
/// any image has failed and `"pass"` if none has.
pub proof fn lemma_check_document_verdict(
    version: Seq<char>,
    palette: Palette,
    weights: Seq<Seq<char>>,
    t: ThresholdTexts,
    images: Seq<Seq<char>>,
    any_fail: bool,
)
    ensures
        (", \"verdict\": "@ + spec_quote(if any_fail { seq!['f', 'a', 'i', 'l'] } else { seq!['p', 'a', 's', 's'] }) + "}"@)
            .is_suffix_of(spec_check_document(version, palette, weights, t, images, any_fail)),
{
    reveal_strlit("pass");
    reveal_strlit("fail");
    assert("pass"@ =~= seq!['p', 'a', 's', 's']);
    assert("fail"@ =~= seq!['f', 'a', 'i', 'l']);
    let d = spec_check_document(version, palette, weights, t, images, any_fail);
    let word = if any_fail { "fail"@ } else { "pass"@ };
    let pre = "{\"tool\": \"palettefit\", \"version\": "@ + spec_quote(version) + ", \"command\": \"check\", \"palette\": {\"name\": "@
        + opt_str_json(opt_view(palette.name)) + ", \"source\": "@ + opt_str_json(opt_view(palette.source))
        + ", \"colors\": ["@ + joined(palette_items(palette.colors@, weights))
        + "]}, \"thresholds\": {\"warn_delta\": "@ + t.warn_delta@ + ", \"fail_delta\": "@ + t.fail_delta@
        + ", \"max_foreign\": "@ + number_or_null(t.max_foreign is Some, match t.max_foreign { Some(m) => m@, None => Seq::empty() })
        + ", \"strict\": "@ + bool_json(t.strict) + "}, \"images\": ["@ + joined(images) + "]"@;
    reveal_strlit("], \"verdict\": ");
    reveal_strlit("]");
    reveal_strlit(", \"verdict\": ");
    assert("], \"verdict\": "@ =~= "]"@ + ", \"verdict\": "@);
    assert(d =~= pre + (", \"verdict\": "@ + spec_quote(word) + "}"@));
    let tail = ", \"verdict\": "@ + spec_quote(if any_fail { seq!['f', 'a', 'i', 'l'] } else { seq!['p', 'a', 's', 's'] }) + "}"@;
    assert(d.subrange(d.len() - tail.len(), d.len() as int) =~= tail);
}

} // verus!
