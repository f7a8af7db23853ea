//! Character-level helpers shared by the parsers and writers.

use vstd::prelude::*;

verus! {

/// The characters of `s`, one per element.
pub fn chars_of(s: &str) -> (v: Vec<char>)
    ensures
        v@ == s@,
{
    broadcast use vstd::string::group_string_axioms;
    let mut v: Vec<char> = Vec::new();
    for c in it: s.chars()
        invariant
            v@ == it.seq().take(it.index()),
    {
        v.push(c);
    }
    v
}

/// Calls std's `String::push`. Its contract, believed rather than proved,
/// says what the standard library documents: the character is appended.
#[verifier::external_body]
pub(crate) fn push_char(s: &mut String, c: char)
    ensures
        final(s)@ == old(s)@.push(c),
{
    s.push(c);
}

/// A `String` holding exactly the characters of `v`.
pub fn string_of(v: &Vec<char>) -> (s: String)
    ensures
        s@ == v@,
{
    let mut s = String::new();
    for i in 0..v.len()
        invariant
            s@ == v@.take(i as int),
    {
        push_char(&mut s, v[i]);
        assert(v@.take(i + 1) == v@.take(i as int).push(v@[i as int]));
    }
    assert(v@.take(v.len() as int) == v@);
    s
}

/// Append the characters of `s`.
pub fn append_chars(out: &mut Vec<char>, s: &Vec<char>)
    ensures
        final(out)@ == old(out)@ + s@,
{
    for i in 0..s.len()
        invariant
            out@ == old(out)@ + s@.take(i as int),
    {
        out.push(s[i]);
        assert(s@.take(i + 1) == s@.take(i as int).push(s@[i as int]));
    }
    assert(s@.take(s.len() as int) == s@);
}

/// Append the characters of `s`.
pub fn push_str(out: &mut Vec<char>, s: &str)
    ensures
        final(out)@ == old(out)@ + s@,
{
    append_chars(out, &chars_of(s));
}

/// The decimal digits of `n`, without leading zeros.
pub open spec fn decimal(n: int) -> Seq<char>
    decreases n,
{
    if n < 10 {
        seq![((48 + n) as u8) as char]
    } else {
        decimal(n / 10) + seq![((48 + n % 10) as u8) as char]
    }
}

/// Append the decimal digits of `n`.
pub fn push_decimal_u32(out: &mut Vec<char>, n: u32)
    ensures
        final(out)@ == old(out)@ + decimal(n as int),
    decreases n,
{
    if n >= 10 {
        push_decimal_u32(out, n / 10);
    }
    let d = (n % 10) as u8;
    out.push((48 + d) as char);
    assert(decimal(n as int) =~= (if n >= 10 { decimal(n as int / 10) } else { Seq::empty() }) + seq![((48 + n % 10) as u8) as char]);
}

/// Unicode White_Space, which is what `char::is_whitespace` tests.
pub open spec fn is_ws(c: char) -> bool {
    let n = c as u32;
    (0x09 <= n && n <= 0x0d) || n == 0x20 || n == 0x85 || n == 0xa0 || n == 0x1680
        || (0x2000 <= n && n <= 0x200a) || n == 0x2028 || n == 0x2029 || n == 0x202f
        || n == 0x205f || n == 0x3000
}

pub fn is_ws_exec(c: char) -> (b: bool)
    ensures
        b == is_ws(c),
{
    let n = c as u32;
    (0x09 <= n && n <= 0x0d) || n == 0x20 || n == 0x85 || n == 0xa0 || n == 0x1680
        || (0x2000 <= n && n <= 0x200a) || n == 0x2028 || n == 0x2029 || n == 0x202f
        || n == 0x205f || n == 0x3000
}

/// The index of the first non-whitespace character at or after `i`.
pub open spec fn skip_ws(s: Seq<char>, i: int) -> int
    decreases s.len() - i,
{
    if 0 <= i < s.len() && is_ws(s[i]) {
        skip_ws(s, i + 1)
    } else {
        i
    }
}

/// One past the last non-whitespace character before `j`.
pub open spec fn back_ws(s: Seq<char>, j: int) -> int
    decreases j,
{
    if 0 < j <= s.len() && is_ws(s[j - 1]) {
        back_ws(s, j - 1)
    } else {
        j
    }
}

/// `s` without leading and trailing whitespace.
pub open spec fn trim(s: Seq<char>) -> Seq<char> {
    let a = skip_ws(s, 0);
    let b = back_ws(s, s.len() as int);
    if a >= b {
        Seq::empty()
    } else {
        s.subrange(a, b)
    }
}

/// The maximal runs of non-whitespace characters of `s`, in order.
pub open spec fn tokens(s: Seq<char>) -> Seq<Seq<char>>
    decreases s.len(),
{
    if s.len() == 0 {
        Seq::empty()
    } else {
        let t = tokens(s.drop_last());
        if is_ws(s.last()) {
            t
        } else if s.len() >= 2 && !is_ws(s[s.len() - 2]) && t.len() > 0 {
            t.update(t.len() - 1, t.last().push(s.last()))
        } else {
            t.push(seq![s.last()])
        }
    }
}

/// The pieces of `s` between `\n` characters; the text after the last `\n`
/// (empty when `s` ends with one) is a piece too.
pub open spec fn pieces(s: Seq<char>) -> Seq<Seq<char>>
    decreases s.len(),
{
    if s.len() == 0 {
        seq![Seq::empty()]
    } else {
        let t = pieces(s.drop_last());
        if s.last() == '\n' {
            t.push(Seq::empty())
        } else {
            t.update(t.len() - 1, t.last().push(s.last()))
        }
    }
}

/// The lines of `s`: its pieces between `\n` characters, where a final
/// `\n` ends the last line rather than opening an empty one. An empty text
/// has no lines. (A `\r` before a `\n` stays in its line.)
pub open spec fn split_lines(s: Seq<char>) -> Seq<Seq<char>> {
    let p = pieces(s);
    if p.last().len() == 0 {
        p.drop_last()
    } else {
        p
    }
}

/// The words joined by single spaces.
pub open spec fn join_words(ws: Seq<Seq<char>>) -> Seq<char>
    decreases ws.len(),
{
    if ws.len() == 0 {
        Seq::empty()
    } else if ws.len() == 1 {
        ws[0]
    } else {
        join_words(ws.drop_last()) + seq![' '] + ws.last()
    }
}

pub open spec fn starts_with(s: Seq<char>, p: Seq<char>) -> bool {
    s.len() >= p.len() && s.subrange(0, p.len() as int) == p
}

proof fn lemma_pieces_nonempty(s: Seq<char>)
    ensures
        pieces(s).len() >= 1,
    decreases s.len(),
{
    if s.len() > 0 {
        lemma_pieces_nonempty(s.drop_last());
    }
}

/// The lines of `v`.
pub fn split_lines_exec(v: &Vec<char>) -> (r: Vec<Vec<char>>)
    ensures
        r@.len() == split_lines(v@).len(),
        forall|i: int| 0 <= i < r@.len() ==> (#[trigger] r@[i])@ == split_lines(v@)[i],
{
    let mut r: Vec<Vec<char>> = Vec::new();
    let mut cur: Vec<char> = Vec::new();
    for i in 0..v.len()
        invariant
            r@.len() + 1 == pieces(v@.take(i as int)).len(),
            forall|p: int| 0 <= p < r@.len() ==> (#[trigger] r@[p])@ == pieces(v@.take(i as int))[p],
            cur@ == pieces(v@.take(i as int)).last(),
    {
        proof {
            lemma_pieces_nonempty(v@.take(i as int));
            assert(v@.take(i + 1).drop_last() == v@.take(i as int));
        }
        let c = v[i];
        if c == '\n' {
            let done = cur;
            r.push(done);
            cur = Vec::new();
        } else {
            cur.push(c);
        }
    }
    assert(v@.take(v.len() as int) == v@);
    if cur.len() > 0 {
        r.push(cur);
    }
    r
}

/// `s` without leading and trailing whitespace.
pub fn trim_exec(s: &Vec<char>) -> (r: Vec<char>)
    ensures
        r@ == trim(s@),
{
    let mut a: usize = 0;
    while a < s.len() && is_ws_exec(s[a])
        invariant
            a <= s.len(),
            skip_ws(s@, a as int) == skip_ws(s@, 0),
        decreases s.len() - a,
    {
        a += 1;
    }
    let mut b: usize = s.len();
    while b > 0 && is_ws_exec(s[b - 1])
        invariant
            b <= s.len(),
            back_ws(s@, b as int) == back_ws(s@, s@.len() as int),
        decreases b,
    {
        b -= 1;
    }
    let mut r: Vec<char> = Vec::new();
    if a < b {
        for i in a..b
            invariant
                r@ == s@.subrange(a as int, i as int),
                b <= s.len(),
        {
            r.push(s[i]);
            assert(s@.subrange(a as int, i + 1) == s@.subrange(a as int, i as int).push(s@[i as int]));
        }
    }
    assert(r@ =~= trim(s@));
    r
}

/// The whitespace-separated tokens of `s`.
pub fn tokens_exec(s: &Vec<char>) -> (r: Vec<Vec<char>>)
    ensures
        r@.len() == tokens(s@).len(),
        forall|i: int| 0 <= i < r@.len() ==> (#[trigger] r@[i])@ == tokens(s@)[i],
{
    let mut r: Vec<Vec<char>> = Vec::new();
    for i in 0..s.len()
        invariant
            r@.len() == tokens(s@.take(i as int)).len(),
            forall|p: int| 0 <= p < r@.len() ==> (#[trigger] r@[p])@ == tokens(s@.take(i as int))[p],
    {
        let ghost t = s@.take(i + 1);
        assert(t.drop_last() == s@.take(i as int));
        let c = s[i];
        if is_ws_exec(c) {
        } else if i >= 1 && !is_ws_exec(s[i - 1]) && r.len() > 0 {
            assert(t[t.len() - 2] == s@[i - 1]);
            let n = r.len();
            let mut last = r.pop().unwrap();
            last.push(c);
            r.push(last);
            assert(r@[n - 1]@ == tokens(t)[n - 1]);
        } else {
            if i >= 1 {
                assert(t[t.len() - 2] == s@[i - 1]);
            }
            let mut tok: Vec<char> = Vec::new();
            tok.push(c);
            r.push(tok);
        }
    }
    assert(s@.take(s.len() as int) == s@);
    r
}

/// The words joined by single spaces.
pub fn join_words_exec(ws: &Vec<Vec<char>>, from: usize) -> (r: Vec<char>)
    requires
        from <= ws.len(),
    ensures
        r@ == join_words(ws@.skip(from as int).map_values(|w: Vec<char>| w@)),
{
    let ghost all = ws@.skip(from as int).map_values(|w: Vec<char>| w@);
    let mut r: Vec<char> = Vec::new();
    for i in from..ws.len()
        invariant
            all == ws@.skip(from as int).map_values(|w: Vec<char>| w@),
            from <= ws.len(),
            r@ == join_words(all.take(i - from)),
    {
        let ghost prev = all.take(i - from);
        let ghost next = all.take(i + 1 - from);
        assert(next.drop_last() == prev);
        assert(next.last() == ws@[i as int]@);
        if i > from {
            r.push(' ');
        }
        let w = &ws[i];
        for j in 0..w.len()
            invariant
                r@ == (if i > from { join_words(prev) + seq![' '] } else { Seq::<char>::empty() }) + w@.take(j as int),
        {
            r.push(w[j]);
            assert(w@.take(j + 1) == w@.take(j as int).push(w@[j as int]));
        }
        assert(w@.take(w.len() as int) == w@);
        if i == from {
            assert(next.len() == 1);
        }
    }
    assert(all.take(ws.len() - from) == all);
    r
}

/// Whether `s` starts with `p`.
pub fn starts_with_exec(s: &Vec<char>, p: &Vec<char>) -> (b: bool)
    ensures
        b == starts_with(s@, p@),
{
    if s.len() < p.len() {
        return false;
    }
    let mut i: usize = 0;
    while i < p.len()
        invariant
            p.len() <= s.len(),
            i <= p.len(),
            forall|j: int| 0 <= j < i ==> s@[j] == p@[j],
        decreases p.len() - i,
    {
        if s[i] != p[i] {
            assert(s@.subrange(0, p.len() as int)[i as int] != p@[i as int]);
            return false;
        }
        i += 1;
    }
    assert(s@.subrange(0, p.len() as int) =~= p@);
    true
}

// ---------------------------------------------------------------------------
// Facts about lines, trimming and tokens

/// The lines, each followed by `\n`.
pub open spec fn join_lines(ls: Seq<Seq<char>>) -> Seq<char>
    decreases ls.len(),
{
    if ls.len() == 0 {
        Seq::empty()
    } else {
        join_lines(ls.drop_last()) + ls.last() + seq!['\n']
    }
}

pub open spec fn all_ws(s: Seq<char>) -> bool {
    forall|i: int| 0 <= i < s.len() ==> is_ws(#[trigger] s[i])
}

/// A non-empty run of characters none of which is whitespace.
pub open spec fn is_word(w: Seq<char>) -> bool {
    w.len() > 0 && forall|i: int| 0 <= i < w.len() ==> !is_ws(#[trigger] w[i])
}

pub proof fn lemma_join_lines_append(a: Seq<Seq<char>>, b: Seq<Seq<char>>)
    ensures
        join_lines(a + b) == join_lines(a) + join_lines(b),
    decreases b.len(),
{
    if b.len() == 0 {
        assert(a + b == a);
    } else {
        lemma_join_lines_append(a, b.drop_last());
        assert((a + b).drop_last() == a + b.drop_last());
        assert((a + b).last() == b.last());
    }
}

proof fn lemma_pieces_append(a: Seq<char>, t: Seq<char>)
    requires
        !t.contains('\n'),
    ensures
        pieces(a + t) == pieces(a).update(pieces(a).len() - 1, pieces(a).last() + t),
    decreases t.len(),
{
    lemma_pieces_nonempty(a);
    if t.len() == 0 {
        assert(a + t == a);
        assert(pieces(a).last() + t == pieces(a).last());
        assert(pieces(a).update(pieces(a).len() - 1, pieces(a).last()) == pieces(a));
    } else {
        let t0 = t.drop_last();
        assert(!t0.contains('\n')) by {
            if t0.contains('\n') {
                let i = choose|i: int| 0 <= i < t0.len() && t0[i] == '\n';
                assert(t[i] == '\n');
            }
        }
        lemma_pieces_append(a, t0);
        assert((a + t).drop_last() == a + t0);
        assert(t.last() != '\n') by {
            assert(t[t.len() - 1] == t.last());
        }
        assert((a + t).last() == t.last());
        let p = pieces(a);
        let p2 = pieces(a + t0);
        assert(p2.len() == p.len());
        assert(p2.last() == p.last() + t0);
        assert((p.last() + t0).push(t.last()) =~= p.last() + t);
        assert(p2.update(p2.len() - 1, p2.last().push(t.last())) =~= p.update(p.len() - 1, p.last() + t));
    }
}

/// Lines free of `\n`, each written out followed by `\n`, split back into
/// the same lines.
pub proof fn lemma_split_join_lines(ls: Seq<Seq<char>>)
    requires
        forall|i: int| 0 <= i < ls.len() ==> !(#[trigger] ls[i]).contains('\n'),
    ensures
        split_lines(join_lines(ls)) == ls,
{
    lemma_pieces_join_lines(ls);
    assert(ls.push(Seq::empty()).drop_last() == ls);
}

proof fn lemma_pieces_join_lines(ls: Seq<Seq<char>>)
    requires
        forall|i: int| 0 <= i < ls.len() ==> !(#[trigger] ls[i]).contains('\n'),
    ensures
        pieces(join_lines(ls)) == ls.push(Seq::empty()),
    decreases ls.len(),
{
    if ls.len() > 0 {
        let a = ls.drop_last();
        assert forall|i: int| 0 <= i < a.len() implies !(#[trigger] a[i]).contains('\n') by {
            assert(a[i] == ls[i]);
        }
        lemma_pieces_join_lines(a);
        let j = join_lines(a);
        lemma_pieces_append(j, ls.last());
        let k = j + ls.last();
        assert((k + seq!['\n']).drop_last() == k);
        assert(join_lines(ls) == k + seq!['\n']);
        assert(a.push(Seq::empty()).update(a.len() as int, Seq::<char>::empty() + ls.last()) == ls) by {
            assert(Seq::<char>::empty() + ls.last() == ls.last());
        }
    }
}

proof fn lemma_skip_ws_to(s: Seq<char>, i: int, k: int)
    requires
        0 <= i <= k <= s.len(),
        forall|m: int| i <= m < k ==> is_ws(#[trigger] s[m]),
        k == s.len() || !is_ws(s[k]),
    ensures
        skip_ws(s, i) == k,
    decreases k - i,
{
    if i < k {
        lemma_skip_ws_to(s, i + 1, k);
    }
}

proof fn lemma_back_ws_to(s: Seq<char>, j: int, k: int)
    requires
        0 <= k <= j <= s.len(),
        forall|m: int| k <= m < j ==> is_ws(#[trigger] s[m]),
        k == 0 || !is_ws(s[k - 1]),
    ensures
        back_ws(s, j) == k,
    decreases j - k,
{
    if k < j {
        lemma_back_ws_to(s, j - 1, k);
    }
}

/// Trimming takes off exactly the whitespace around a text that starts and
/// ends with something else.
pub proof fn lemma_trim_frame(w1: Seq<char>, t: Seq<char>, w2: Seq<char>)
    requires
        all_ws(w1),
        all_ws(w2),
        t.len() == 0 || (!is_ws(t[0]) && !is_ws(t.last())),
    ensures
        trim(w1 + t + w2) == t,
{
    let s = w1 + t + w2;
    if t.len() == 0 {
        assert forall|m: int| 0 <= m < s.len() implies is_ws(#[trigger] s[m]) by {
            if m < w1.len() {
                assert(s[m] == w1[m]);
            } else {
                assert(s[m] == w2[m - w1.len()]);
            }
        }
        lemma_skip_ws_to(s, 0, s.len() as int);
        lemma_back_ws_to(s, s.len() as int, 0);
    } else {
        let a = w1.len() as int;
        let b = a + t.len();
        assert(s[a] == t[0]);
        assert(s[b - 1] == t.last());
        assert forall|m: int| 0 <= m < a implies is_ws(#[trigger] s[m]) by {
            assert(s[m] == w1[m]);
        }
        assert forall|m: int| b <= m < s.len() implies is_ws(#[trigger] s[m]) by {
            assert(s[m] == w2[m - b]);
        }
        lemma_skip_ws_to(s, 0, a);
        lemma_back_ws_to(s, s.len() as int, b);
        assert(s.subrange(a, b) == t);
    }
}

/// A text ending in something other than whitespace has a token.
proof fn lemma_tokens_nonempty(s: Seq<char>)
    requires
        s.len() > 0,
        !is_ws(s.last()),
    ensures
        tokens(s).len() > 0,
{
}

/// Tokens do not run across whitespace: where the seam of two texts lies
/// next to whitespace, the tokens of the whole are those of the parts.
pub proof fn lemma_tokens_concat(a: Seq<char>, b: Seq<char>)
    requires
        a.len() == 0 || is_ws(a.last()) || b.len() == 0 || is_ws(b[0]),
    ensures
        tokens(a + b) == tokens(a) + tokens(b),
    decreases b.len(),
{
    if b.len() == 0 {
        assert(a + b == a);
        assert(tokens(a) + Seq::<Seq<char>>::empty() == tokens(a));
    } else if a.len() == 0 {
        assert(a + b == b);
        assert(Seq::<Seq<char>>::empty() + tokens(b) == tokens(b));
    } else {
        let b0 = b.drop_last();
        let s = a + b;
        if b0.len() > 0 {
            assert(b0[0] == b[0]);
        }
        lemma_tokens_concat(a, b0);
        assert(s.drop_last() == a + b0);
        assert(s.last() == b.last());
        let ta = tokens(a);
        let tb0 = tokens(b0);
        if is_ws(b.last()) {
        } else if b.len() == 1 {
            assert(s[s.len() - 2] == a.last());
            assert(is_ws(b[0]) || is_ws(a.last()));
            assert(tb0.len() == 0);
            assert(tokens(b) == seq![seq![b.last()]]);
            assert((ta + tb0).push(seq![b.last()]) == ta + seq![seq![b.last()]]);
        } else {
            assert(s[s.len() - 2] == b[b.len() - 2]);
            if !is_ws(b[b.len() - 2]) {
                lemma_tokens_nonempty(b0);
                assert(b0.last() == b[b.len() - 2]);
                let t = ta + tb0;
                assert(t.update(t.len() - 1, t.last().push(s.last()))
                    == ta + tb0.update(tb0.len() - 1, tb0.last().push(b.last())));
            } else {
                assert((ta + tb0).push(seq![b.last()]) == ta + tb0.push(seq![b.last()]));
            }
        }
    }
}

/// A word is its own single token.
pub proof fn lemma_tokens_word(w: Seq<char>)
    requires
        is_word(w),
    ensures
        tokens(w) == seq![w],
    decreases w.len(),
{
    assert(!is_ws(w[w.len() - 1]));
    if w.len() == 1 {
        assert(tokens(w.drop_last()) =~= Seq::<Seq<char>>::empty());
        assert(seq![w.last()] =~= w);
    } else {
        let w0 = w.drop_last();
        assert(is_word(w0)) by {
            assert forall|i: int| 0 <= i < w0.len() implies !is_ws(#[trigger] w0[i]) by {
                assert(w0[i] == w[i]);
            }
        }
        lemma_tokens_word(w0);
        assert(!is_ws(w[w.len() - 2]));
        assert(!is_ws(w[w.len() - 1]));
        assert(w0.push(w.last()) =~= w);
        assert(seq![w0].update(0, w0.push(w.last())) =~= seq![w]);
    }
}

/// Every token is a word.
pub proof fn lemma_tokens_are_words(s: Seq<char>)
    ensures
        forall|i: int| 0 <= i < tokens(s).len() ==> is_word(#[trigger] tokens(s)[i]),
    decreases s.len(),
{
    if s.len() > 0 {
        lemma_tokens_are_words(s.drop_last());
        let t = tokens(s.drop_last());
        if !is_ws(s.last()) {
            if s.len() >= 2 && !is_ws(s[s.len() - 2]) && t.len() > 0 {
                let u = t.last().push(s.last());
                assert(is_word(t[t.len() - 1]));
                assert(is_word(u)) by {
                    assert forall|i: int| 0 <= i < u.len() implies !is_ws(#[trigger] u[i]) by {
                        if i < u.len() - 1 {
                            assert(u[i] == t.last()[i]);
                        }
                    }
                }
            } else {
                assert(is_word(seq![s.last()])) by {
                    assert forall|i: int| 0 <= i < 1 implies !is_ws(#[trigger] seq![s.last()][i]) by {}
                }
            }
        }
    }
}

/// Words joined by single spaces start and end with a character of a word,
/// hold no `\n`, and split back into the same words.
pub proof fn lemma_join_words(ws: Seq<Seq<char>>)
    requires
        ws.len() > 0,
        forall|i: int| 0 <= i < ws.len() ==> is_word(#[trigger] ws[i]),
    ensures
        join_words(ws).len() > 0,
        join_words(ws)[0] == ws[0][0],
        join_words(ws).last() == ws.last().last(),
        !join_words(ws).contains('\n'),
        tokens(join_words(ws)) == ws,
    decreases ws.len(),
{
    let j = join_words(ws);
    if ws.len() == 1 {
        lemma_tokens_word(ws[0]);
        assert(!ws[0].contains('\n')) by {
            if ws[0].contains('\n') {
                let i = choose|i: int| 0 <= i < ws[0].len() && ws[0][i] == '\n';
                assert(!is_ws(ws[0][i]));
            }
        }
    } else {
        let w0 = ws.drop_last();
        assert forall|i: int| 0 <= i < w0.len() implies is_word(#[trigger] w0[i]) by {
            assert(w0[i] == ws[i]);
        }
        lemma_join_words(w0);
        let p = join_words(w0);
        let l = ws.last();
        assert(is_word(ws[ws.len() - 1]));
        assert(j == p + seq![' '] + l);
        assert(j[0] == p[0]);
        assert(j.last() == l.last());
        assert(!j.contains('\n')) by {
            if j.contains('\n') {
                let i = choose|i: int| 0 <= i < j.len() && j[i] == '\n';
                if i < p.len() {
                    assert(p[i] == j[i]);
                } else if i > p.len() {
                    assert(j[i] == l[i - p.len() - 1]);
                    assert(!is_ws(l[i - p.len() - 1]));
                }
            }
        }
        lemma_tokens_concat(p + seq![' '], l);
        lemma_tokens_concat(p, seq![' ']);
        lemma_tokens_word(l);
        assert(tokens(seq![' ']) == Seq::<Seq<char>>::empty()) by {
            let sp = seq![' '];
            assert(sp.drop_last() =~= Seq::<char>::empty());
            assert(tokens(sp.drop_last()) =~= Seq::<Seq<char>>::empty());
            assert(is_ws(sp.last()));
        }
        assert(w0 + Seq::<Seq<char>>::empty() + seq![l] == ws);
    }
}

/// The number a text of decimal digits stands for.
pub open spec fn decimal_value(s: Seq<char>) -> int
    decreases s.len(),
{
    if s.len() == 0 {
        0
    } else {
        decimal_value(s.drop_last()) * 10 + (s.last() as int - 48)
    }
}

/// `decimal(n)` writes `n` in base 10 with no leading zero: only digits, and
/// they stand for `n`.
pub proof fn lemma_decimal(n: int)
    requires
        n >= 0,
    ensures
        decimal(n).len() > 0,
        forall|i: int| 0 <= i < decimal(n).len() ==> '0' <= #[trigger] decimal(n)[i] <= '9',
        decimal_value(decimal(n)) == n,
        decimal(n).len() > 1 ==> decimal(n)[0] != '0',
    decreases n,
{
    if n >= 10 {
        lemma_decimal(n / 10);
        let p = decimal(n / 10);
        let d = ((48 + n % 10) as u8) as char;
        assert(decimal(n) == p + seq![d]);
        assert((decimal(n)).drop_last() == p);
        assert(decimal(n)[0] == p[0]);
        assert forall|i: int| 0 <= i < decimal(n).len() implies '0' <= #[trigger] decimal(n)[i] <= '9' by {
            if i < p.len() {
                assert(decimal(n)[i] == p[i]);
            }
        }
        assert(n / 10 * 10 + n % 10 == n);
        assert(0 <= n % 10 < 10);
        assert(d as int == 48 + n % 10);
        assert(decimal(n).last() == d);
        assert(decimal_value(decimal(n)) == decimal_value(p) * 10 + (d as int - 48));
        if p.len() == 1 {
            assert(n / 10 >= 1);
            assert(decimal_value(p) == n / 10);
            assert(p[0] != '0') by {
                if p[0] == '0' {
                    assert(p.drop_last().len() == 0);
                    assert(decimal_value(p) == decimal_value(p.drop_last()) * 10 + (p.last() as int - 48));
                }
            }
        }
    } else {
        let d = ((48 + n) as u8) as char;
        assert(d as int == 48 + n);
        assert(decimal(n).drop_last().len() == 0);
        assert(decimal_value(decimal(n).drop_last()) == 0);
        assert(decimal(n).last() == d);
    }
}

} // verus!
