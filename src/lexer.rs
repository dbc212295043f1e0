use crate::token::{Token, TokenModel};
use vstd::prelude::*;

verus! {

/// Characters that Unicode classes as white space (the set `char::is_whitespace` uses).
pub open spec fn is_space(c: char) -> bool {
    let u = c as u32;
    (0x9 <= u && u <= 0xd) || u == 0x20 || u == 0x85 || u == 0xa0 || u == 0x1680 || (0x2000 <= u
        && u <= 0x200a) || u == 0x2028 || u == 0x2029 || u == 0x202f || u == 0x205f || u == 0x3000
}

/// Characters that end a bare word even without white space before them.
pub open spec fn is_delimiter(c: char) -> bool {
    c == ';' || c == '=' || c == '|' || c == '>' || c == '<' || c == '\n'
}

pub open spec fn ends_word(c: char) -> bool {
    is_space(c) || is_delimiter(c)
}

/// Index of the first character at or after `i` that ends a word, or the length.
pub open spec fn word_end(s: Seq<char>, i: int) -> int
    decreases s.len() - i,
{
    if i >= s.len() {
        s.len() as int
    } else if ends_word(s[i]) {
        i
    } else {
        word_end(s, i + 1)
    }
}

/// Index of the first `q` at or after `i`, or the length.
pub open spec fn quote_end(s: Seq<char>, i: int, q: char) -> int
    decreases s.len() - i,
{
    if i >= s.len() {
        s.len() as int
    } else if s[i] == q {
        i
    } else {
        quote_end(s, i + 1, q)
    }
}

pub open spec fn is_digit(c: char) -> bool {
    '0' <= c && c <= '9'
}

/// A non-empty run of decimal digits.
pub open spec fn is_numeral(w: Seq<char>) -> bool {
    w.len() > 0 && forall|k: int| 0 <= k < w.len() ==> is_digit(#[trigger] w[k])
}

/// The number that a run of decimal digits denotes.
pub open spec fn decimal_value(w: Seq<char>) -> nat
    decreases w.len(),
{
    if w.len() == 0 {
        0
    } else {
        decimal_value(w.drop_last()) * 10 + (w.last() as u32 - '0' as u32) as nat
    }
}

/// `c` is the lower-case ASCII letter `lower`, in either case.
pub open spec fn same_letter(c: char, lower: char) -> bool {
    c == lower || c as u32 + 32 == lower as u32
}

/// The splicing keyword, in any mix of upper and lower case.
pub open spec fn is_keyword(w: Seq<char>) -> bool {
    w.len() == 7 && same_letter(w[0], 'i') && same_letter(w[1], 'n') && same_letter(w[2], 'c')
        && same_letter(w[3], 'l') && same_letter(w[4], 'u') && same_letter(w[5], 'd')
        && same_letter(w[6], 'e')
}

/// The token that scanning `s` from index `i` yields, and the index after it.
///
/// White space other than a line end is skipped, and so is a comment, from `#`
/// up to and including the next line terminator. `&` directly followed by a
/// decimal numeral that fits a `usize` yields a descriptor; otherwise it yields
/// the bare ampersand and the text after it is scanned on its own. A quotation
/// runs to the matching quote or the end of input, and an empty one yields no
/// token.
pub open spec fn lex_at(s: Seq<char>, i: int) -> (TokenModel, int)
    decreases s.len() - i, 1int,
{
    if i < 0 || i >= s.len() {
        (TokenModel::EOF, s.len() as int)
    } else {
        let c = s[i];
        if c == '\n' {
            (TokenModel::EOL, i + 1)
        } else if is_space(c) {
            lex_at(s, i + 1)
        } else if c == '#' {
            skip_comment(s, i + 1)
        } else if c == '&' {
            let j = word_end(s, i + 1);
            let w = s.subrange(i + 1, j);
            if is_numeral(w) && decimal_value(w) <= usize::MAX {
                (TokenModel::Fd(decimal_value(w)), j)
            } else {
                (TokenModel::Ampersand, i + 1)
            }
        } else if c == '$' {
            let j = word_end(s, i + 1);
            if j > i + 1 {
                (TokenModel::Ident(s.subrange(i + 1, j)), j)
            } else {
                (TokenModel::Dollar, i + 1)
            }
        } else if c == '|' {
            (TokenModel::Pipe, i + 1)
        } else if c == '=' {
            (TokenModel::Assign, i + 1)
        } else if c == '>' {
            (TokenModel::Gt, i + 1)
        } else if c == '<' {
            (TokenModel::Lt, i + 1)
        } else if c == ';' {
            (TokenModel::Semicolon, i + 1)
        } else if c == '\'' || c == '"' {
            if i + 1 >= s.len() {
                (TokenModel::EOF, s.len() as int)
            } else if s[i + 1] == c {
                lex_at(s, i + 2)
            } else {
                let j = quote_end(s, i + 1, c);
                (TokenModel::String(s.subrange(i + 1, j)), if j < s.len() {
                    j + 1
                } else {
                    s.len() as int
                })
            }
        } else {
            let j = word_end(s, i);
            let w = s.subrange(i, j);
            if is_keyword(w) {
                (TokenModel::Include, j)
            } else {
                (TokenModel::String(w), j)
            }
        }
    }
}

/// Scanning inside a comment that has reached index `i`: the comment runs up to
/// and including the next line terminator, then scanning resumes.
pub open spec fn skip_comment(s: Seq<char>, i: int) -> (TokenModel, int)
    decreases s.len() - i, 0int,
{
    if i < 0 || i >= s.len() {
        (TokenModel::EOF, s.len() as int)
    } else if s[i] == '\r' || s[i] == '\n' {
        lex_at(s, i + 1)
    } else {
        skip_comment(s, i + 1)
    }
}

proof fn lemma_word_end(s: Seq<char>, i: int)
    requires
        0 <= i <= s.len(),
    ensures
        i <= word_end(s, i) <= s.len(),
        forall|k: int| i <= k < word_end(s, i) ==> !ends_word(#[trigger] s[k]),
        word_end(s, i) < s.len() ==> ends_word(s[word_end(s, i)]),
    decreases s.len() - i,
{
    if i < s.len() && !ends_word(s[i]) {
        lemma_word_end(s, i + 1);
    }
}

proof fn lemma_quote_end(s: Seq<char>, i: int, q: char)
    requires
        0 <= i <= s.len(),
    ensures
        i <= quote_end(s, i, q) <= s.len(),
        forall|k: int| i <= k < quote_end(s, i, q) ==> #[trigger] s[k] != q,
        quote_end(s, i, q) < s.len() ==> s[quote_end(s, i, q)] == q,
    decreases s.len() - i,
{
    if i < s.len() && s[i] != q {
        lemma_quote_end(s, i + 1, q);
    }
}

/// What one scanning step guarantees: it stays within the text, only the end of
/// input leaves the index unmoved, and no literal is empty.
pub proof fn lemma_lex_step(s: Seq<char>, i: int)
    requires
        0 <= i <= s.len(),
    ensures
        lex_at(s, i).0 is EOF ==> lex_at(s, i).1 == s.len(),
        !(lex_at(s, i).0 is EOF) ==> i < lex_at(s, i).1 <= s.len(),
        lex_at(s, i).0 is String ==> lex_at(s, i).0->String_0.len() > 0,
    decreases s.len() - i, 1int,
{
    if i < s.len() {
        let c = s[i];
        if c == '\n' {
        } else if is_space(c) {
            lemma_lex_step(s, i + 1);
        } else if c == '#' {
            lemma_skip_comment(s, i + 1);
        } else if c == '&' || c == '$' {
            lemma_word_end(s, i + 1);
        } else if c == '\'' || c == '"' {
            if i + 1 < s.len() {
                if s[i + 1] == c {
                    lemma_lex_step(s, i + 2);
                } else {
                    lemma_quote_end(s, i + 1, c);
                }
            }
        } else {
            lemma_word_end(s, i);
        }
    }
}

proof fn lemma_skip_comment(s: Seq<char>, i: int)
    requires
        0 <= i <= s.len(),
    ensures
        skip_comment(s, i).0 is EOF ==> skip_comment(s, i).1 == s.len(),
        !(skip_comment(s, i).0 is EOF) ==> i <= skip_comment(s, i).1 <= s.len(),
        skip_comment(s, i).0 is String ==> skip_comment(s, i).0->String_0.len() > 0,
    decreases s.len() - i, 0int,
{
    if i < s.len() {
        if s[i] == '\r' || s[i] == '\n' {
            lemma_lex_step(s, i + 1);
        } else {
            lemma_skip_comment(s, i + 1);
        }
    }
}


/// The tokens that scanning `s` from index `i` yields, up to and including the
/// first end-of-input token.
pub open spec fn stream(s: Seq<char>, i: int) -> Seq<TokenModel>
    decreases s.len() - i,
    via stream_decreases
{
    let (t, j) = lex_at(s, i);
    if t is EOF || i < 0 || i > s.len() {
        seq![t]
    } else {
        seq![t] + stream(s, j)
    }
}

#[via_fn]
proof fn stream_decreases(s: Seq<char>, i: int) {
    if 0 <= i <= s.len() {
        lemma_lex_step(s, i);
    }
}

proof fn lemma_decimal_prefix(w: Seq<char>, k: int)
    requires
        0 <= k < w.len(),
    ensures
        decimal_value(w.take(k + 1)) == decimal_value(w.take(k)) * 10 + (w[k] as u32 - '0' as u32) as nat,
{
    assert(w.take(k + 1).drop_last() =~= w.take(k));
}

proof fn lemma_decimal_monotone(w: Seq<char>, k: int)
    requires
        0 <= k <= w.len(),
    ensures
        decimal_value(w.take(k)) <= decimal_value(w),
    decreases w.len(),
{
    if k == w.len() {
        assert(w.take(k) =~= w);
    } else {
        let p = w.drop_last();
        lemma_decimal_monotone(p, k);
        assert(p.take(k) =~= w.take(k));
        assert(decimal_value(p) <= decimal_value(p) * 10) by (nonlinear_arith);
    }
}

/// `ts` is empty, or ends with its only end-of-input token; no literal in it
/// is empty.
pub open spec fn end_terminated(ts: Seq<TokenModel>) -> bool {
    &&& ts.len() > 0 ==> ts.last() is EOF
    &&& forall|k: int| 0 <= k < ts.len() - 1 ==> !(#[trigger] ts[k] is EOF)
    &&& forall|k: int| 0 <= k < ts.len() ==> (#[trigger] ts[k] is String ==> ts[k]->String_0.len() > 0)
}

/// The stream from any index is non-empty and end-terminated.
pub proof fn lemma_stream_shape(s: Seq<char>, i: int)
    requires
        0 <= i <= s.len(),
    ensures
        stream(s, i).len() > 0,
        end_terminated(stream(s, i)),
    decreases s.len() - i,
{
    lemma_lex_step(s, i);
    let (t, j) = lex_at(s, i);
    if !(t is EOF) {
        lemma_stream_shape(s, j);
        let r = stream(s, i);
        let rest = stream(s, j);
        assert(r == seq![t] + rest);
        assert forall|k: int| 0 <= k < r.len() - 1 implies !(#[trigger] r[k] is EOF) by {
            if k > 0 {
                assert(r[k] == rest[k - 1]);
            }
        }
        assert forall|k: int| 0 <= k < r.len() && #[trigger] r[k] is String implies r[k]->String_0.len() > 0 by {
            if k > 0 {
                assert(r[k] == rest[k - 1]);
            }
        }
    }
}

proof fn lemma_comment_run(s: Seq<char>, k: int, j: int)
    requires
        0 <= k <= j <= s.len(),
        forall|m: int| k <= m < j ==> #[trigger] s[m] != '\n' && s[m] != '\r',
    ensures
        skip_comment(s, k) == skip_comment(s, j),
    decreases j - k,
{
    if k < j {
        lemma_comment_run(s, k + 1, j);
    }
}

/// A comment never yields a token: from a `#` whose line ends at `j` (a line
/// terminator, or the end of input), scanning goes on after the terminator.
pub proof fn lemma_comment_skipped(s: Seq<char>, i: int, j: int)
    requires
        0 <= i < j <= s.len(),
        s[i] == '#',
        forall|m: int| i < m < j ==> #[trigger] s[m] != '\n' && s[m] != '\r',
        j < s.len() ==> s[j] == '\n' || s[j] == '\r',
    ensures
        lex_at(s, i) == if j < s.len() {
            lex_at(s, j + 1)
        } else {
            (TokenModel::EOF, s.len() as int)
        },
{
    lemma_comment_run(s, i + 1, j);
}

/// Quoted text yields one literal of exactly the chars between the quotes,
/// delimiters and white space included.
pub proof fn lemma_quoted_verbatim(s: Seq<char>, i: int, j: int)
    requires
        0 <= i,
        i + 1 < j < s.len(),
        s[i] == '\'' || s[i] == '"',
        s[j] == s[i],
        forall|m: int| i < m < j ==> #[trigger] s[m] != s[i],
    ensures
        lex_at(s, i) == (TokenModel::String(s.subrange(i + 1, j)), j + 1),
{
    lemma_quote_end(s, i + 1, s[i]);
    let e = quote_end(s, i + 1, s[i]);
    if e < j {
        assert(s[e] != s[i]);
    }
    if e > j {
        assert(s[j] != s[i]);
    }
}

/// `$` followed directly by a word yields one variable name: that word; `$`
/// followed by white space or the end of input yields the bare sign.
pub proof fn lemma_variable_name(s: Seq<char>, i: int)
    requires
        0 <= i < s.len(),
        s[i] == '$',
    ensures
        i + 1 < s.len() && !ends_word(s[i + 1]) ==> lex_at(s, i) == (
            TokenModel::Ident(s.subrange(i + 1, word_end(s, i + 1))),
            word_end(s, i + 1),
        ) && word_end(s, i + 1) > i + 1,
        i + 1 == s.len() || is_space(s[i + 1]) ==> lex_at(s, i) == (TokenModel::Dollar, i + 1),
{
    lemma_word_end(s, i + 1);
}

proof fn lemma_word_end_shift(s: Seq<char>, d: int, i: int)
    requires
        0 <= d <= s.len(),
        0 <= i <= s.len() - d,
    ensures
        word_end(s, d + i) == d + word_end(s.subrange(d, s.len() as int), i),
    decreases s.len() - d - i,
{
    let t = s.subrange(d, s.len() as int);
    if i < t.len() {
        assert(t[i] == s[d + i]);
        if !ends_word(t[i]) {
            lemma_word_end_shift(s, d, i + 1);
        }
    }
}

proof fn lemma_quote_end_shift(s: Seq<char>, d: int, i: int, q: char)
    requires
        0 <= d <= s.len(),
        0 <= i <= s.len() - d,
    ensures
        quote_end(s, d + i, q) == d + quote_end(s.subrange(d, s.len() as int), i, q),
    decreases s.len() - d - i,
{
    let t = s.subrange(d, s.len() as int);
    if i < t.len() {
        assert(t[i] == s[d + i]);
        if t[i] != q {
            lemma_quote_end_shift(s, d, i + 1, q);
        }
    }
}

/// Scanning looks only forward: from index `d + i` of `s` it yields what it
/// yields from index `i` of the text that starts at `d`, moved by `d`.
proof fn lemma_lex_shift(s: Seq<char>, d: int, i: int)
    requires
        0 <= d <= s.len(),
        0 <= i <= s.len() - d,
    ensures
        lex_at(s, d + i) == (
            lex_at(s.subrange(d, s.len() as int), i).0,
            lex_at(s.subrange(d, s.len() as int), i).1 + d,
        ),
    decreases s.len() - d - i, 1int,
{
    let t = s.subrange(d, s.len() as int);
    if i < t.len() {
        let c = t[i];
        assert(c == s[d + i]);
        if c == '\n' {
        } else if is_space(c) {
            lemma_lex_shift(s, d, i + 1);
        } else if c == '#' {
            lemma_comment_shift(s, d, i + 1);
        } else if c == '&' || c == '$' {
            lemma_word_end_shift(s, d, i + 1);
            let j = word_end(t, i + 1);
            lemma_word_end(t, i + 1);
            assert(s.subrange(d + i + 1, d + j) =~= t.subrange(i + 1, j));
        } else if c == '\'' || c == '"' {
            if i + 1 < t.len() {
                assert(t[i + 1] == s[d + i + 1]);
                if t[i + 1] == c {
                    lemma_lex_shift(s, d, i + 2);
                } else {
                    lemma_quote_end_shift(s, d, i + 1, c);
                    let j = quote_end(t, i + 1, c);
                    lemma_quote_end(t, i + 1, c);
                    assert(s.subrange(d + i + 1, d + j) =~= t.subrange(i + 1, j));
                }
            }
        } else {
            lemma_word_end_shift(s, d, i);
            let j = word_end(t, i);
            lemma_word_end(t, i);
            assert(s.subrange(d + i, d + j) =~= t.subrange(i, j));
        }
    }
}

proof fn lemma_comment_shift(s: Seq<char>, d: int, i: int)
    requires
        0 <= d <= s.len(),
        0 <= i <= s.len() - d,
    ensures
        skip_comment(s, d + i) == (
            skip_comment(s.subrange(d, s.len() as int), i).0,
            skip_comment(s.subrange(d, s.len() as int), i).1 + d,
        ),
    decreases s.len() - d - i, 0int,
{
    let t = s.subrange(d, s.len() as int);
    if i < t.len() {
        assert(t[i] == s[d + i]);
        if t[i] == '\r' || t[i] == '\n' {
            lemma_lex_shift(s, d, i + 1);
        } else {
            lemma_comment_shift(s, d, i + 1);
        }
    }
}

/// The stream from index `d + i` of `s` is the stream from index `i` of the
/// text that starts at `d`.
proof fn lemma_stream_shift(s: Seq<char>, d: int, i: int)
    requires
        0 <= d <= s.len(),
        0 <= i <= s.len() - d,
    ensures
        stream(s, d + i) == stream(s.subrange(d, s.len() as int), i),
    decreases s.len() - d - i,
{
    let t = s.subrange(d, s.len() as int);
    lemma_lex_shift(s, d, i);
    lemma_lex_step(t, i);
    let (tk, j) = lex_at(t, i);
    if !(tk is EOF) {
        lemma_stream_shift(s, d, j);
    }
}

/// A word that scans as one literal: no white space, delimiter, or char that
/// starts a comment, a quote, a descriptor or a variable, and not the splicing
/// keyword.
pub open spec fn plain_word(w: Seq<char>) -> bool {
    &&& w.len() > 0
    &&& !is_keyword(w)
    &&& forall|k: int|
        0 <= k < w.len() ==> !ends_word(#[trigger] w[k]) && w[k] != '#' && w[k] != '&' && w[k]
            != '$' && w[k] != '\'' && w[k] != '"'
}

/// The words joined by single spaces.
pub open spec fn joined(ws: Seq<Seq<char>>) -> Seq<char>
    decreases ws.len(),
{
    if ws.len() == 0 {
        Seq::empty()
    } else if ws.len() == 1 {
        ws[0]
    } else {
        ws[0] + seq![' '] + joined(ws.drop_first())
    }
}

/// Plain words joined by single spaces scan to exactly one literal per word,
/// in order, then the end of input; so joining the literals with single spaces
/// gives back the text.
pub proof fn lemma_words_round_trip(ws: Seq<Seq<char>>)
    requires
        forall|k: int| 0 <= k < ws.len() ==> plain_word(#[trigger] ws[k]),
    ensures
        stream(joined(ws), 0) == ws.map_values(|w: Seq<char>| TokenModel::String(w)).push(
            TokenModel::EOF,
        ),
    decreases ws.len(),
{
    let s = joined(ws);
    let lits = ws.map_values(|w: Seq<char>| TokenModel::String(w));
    if ws.len() == 0 {
        assert(lits.push(TokenModel::EOF) =~= seq![TokenModel::EOF]);
    } else {
        let w = ws[0];
        let n = w.len() as int;
        let rest = ws.drop_first();
        assert(plain_word(w));
        if ws.len() == 1 {
            assert(s == w);
        } else {
            assert(s == w + seq![' '] + joined(rest));
            assert(s[n] == ' ');
        }
        assert forall|k: int| 0 <= k < n implies !ends_word(#[trigger] s[k]) by {
            assert(s[k] == w[k]);
        }
        lemma_word_end(s, 0);
        let e = word_end(s, 0);
        if e < n {
            assert(!ends_word(s[e]));
        }
        if e > n {
            assert(ends_word(s[n]));
        }
        assert(s.subrange(0, n) =~= w);
        assert(s[0] == w[0]);
        assert(lex_at(s, 0) == (TokenModel::String(w), n));
        if ws.len() == 1 {
            assert(stream(s, n) == seq![TokenModel::EOF]);
            assert(lits.push(TokenModel::EOF) =~= seq![TokenModel::String(w), TokenModel::EOF]);
        } else {
            assert forall|k: int| 0 <= k < rest.len() implies plain_word(#[trigger] rest[k]) by {
                assert(rest[k] == ws[k + 1]);
            }
            lemma_words_round_trip(rest);
            assert(lex_at(s, n) == lex_at(s, n + 1));
            lemma_lex_step(s, n + 1);
            assert(stream(s, n) == stream(s, n + 1));
            lemma_stream_shift(s, n + 1, 0);
            assert(s.subrange(n + 1, s.len() as int) =~= joined(rest));
            let lr = rest.map_values(|w: Seq<char>| TokenModel::String(w));
            assert(lits.push(TokenModel::EOF) =~= seq![TokenModel::String(w)] + lr.push(
                TokenModel::EOF,
            ));
        }
    }
}

/// Relies on String::push: appends one char at the end.
#[verifier::external_body]
fn push_char(s: &mut String, c: char)
    ensures
        final(s)@ == old(s)@.push(c),
{
    s.push(c);
}

fn space(c: char) -> (r: bool)
    ensures
        r == is_space(c),
{
    let u = c as u32;
    (0x9 <= u && u <= 0xd) || u == 0x20 || u == 0x85 || u == 0xa0 || u == 0x1680 || (0x2000 <= u
        && u <= 0x200a) || u == 0x2028 || u == 0x2029 || u == 0x202f || u == 0x205f || u == 0x3000
}

fn word_ender(c: char) -> (r: bool)
    ensures
        r == ends_word(c),
{
    space(c) || c == ';' || c == '=' || c == '|' || c == '>' || c == '<' || c == '\n'
}

fn letter(c: char, lower: char) -> (r: bool)
    requires
        'a' <= lower && lower <= 'z',
    ensures
        r == same_letter(c, lower),
{
    c == lower || (c as u32) + 32 == lower as u32
}

/// Scanner over a fixed text, with a cursor, an exhaustion flag, and a slot for
/// one token of lookahead.
pub struct Lexer {
    source: Vec<char>,
    position: usize,
    is_eof: bool,
    peeked: Option<Token>,
}

impl Lexer {
    /// The text being scanned.
    pub closed spec fn text(&self) -> Seq<char> {
        self.source@
    }

    pub closed spec fn wf(&self) -> bool {
        &&& self.position <= self.source.len()
        &&& (self.peeked matches Some(t) && t@ is EOF) ==> self.is_eof
        &&& (self.peeked matches Some(t) && !(t@ is EOF)) ==> !self.is_eof
        &&& (self.peeked matches Some(t) && t@ is String) ==> self.peeked->0@->String_0.len() > 0
    }

    /// The lexer's remaining tokens end with the one end-of-input token, if any
    /// remain, and hold no empty literal.
    pub proof fn lemma_remaining_shape(&self)
        requires
            self.wf(),
        ensures
            end_terminated(self.remaining()),
    {
        lemma_stream_shape(self.source@, self.position as int);
        let r = self.remaining();
        if self.peeked is Some {
            if !self.is_eof {
                let st = stream(self.source@, self.position as int);
                assert(r =~= seq![self.peeked->0@] + st);
                assert forall|k: int| 0 <= k < r.len() - 1 implies !(#[trigger] r[k] is EOF) by {
                    if k > 0 {
                        assert(r[k] == st[k - 1]);
                    }
                }
                assert forall|k: int| 0 <= k < r.len() && #[trigger] r[k] is String implies r[k]->String_0.len() > 0 by {
                    if k > 0 {
                        assert(r[k] == st[k - 1]);
                    }
                }
            } else {
                assert(r =~= seq![self.peeked->0@]);
            }
        } else if self.is_eof {
            assert(r =~= Seq::<TokenModel>::empty());
        } else {
            assert(r =~= stream(self.source@, self.position as int));
        }
    }

    /// The tokens that the lexer will still hand out, in order.
    pub closed spec fn remaining(&self) -> Seq<TokenModel> {
        let head = match self.peeked {
            Some(t) => seq![t@],
            None => Seq::empty(),
        };
        if self.is_eof {
            head
        } else {
            head + stream(self.source@, self.position as int)
        }
    }

    /// A lexer over the chars of `source`, positioned at its start.
    pub fn new_from_str(source: &str) -> (r: Lexer)
        ensures
            r.wf(),
            r.text() == source@,
            r.remaining() == stream(source@, 0),
    {
        let n = source.unicode_len();
        let mut chars: Vec<char> = Vec::new();
        let mut i: usize = 0;
        while i < n
            invariant
                n == source@.len(),
                i <= n,
                chars@ == source@.subrange(0, i as int),
            decreases n - i,
        {
            chars.push(source.get_char(i));
            i += 1;
        }
        assert(chars@ == source@);
        Lexer { source: chars, position: 0, is_eof: false, peeked: None }
    }

    /// A lexer over the chars of `source`, positioned at its start.
    pub fn new(source: String) -> (r: Lexer)
        ensures
            r.wf(),
            r.text() == source@,
            r.remaining() == stream(source@, 0),
    {
        Lexer::new_from_str(source.as_str())
    }

    fn scan_word(&self, start: usize) -> (j: usize)
        requires
            start <= self.source.len(),
        ensures
            j == word_end(self.source@, start as int),
    {
        let mut j = start;
        while j < self.source.len() && !word_ender(self.source[j])
            invariant
                start <= j <= self.source.len(),
                word_end(self.source@, j as int) == word_end(self.source@, start as int),
            decreases self.source.len() - j,
        {
            j += 1;
        }
        j
    }

    fn scan_quote(&self, start: usize, q: char) -> (j: usize)
        requires
            start <= self.source.len(),
        ensures
            j == quote_end(self.source@, start as int, q),
    {
        let mut j = start;
        while j < self.source.len() && self.source[j] != q
            invariant
                start <= j <= self.source.len(),
                quote_end(self.source@, j as int, q) == quote_end(self.source@, start as int, q),
            decreases self.source.len() - j,
        {
            j += 1;
        }
        j
    }

    /// The number that the chars in `[from, to)` denote, if they are all decimal
    /// digits, there is at least one, and the number fits a `usize`.
    fn parse_decimal(&self, from: usize, to: usize) -> (r: Option<usize>)
        requires
            from <= to <= self.source.len(),
        ensures
            ({
                let w = self.source@.subrange(from as int, to as int);
                if is_numeral(w) && decimal_value(w) <= usize::MAX {
                    r == Some(decimal_value(w) as usize)
                } else {
                    r is None
                }
            }),
    {
        let ghost w = self.source@.subrange(from as int, to as int);
        if from == to {
            return None;
        }
        let mut acc: usize = 0;
        let mut k = from;
        assert(w.take(0) =~= Seq::<char>::empty());
        while k < to
            invariant
                from <= k <= to <= self.source.len(),
                w == self.source@.subrange(from as int, to as int),
                acc == decimal_value(w.take(k - from)),
                forall|m: int| 0 <= m < k - from ==> is_digit(#[trigger] w[m]),
            decreases to - k,
        {
            let c = self.source[k];
            proof {
                lemma_decimal_prefix(w, k - from);
            }
            if c < '0' || '9' < c {
                assert(!is_digit(w[k - from]));
                return None;
            }
            assert(is_digit(w[k - from]));
            let d = (c as u32 - '0' as u32) as usize;
            let next = match acc.checked_mul(10) {
                Some(m) => m.checked_add(d),
                None => None,
            };
            match next {
                Some(v) => {
                    acc = v;
                },
                None => {
                    proof {
                        lemma_decimal_monotone(w, k - from + 1);
                    }
                    return None;
                },
            }
            k += 1;
        }
        assert(w.take(to - from) =~= w);
        Some(acc)
    }

    /// Whether the chars in `[from, to)` spell the splicing keyword.
    fn keyword_at(&self, from: usize, to: usize) -> (r: bool)
        requires
            from <= to <= self.source.len(),
        ensures
            r == is_keyword(self.source@.subrange(from as int, to as int)),
    {
        to - from == 7 && letter(self.source[from], 'i') && letter(self.source[from + 1], 'n')
            && letter(self.source[from + 2], 'c') && letter(self.source[from + 3], 'l')
            && letter(self.source[from + 4], 'u') && letter(self.source[from + 5], 'd')
            && letter(self.source[from + 6], 'e')
    }

    /// Hands out the next token: the one that `peek` cached, if any, or else a
    /// freshly scanned one. Once the end-of-input token has been handed out,
    /// every further call returns `None`.
    pub fn next(&mut self) -> (r: Option<Token>)
        requires
            old(self).wf(),
        ensures
            final(self).wf(),
            final(self).text() == old(self).text(),
            old(self).remaining().len() == 0 ==> r is None && final(self).remaining().len() == 0,
            old(self).remaining().len() > 0 ==> (r matches Some(t) && t@ == old(self).remaining()[0]
                && final(self).remaining() == old(self).remaining().drop_first()),
            r matches Some(t) && t@ is EOF ==> final(self).remaining().len() == 0,
    {
        proof {
            self.lemma_remaining_shape();
        }
        let ghost r0 = self.remaining();
        let cached = self.peeked.take();
        match cached {
            Some(t) => {
                assert(self.remaining() =~= r0.drop_first());
                return Some(t);
            },
            None => {},
        }
        if self.is_eof {
            return None;
        }
        let ghost s = self.source@;
        let ghost p = self.position as int;
        proof {
            lemma_lex_step(s, p);
        }
        let t = self.read();
        if t.is_eof() {
            self.is_eof = true;
        }
        assert(r0 == stream(s, p));
        assert(self.remaining() =~= r0.drop_first());
        Some(t)
    }

    /// The next token, without handing it out: the following `next` returns it.
    pub fn peek(&mut self) -> (r: Option<Token>)
        requires
            old(self).wf(),
        ensures
            final(self).wf(),
            final(self).text() == old(self).text(),
            final(self).remaining() == old(self).remaining(),
            old(self).remaining().len() == 0 ==> r is None,
            old(self).remaining().len() > 0 ==> (r matches Some(t) && t@ == old(self).remaining()[0]),
    {
        let ghost r0 = self.remaining();
        if self.peeked.is_none() && !self.is_eof {
            let ghost s = self.source@;
            let ghost p = self.position as int;
            proof {
                lemma_lex_step(s, p);
            }
            let t = self.read();
            if t.is_eof() {
                self.is_eof = true;
            }
            self.peeked = Some(t);
            assert(self.remaining() =~= r0);
        }
        match &self.peeked {
            Some(t) => Some(t.duplicate()),
            None => None,
        }
    }

    /// Hands out all remaining tokens at once, up to and including the
    /// end-of-input token.
    pub fn tokenize(&mut self) -> (r: Vec<Token>)
        requires
            old(self).wf(),
        ensures
            final(self).wf(),
            final(self).text() == old(self).text(),
            r@.map_values(|t: Token| t@) == old(self).remaining(),
            final(self).remaining().len() == 0,
    {
        let mut tokens: Vec<Token> = Vec::new();
        loop
            invariant
                self.wf(),
                self.text() == old(self).text(),
                tokens@.map_values(|t: Token| t@) + self.remaining() == old(self).remaining(),
            ensures
                self.wf(),
                self.text() == old(self).text(),
                tokens@.map_values(|t: Token| t@) == old(self).remaining(),
                self.remaining().len() == 0,
            decreases self.remaining().len(),
        {
            let ghost before = tokens@.map_values(|t: Token| t@);
            let ghost rem = self.remaining();
            match self.next() {
                Some(t) => {
                    tokens.push(t);
                    assert(tokens@.map_values(|t: Token| t@) =~= before.push(t@));
                    assert(before.push(t@) + self.remaining() =~= before + rem);
                },
                None => {
                    assert(before + rem =~= before);
                    break;
                },
            }
        }
        tokens
    }

    /// Scans the next token from the cursor, and moves the cursor past it.
    fn read(&mut self) -> (t: Token)
        requires
            old(self).wf(),
        ensures
            final(self).source@ == old(self).source@,
            final(self).is_eof == old(self).is_eof,
            final(self).peeked == old(self).peeked,
            final(self).position <= final(self).source.len(),
            (t@, final(self).position as int) == lex_at(
                old(self).source@,
                old(self).position as int,
            ),
    {
        let ghost s = self.source@;
        let ghost goal = lex_at(s, self.position as int);
        let n = self.source.len();
        loop
            invariant
                self.source@ == s,
                s == old(self).source@,
                goal == lex_at(s, old(self).position as int),
                n == s.len(),
                self.position <= n,
                self.is_eof == old(self).is_eof,
                self.peeked == old(self).peeked,
                lex_at(s, self.position as int) == goal,
            decreases n - self.position,
        {
            let i = self.position;
            if i >= n {
                return Token::EOF;
            }
            let c = self.source[i];
            if c == '\n' {
                self.position = i + 1;
                return Token::EOL;
            }
            if space(c) {
                self.position = i + 1;
                continue ;
            }
            if c == '#' {
                let mut j = i + 1;
                while j < n && self.source[j] != '\r' && self.source[j] != '\n'
                    invariant
                        i < j <= n,
                        n == s.len(),
                        self.source@ == s,
                        skip_comment(s, j as int) == goal,
                    decreases n - j,
                {
                    j += 1;
                }
                if j >= n {
                    self.position = n;
                    return Token::EOF;
                }
                self.position = j + 1;
                continue ;
            }
            if c == '&' {
                let j = self.scan_word(i + 1);
                proof {
                    lemma_word_end(s, i + 1);
                }
                match self.parse_decimal(i + 1, j) {
                    Some(v) => {
                        self.position = j;
                        return Token::Fd(v);
                    },
                    None => {
                        self.position = i + 1;
                        return Token::Ampersand;
                    },
                }
            }
            if c == '$' {
                let j = self.scan_word(i + 1);
                proof {
                    lemma_word_end(s, i + 1);
                }
                if j > i + 1 {
                    let name = self.next_string(i + 1, j);
                    self.position = j;
                    return Token::Ident(name);
                }
                self.position = i + 1;
                return Token::Dollar;
            }
            if c == '|' || c == '=' || c == '>' || c == '<' || c == ';' {
                self.position = i + 1;
                return if c == '|' {
                    Token::Pipe
                } else if c == '=' {
                    Token::Assign
                } else if c == '>' {
                    Token::Gt
                } else if c == '<' {
                    Token::Lt
                } else {
                    Token::Semicolon
                };
            }
            if c == '\'' || c == '"' {
                if i + 1 >= n {
                    self.position = n;
                    return Token::EOF;
                }
                if self.source[i + 1] == c {
                    self.position = i + 2;
                    continue ;
                }
                let j = self.scan_quote(i + 1, c);
                proof {
                    lemma_quote_end(s, i + 1, c);
                }
                let text = self.next_string(i + 1, j);
                self.position = if j < n {
                    j + 1
                } else {
                    n
                };
                return Token::String(text);
            }
            let j = self.scan_word(i);
            proof {
                lemma_word_end(s, i as int);
            }
            if self.keyword_at(i, j) {
                self.position = j;
                return Token::Include;
            }
            let word = self.next_string(i, j);
            self.position = j;
            return Token::String(word);
        }
    }

    /// The chars in `[from, to)` as a string.
    fn next_string(&self, from: usize, to: usize) -> (r: String)
        requires
            from <= to <= self.source.len(),
        ensures
            r@ == self.source@.subrange(from as int, to as int),
    {
        let mut r = String::new();
        let mut k = from;
        while k < to
            invariant
                from <= k <= to <= self.source.len(),
                r@ == self.source@.subrange(from as int, k as int),
            decreases to - k,
        {
            push_char(&mut r, self.source[k]);
            k += 1;
            assert(r@ =~= self.source@.subrange(from as int, k as int));
        }
        r
    }
}

} // verus!
