//! What holds of every tokenized text: when tokenizing succeeds, what the
//! tokens say of the text, and what whitespace does to them.

use crate::lexer::{
    decimal_value, digits_end, followed_by, invalid_at, is_digit, is_space, is_valid_byte,
    lemma_digits_end, lemma_digits_end_is, lemma_skip_spaces, lex_from, literal_value, number_at,
    span, symbol_kind, tokens_of,
};
use crate::text::{decimal_text, digit_char};
use crate::token::{LexError, LexErrorKind, Token, TokenKind};
use vstd::prelude::*;
use vstd::string::{is_ascii_spec_bytes, StringSliceAdditionalSpecFns};

verus! {

/// Every byte of `s` may occur in a source text.
pub open spec fn all_valid(s: Seq<u8>) -> bool {
    forall|i: int| 0 <= i < s.len() ==> is_valid_byte(#[trigger] s[i])
}

/// The place of the first byte from `pos` on that may not occur in a source
/// text, or the length of `s` if there is none.
pub open spec fn first_invalid(s: Seq<u8>, pos: int) -> int
    decreases s.len() - pos,
{
    if 0 <= pos < s.len() && is_valid_byte(s[pos]) {
        first_invalid(s, pos + 1)
    } else {
        pos
    }
}

/// `first_invalid` is the least place from `pos` on with an invalid byte.
pub proof fn lemma_first_invalid(s: Seq<u8>, pos: int)
    requires
        0 <= pos <= s.len(),
    ensures
        pos <= first_invalid(s, pos) <= s.len(),
        forall|i: int| pos <= i < first_invalid(s, pos) ==> is_valid_byte(#[trigger] s[i]),
        first_invalid(s, pos) < s.len() ==> !is_valid_byte(s[first_invalid(s, pos)]),
    decreases s.len() - pos,
{
    if pos < s.len() && is_valid_byte(s[pos]) {
        lemma_first_invalid(s, pos + 1);
    }
}

/// Over valid bytes the first invalid one is the same from wherever one looks.
proof fn lemma_first_invalid_skips(s: Seq<u8>, pos: int, end: int)
    requires
        0 <= pos <= end <= s.len(),
        forall|i: int| pos <= i < end ==> is_valid_byte(#[trigger] s[i]),
    ensures
        first_invalid(s, pos) == first_invalid(s, end),
    decreases end - pos,
{
    if pos < end {
        lemma_first_invalid_skips(s, pos + 1, end);
    }
}

/// Tokenizing from `pos` fails exactly when an invalid byte follows, and then
/// with the error for the first one.
pub proof fn lemma_lex_from_total(s: Seq<u8>, pos: int)
    requires
        0 <= pos <= s.len(),
    ensures
        lex_from(s, pos) is Ok <==> first_invalid(s, pos) == s.len(),
        lex_from(s, pos) is Err ==> lex_from(s, pos) == Err::<Seq<Token>, LexError>(
            invalid_at(s, first_invalid(s, pos)),
        ),
    decreases s.len() - pos,
{
    lemma_first_invalid(s, pos);
    if pos >= s.len() {
    } else if is_space(s[pos]) {
        lemma_lex_from_total(s, pos + 1);
    } else if is_digit(s[pos]) {
        let end = digits_end(s, pos);
        lemma_digits_end(s, pos);
        lemma_first_invalid_skips(s, pos, end);
        lemma_lex_from_total(s, end);
    } else if symbol_kind(s[pos]) is Some {
        lemma_lex_from_total(s, pos + 1);
    }
}

/// Tokenizing is total over the source alphabet: it succeeds exactly on the
/// texts made of digits, the six symbols and whitespace alone, and on every
/// other text it fails with the error for the first byte that is none of
/// these.
pub proof fn theorem_tokens_of_total(s: Seq<u8>)
    ensures
        tokens_of(s) is Ok <==> all_valid(s),
        !all_valid(s) ==> {
            let at = first_invalid(s, 0);
            &&& 0 <= at < s.len()
            &&& !is_valid_byte(s[at])
            &&& forall|i: int| 0 <= i < at ==> is_valid_byte(#[trigger] s[i])
            &&& tokens_of(s) == Err::<Seq<Token>, LexError>(invalid_at(s, at))
        },
{
    lemma_first_invalid(s, 0);
    lemma_lex_from_total(s, 0);
}

/// `text` spells a token of kind `kind`: the one byte of a symbol, or the
/// digits of a number with that value.
pub open spec fn spells(text: Seq<u8>, kind: TokenKind) -> bool {
    match kind {
        TokenKind::Number(n) => {
            &&& text.len() > 0
            &&& forall|i: int| 0 <= i < text.len() ==> is_digit(#[trigger] text[i])
            &&& n == literal_value(text)
        },
        _ => text.len() == 1 && symbol_kind(text[0]) == Some(kind),
    }
}

/// The text that a token's location cuts out of `s`.
pub open spec fn text_of(s: Seq<u8>, t: Token) -> Seq<u8> {
    s.subrange(t.loc.0 as int, t.loc.1 as int)
}

/// The token `t` lies in `s` at or behind `pos`, its text spells it, and if
/// it is a number no digit follows it.
pub open spec fn placed(s: Seq<u8>, pos: int, t: Token) -> bool {
    &&& pos <= t.loc.0 < t.loc.1 <= s.len()
    &&& spells(text_of(s, t), t.value)
    &&& t.value is Number && t.loc.1 < s.len() ==> !is_digit(s[t.loc.1 as int])
}

/// Each of the tokens is placed in `s` at or behind `pos`, and each ends
/// before the next one starts.
pub open spec fn well_placed(s: Seq<u8>, pos: int, ts: Seq<Token>) -> bool {
    &&& forall|k: int| 0 <= k < ts.len() ==> placed(s, pos, #[trigger] ts[k])
    &&& forall|j: int, k: int|
        0 <= j < k < ts.len() ==> (#[trigger] ts[j]).loc.1 <= (#[trigger] ts[k]).loc.0
}

/// The bytes of `s` from `pos` on that are no whitespace.
pub open spec fn without_spaces(s: Seq<u8>, pos: int) -> Seq<u8>
    decreases s.len() - pos,
{
    if pos < 0 || pos >= s.len() {
        Seq::empty()
    } else if is_space(s[pos]) {
        without_spaces(s, pos + 1)
    } else {
        seq![s[pos]] + without_spaces(s, pos + 1)
    }
}

/// The texts of the tokens, one after the other.
pub open spec fn spans_text(s: Seq<u8>, ts: Seq<Token>) -> Seq<u8>
    decreases ts.len(),
{
    if ts.len() == 0 {
        Seq::empty()
    } else {
        text_of(s, ts[0]) + spans_text(s, ts.skip(1))
    }
}

proof fn lemma_lex_from_well_placed(s: Seq<u8>, pos: int)
    requires
        0 <= pos <= s.len() <= usize::MAX,
    ensures
        lex_from(s, pos) is Ok ==> well_placed(s, pos, lex_from(s, pos)->Ok_0),
    decreases s.len() - pos,
{
    if pos >= s.len() {
    } else if is_space(s[pos]) {
        lemma_lex_from_well_placed(s, pos + 1);
    } else {
        lemma_digits_end(s, pos);
        let end = if is_digit(s[pos]) {
            digits_end(s, pos)
        } else {
            pos + 1
        };
        lemma_lex_from_well_placed(s, end);
        if lex_from(s, pos) is Ok {
            let ts = lex_from(s, pos)->Ok_0;
            let rest = lex_from(s, end)->Ok_0;
            assert(ts =~= seq![ts[0]] + rest);
            assert(ts[0].loc.0 == pos && ts[0].loc.1 == end);
            assert(placed(s, pos, ts[0]));
            assert forall|k: int| 0 <= k < ts.len() implies placed(s, pos, #[trigger] ts[k]) by {
                if k > 0 {
                    assert(ts[k] == rest[k - 1]);
                    assert(placed(s, end, rest[k - 1]));
                }
            }
            assert forall|j: int, k: int| 0 <= j < k < ts.len() implies (#[trigger] ts[j]).loc.1 <= (
            #[trigger] ts[k]).loc.0 by {
                assert(ts[k] == rest[k - 1]);
                assert(placed(s, end, rest[k - 1]));
                if j > 0 {
                    assert(ts[j] == rest[j - 1]);
                }
            }
        }
    }
}

/// Over bytes that are no whitespace, nothing is left out.
proof fn lemma_without_spaces_run(s: Seq<u8>, pos: int, end: int)
    requires
        0 <= pos <= end <= s.len(),
        forall|i: int| pos <= i < end ==> !is_space(#[trigger] s[i]),
    ensures
        without_spaces(s, pos) == s.subrange(pos, end) + without_spaces(s, end),
    decreases end - pos,
{
    if pos < end {
        lemma_without_spaces_run(s, pos + 1, end);
        assert(s.subrange(pos, end) =~= seq![s[pos]] + s.subrange(pos + 1, end));
        assert(seq![s[pos]] + (s.subrange(pos + 1, end) + without_spaces(s, end)) =~= s.subrange(
            pos,
            end,
        ) + without_spaces(s, end));
    } else {
        assert(s.subrange(pos, end) + without_spaces(s, end) =~= without_spaces(s, end));
    }
}

proof fn lemma_lex_from_covers(s: Seq<u8>, pos: int)
    requires
        0 <= pos <= s.len() <= usize::MAX,
    ensures
        lex_from(s, pos) is Ok ==> spans_text(s, lex_from(s, pos)->Ok_0) == without_spaces(s, pos),
    decreases s.len() - pos,
{
    if pos >= s.len() {
    } else if is_space(s[pos]) {
        lemma_lex_from_covers(s, pos + 1);
    } else {
        lemma_digits_end(s, pos);
        let end = if is_digit(s[pos]) {
            digits_end(s, pos)
        } else {
            pos + 1
        };
        lemma_lex_from_covers(s, end);
        if lex_from(s, pos) is Ok {
            let ts = lex_from(s, pos)->Ok_0;
            let rest = lex_from(s, end)->Ok_0;
            assert(ts =~= seq![ts[0]] + rest);
            assert(ts.skip(1) =~= rest);
            assert(text_of(s, ts[0]) == s.subrange(pos, end));
            lemma_without_spaces_run(s, pos, end);
        }
    }
}

/// The tokens of a text say what the text holds: each token lies where its
/// location says, spelled by the bytes there; the tokens stand in the order of
/// the text and do not overlap; a number is never cut short; and the texts of
/// all tokens, put together, are the text without its whitespace.
pub proof fn theorem_tokens_spell_the_text(s: Seq<u8>)
    requires
        s.len() <= usize::MAX,
        tokens_of(s) is Ok,
    ensures
        well_placed(s, 0, tokens_of(s)->Ok_0),
        spans_text(s, tokens_of(s)->Ok_0) == without_spaces(s, 0),
{
    lemma_lex_from_well_placed(s, 0);
    lemma_lex_from_covers(s, 0);
}

/// The kinds of the tokens, in order, without their locations.
pub open spec fn token_kinds(ts: Seq<Token>) -> Seq<TokenKind> {
    Seq::new(ts.len(), |i: int| ts[i].value)
}

/// A tokenizer's result without the locations: the kinds of the tokens, or
/// the kind of the error.
pub open spec fn kinds_of(r: Result<Seq<Token>, LexError>) -> Result<
    Seq<TokenKind>,
    LexErrorKind,
> {
    match r {
        Ok(ts) => Ok(token_kinds(ts)),
        Err(e) => Err(e.value),
    }
}

proof fn lemma_kinds_followed_by(
    t1: Token,
    r1: Result<Seq<Token>, LexError>,
    t2: Token,
    r2: Result<Seq<Token>, LexError>,
)
    requires
        t1.value == t2.value,
        kinds_of(r1) == kinds_of(r2),
    ensures
        kinds_of(followed_by(seq![t1], r1)) == kinds_of(followed_by(seq![t2], r2)),
{
    if r1 is Ok {
        let ts1 = r1->Ok_0;
        let ts2 = r2->Ok_0;
        assert(token_kinds(seq![t1] + ts1) =~= seq![t1.value] + token_kinds(ts1));
        assert(token_kinds(seq![t2] + ts2) =~= seq![t2.value] + token_kinds(ts2));
    }
}

/// The kinds of the tokens from a place on depend on nothing but the bytes
/// from that place on.
proof fn lemma_kinds_of_suffix(s1: Seq<u8>, i: int, s2: Seq<u8>, j: int)
    requires
        0 <= i <= s1.len(),
        0 <= j <= s2.len(),
        s1.skip(i) == s2.skip(j),
    ensures
        kinds_of(lex_from(s1, i)) == kinds_of(lex_from(s2, j)),
    decreases s1.len() - i,
{
    let tail = s1.skip(i);
    assert(tail.len() == s1.len() - i && tail.len() == s2.len() - j);
    if i >= s1.len() {
        assert(token_kinds(Seq::<Token>::empty()) =~= Seq::<TokenKind>::empty());
    } else {
        assert(s1[i] == tail[0] && s2[j] == tail[0]);
        if is_digit(s1[i]) {
            let e1 = digits_end(s1, i);
            lemma_digits_end(s1, i);
            let e2 = j + (e1 - i);
            assert forall|k: int| j <= k < e2 implies is_digit(#[trigger] s2[k]) by {
                assert(s2[k] == tail[k - j]);
                assert(s1[i + (k - j)] == tail[k - j]);
            }
            if e2 < s2.len() {
                assert(s2[e2] == tail[e1 - i]);
                assert(s1[e1] == tail[e1 - i]);
            }
            lemma_digits_end_is(s2, j, e2);
            assert(s1.subrange(i, e1) =~= tail.subrange(0, e1 - i));
            assert(s2.subrange(j, e2) =~= tail.subrange(0, e1 - i));
            assert(s1.skip(e1) =~= tail.skip(e1 - i));
            assert(s2.skip(e2) =~= tail.skip(e1 - i));
            lemma_kinds_of_suffix(s1, e1, s2, e2);
            lemma_kinds_followed_by(
                number_at(s1, i),
                lex_from(s1, e1),
                number_at(s2, j),
                lex_from(s2, e2),
            );
        } else if is_space(s1[i]) || symbol_kind(s1[i]) is Some {
            assert(s1.skip(i + 1) =~= tail.skip(1));
            assert(s2.skip(j + 1) =~= tail.skip(1));
            lemma_kinds_of_suffix(s1, i + 1, s2, j + 1);
            if !is_space(s1[i]) {
                let kind = symbol_kind(s1[i])->Some_0;
                lemma_kinds_followed_by(
                    Token { value: kind, loc: span(i, i + 1) },
                    lex_from(s1, i + 1),
                    Token { value: kind, loc: span(j, j + 1) },
                    lex_from(s2, j + 1),
                );
            }
        }
    }
}

/// `ws` is whitespace, and between `a` and `b` no number is cut in two.
pub open spec fn between_tokens(a: Seq<u8>, ws: Seq<u8>, b: Seq<u8>) -> bool {
    &&& forall|i: int| 0 <= i < ws.len() ==> is_space(#[trigger] ws[i])
    &&& !(a.len() > 0 && b.len() > 0 && is_digit(a.last()) && is_digit(b[0]))
}

proof fn lemma_kinds_with_spaces(a: Seq<u8>, ws: Seq<u8>, b: Seq<u8>, i: int)
    requires
        between_tokens(a, ws, b),
        ws.len() > 0,
        0 <= i <= a.len(),
    ensures
        kinds_of(lex_from(a + ws + b, i)) == kinds_of(lex_from(a + b, i)),
    decreases a.len() - i,
{
    let x = a + ws + b;
    let y = a + b;
    let n = a.len() as int;
    if i == n {
        assert forall|k: int| n <= k < n + ws.len() implies is_space(#[trigger] x[k]) by {
            assert(x[k] == ws[k - n]);
        }
        lemma_skip_spaces(x, n, n + ws.len());
        assert(x.skip(n + ws.len()) =~= b);
        assert(y.skip(n) =~= b);
        lemma_kinds_of_suffix(x, n + ws.len(), y, n);
    } else {
        assert(x[i] == a[i] && y[i] == a[i]);
        if is_space(a[i]) {
            lemma_kinds_with_spaces(a, ws, b, i + 1);
        } else if is_digit(a[i]) {
            let e = digits_end(y, i);
            lemma_digits_end(y, i);
            let end = if e < n {
                e
            } else {
                n
            };
            assert forall|k: int| i <= k < end implies is_digit(#[trigger] x[k]) by {
                assert(x[k] == a[k] && y[k] == a[k]);
            }
            if e < n {
                assert(x[e] == a[e] && y[e] == a[e]);
            } else {
                assert(y[n - 1] == a[n - 1]);
                assert(is_digit(a.last()));
                assert(x[n] == ws[0]);
                if n < y.len() {
                    assert(y[n] == b[0]);
                }
                lemma_digits_end_is(y, i, n);
            }
            lemma_digits_end_is(x, i, end);
            assert(x.subrange(i, end) =~= a.subrange(i, end));
            assert(y.subrange(i, end) =~= a.subrange(i, end));
            lemma_kinds_with_spaces(a, ws, b, end);
            lemma_kinds_followed_by(
                number_at(x, i),
                lex_from(x, end),
                number_at(y, i),
                lex_from(y, end),
            );
        } else if symbol_kind(a[i]) is Some {
            lemma_kinds_with_spaces(a, ws, b, i + 1);
            let kind = symbol_kind(a[i])->Some_0;
            lemma_kinds_followed_by(
                Token { value: kind, loc: span(i, i + 1) },
                lex_from(x, i + 1),
                Token { value: kind, loc: span(i, i + 1) },
                lex_from(y, i + 1),
            );
        }
    }
}

/// Whitespace between tokens changes no token: with or without `ws` between
/// `a` and `b`, the text has the same tokens in the same order, or fails on
/// the same character. Only the locations may differ.
pub proof fn theorem_whitespace_keeps_tokens(a: Seq<u8>, ws: Seq<u8>, b: Seq<u8>)
    requires
        between_tokens(a, ws, b),
    ensures
        kinds_of(tokens_of(a + ws + b)) == kinds_of(tokens_of(a + b)),
{
    if ws.len() > 0 {
        lemma_kinds_with_spaces(a, ws, b, 0);
    } else {
        assert(a + ws + b =~= a + b);
    }
}

/// The bytes of a text of ASCII characters.
pub open spec fn ascii_bytes(text: Seq<char>) -> Seq<u8> {
    Seq::new(text.len(), |i: int| text[i] as u8)
}

/// A number written in base ten is a run of digits with that number as its
/// value.
proof fn lemma_decimal_text_is_read_back(n: nat)
    ensures
        decimal_text(n).len() > 0,
        forall|i: int| 0 <= i < decimal_text(n).len() ==> '0' <= #[trigger] decimal_text(n)[i] <= '9',
        forall|i: int|
            0 <= i < decimal_text(n).len() ==> is_digit(#[trigger] ascii_bytes(decimal_text(n))[i]),
        decimal_value(ascii_bytes(decimal_text(n))) == n,
    decreases n,
{
    let bytes = ascii_bytes(decimal_text(n));
    let last = digit_char(n % 10) as u8;
    assert(last == 0x30 + n % 10);
    if n < 10 {
        assert(bytes =~= seq![last]);
        assert(bytes.drop_last() =~= Seq::<u8>::empty());
        assert(decimal_value(bytes.drop_last()) == 0);
    } else {
        lemma_decimal_text_is_read_back(n / 10);
        let front = ascii_bytes(decimal_text(n / 10));
        assert(bytes =~= front.push(last));
        assert(bytes.drop_last() =~= front);
    }
}

/// What a token is written as is read back as that one token: tokenizing
/// the text of a kind gives a single token of that kind, which spans the
/// whole text.
pub proof fn theorem_token_text_is_read_back(kind: TokenKind)
    ensures
        tokens_of(ascii_bytes(kind.text())) == Ok::<Seq<Token>, LexError>(
            seq![Token { value: kind, loc: span(0, kind.text().len() as int) }],
        ),
{
    let bytes = ascii_bytes(kind.text());
    let len = bytes.len() as int;
    let token = Token { value: kind, loc: span(0, len) };
    assert(seq![token] + Seq::<Token>::empty() =~= seq![token]);
    match kind {
        TokenKind::Number(n) => {
            lemma_decimal_text_is_read_back(n as nat);
            lemma_digits_end_is(bytes, 0, len);
            assert(bytes.subrange(0, len) =~= bytes);
            assert(lex_from(bytes, len) == Ok::<Seq<Token>, LexError>(Seq::empty()));
        },
        _ => {
            assert(len == 1);
            assert(symbol_kind(bytes[0]) == Some(kind));
            assert(lex_from(bytes, 1) == Ok::<Seq<Token>, LexError>(Seq::empty()));
        },
    }
}

/// The same of a string that holds the text of a kind.
pub proof fn theorem_token_string_is_read_back(kind: TokenKind, text: &str)
    requires
        text@ == kind.text(),
    ensures
        tokens_of(text.spec_bytes()) == Ok::<Seq<Token>, LexError>(
            seq![Token { value: kind, loc: span(0, text@.len() as int) }],
        ),
{
    theorem_token_text_is_read_back(kind);
    if let TokenKind::Number(n) = kind {
        lemma_decimal_text_is_read_back(n as nat);
    }
    assert(vstd::utf8::is_ascii_chars(text@));
    is_ascii_spec_bytes(text);
    assert(text.spec_bytes() =~= ascii_bytes(text@));
}

} // verus!
