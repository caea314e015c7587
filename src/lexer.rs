use vstd::prelude::*;
use vstd::string::StringSliceAdditionalSpecFns;

use crate::token::{Token, TokenType};

verus! {

pub const TAB_BYTE: u8 = 0x9;

pub open spec fn is_alpha(b: u8) -> bool {
    (0x41 <= b <= 0x5a) || (0x61 <= b <= 0x7a)
}

pub open spec fn is_digit(b: u8) -> bool {
    0x30 <= b <= 0x39
}

pub open spec fn is_ident_byte(b: u8) -> bool {
    is_alpha(b) || is_digit(b) || b == 0x5f
}

/// Skips spaces, tabs and newlines from byte `i`; each newline adds one to the line.
pub open spec fn skip_ws(src: Seq<u8>, i: int, line: int) -> (int, int)
    decreases src.len() - i,
{
    if 0 <= i < src.len() && (src[i] == 0x20 || src[i] == TAB_BYTE) {
        skip_ws(src, i + 1, line)
    } else if 0 <= i < src.len() && src[i] == 0x0a {
        skip_ws(src, i + 1, line + 1)
    } else {
        (i, line)
    }
}

/// Skips the rest of a comment from byte `i`, through its newline if it has one.
pub open spec fn comment_end(src: Seq<u8>, i: int, line: int) -> (int, int)
    decreases src.len() - i,
{
    if i < 0 || i >= src.len() {
        (i, line)
    } else if src[i] == 0x0a {
        (i + 1, line + 1)
    } else {
        comment_end(src, i + 1, line)
    }
}

/// Skips one comment (`#` to the end of the line) if one starts at byte `i`.
pub open spec fn skip_comment(src: Seq<u8>, i: int, line: int) -> (int, int) {
    if 0 <= i < src.len() && src[i] == 0x23 {
        comment_end(src, i + 1, line)
    } else {
        (i, line)
    }
}

/// The first byte from `i` on that cannot continue an identifier.
pub open spec fn ident_end(src: Seq<u8>, i: int) -> int
    decreases src.len() - i,
{
    if 0 <= i < src.len() && is_ident_byte(src[i]) {
        ident_end(src, i + 1)
    } else {
        i
    }
}

/// The first byte from `i` on that is not a digit.
pub open spec fn digits_end(src: Seq<u8>, i: int) -> int
    decreases src.len() - i,
{
    if 0 <= i < src.len() && is_digit(src[i]) {
        digits_end(src, i + 1)
    } else {
        i
    }
}

/// The first `"` from `i` on, or the length of the source if there is none.
pub open spec fn quote_end(src: Seq<u8>, i: int) -> int
    decreases src.len() - i,
{
    if i < 0 || i >= src.len() {
        src.len() as int
    } else if src[i] == 0x22 {
        i
    } else {
        quote_end(src, i + 1)
    }
}

/// Whether the bytes from `start` on begin with `kw`.
pub open spec fn keyword_at(src: Seq<u8>, start: int, kw: Seq<u8>) -> bool {
    0 <= start && start + kw.len() <= src.len() && src.subrange(start, start + kw.len()) == kw
}

/// The keywords of the language, with their token kinds.
pub open spec fn keywords() -> Seq<(Seq<u8>, TokenType)> {
    seq![
        (seq![0x76u8, 0x61, 0x72], TokenType::Var),
        (seq![0x61u8, 0x6e, 0x64], TokenType::And),
        (seq![0x69u8, 0x66], TokenType::If),
        (seq![0x65u8, 0x6c, 0x73, 0x65], TokenType::Else),
        (seq![0x4eu8, 0x75, 0x6c, 0x6c], TokenType::Null),
        (seq![0x6fu8, 0x72], TokenType::Or),
        (seq![0x70u8, 0x72, 0x69, 0x6e, 0x74], TokenType::Print),
        (seq![0x72u8, 0x65, 0x74, 0x75, 0x72, 0x6e], TokenType::Return),
        (seq![0x77u8, 0x68, 0x69, 0x6c, 0x65], TokenType::While),
        (seq![0x63u8, 0x6c, 0x61, 0x73, 0x73], TokenType::Class),
        (seq![0x73u8, 0x75, 0x70, 0x65, 0x72], TokenType::Super),
        (seq![0x66u8, 0x61, 0x6c, 0x73, 0x65], TokenType::False),
        (seq![0x66u8, 0x6f, 0x72], TokenType::For),
        (seq![0x66u8, 0x75, 0x6e], TokenType::Fun),
        (seq![0x74u8, 0x68, 0x69, 0x73], TokenType::This),
        (seq![0x74u8, 0x72, 0x75, 0x65], TokenType::True),
    ]
}

/// The first keyword of the list from entry `n` on that the bytes from `start` begin
/// with. No check is made that the keyword ends a word.
pub open spec fn keyword_from(src: Seq<u8>, start: int, n: int) -> Option<(TokenType, int)>
    decreases keywords().len() - n,
{
    if n < 0 || n >= keywords().len() {
        None
    } else if keyword_at(src, start, keywords()[n].0) {
        Some((keywords()[n].1, keywords()[n].0.len() as int))
    } else {
        keyword_from(src, start, n + 1)
    }
}

/// The kind of a one-byte token that has no two-byte form.
pub open spec fn single_kind(b: u8) -> TokenType {
    if b == 0x28 {
        TokenType::LeftParent
    } else if b == 0x29 {
        TokenType::RightParent
    } else if b == 0x7b {
        TokenType::LeftBrace
    } else if b == 0x7d {
        TokenType::RightBrace
    } else if b == 0x2b {
        TokenType::Plus
    } else if b == 0x2d {
        TokenType::Minus
    } else if b == 0x2a {
        TokenType::Star
    } else if b == 0x2f {
        TokenType::Slash
    } else if b == 0x2c {
        TokenType::Comma
    } else if b == 0x3b {
        TokenType::Semicolon
    } else {
        TokenType::Error
    }
}

/// For `!`, `=`, `>`, `<`: the kind alone and the kind followed by `=`.
pub open spec fn pair_kinds(b: u8) -> Option<(TokenType, TokenType)> {
    if b == 0x21 {
        Some((TokenType::Bang, TokenType::BangEqual))
    } else if b == 0x3d {
        Some((TokenType::Equal, TokenType::EqualEqual))
    } else if b == 0x3e {
        Some((TokenType::Greater, TokenType::GreaterEqual))
    } else if b == 0x3c {
        Some((TokenType::Less, TokenType::LessEqual))
    } else {
        None
    }
}

/// The token that starts at byte `s` (after whitespace and comments): its kind and the
/// byte where it ends.
pub open spec fn scan(src: Seq<u8>, s: int) -> (TokenType, int) {
    if s < 0 || s >= src.len() {
        (TokenType::EndOfFile, s)
    } else {
        let b = src[s];
        if is_alpha(b) {
            match keyword_from(src, s, 0) {
                Some((k, n)) => (k, s + n),
                None => {
                    let e = ident_end(src, s + 1);
                    if e >= src.len() {
                        (TokenType::Error, e)
                    } else {
                        (TokenType::Identifier, e)
                    }
                },
            }
        } else if is_digit(b) {
            let e = digits_end(src, s + 1);
            if e + 1 < src.len() && src[e] == 0x2e && is_digit(src[e + 1]) {
                (TokenType::Float, digits_end(src, e + 1))
            } else {
                (TokenType::Integer, e)
            }
        } else if b == 0x22 {
            let q = quote_end(src, s + 1);
            if q < src.len() {
                (TokenType::Text, q + 1)
            } else {
                (TokenType::Error, q)
            }
        } else if b == 0x2e {
            if s + 1 < src.len() && src[s + 1] == 0x2e {
                (TokenType::Error, s + 2)
            } else {
                (TokenType::Dot, s + 1)
            }
        } else {
            match pair_kinds(b) {
                Some((one, two)) => if s + 1 < src.len() && src[s + 1] == 0x3d {
                    (two, s + 2)
                } else {
                    (one, s + 1)
                },
                None => (single_kind(b), s + 1),
            }
        }
    }
}

/// The next token from byte `cur` at line `line`, with the byte and line after it.
pub open spec fn next_token_spec(src: Seq<u8>, cur: int, line: int) -> (Token, int, int) {
    let (i1, l1) = skip_ws(src, cur, line);
    let (i2, l2) = skip_comment(src, i1, l1);
    let (i3, l3) = skip_ws(src, i2, l2);
    let (k, e) = scan(src, i3);
    (Token { token_type: k, range: (i3 as u32, e as u32), line: l3 as u32 }, e, l3)
}

pub open spec fn is_last_kind(k: TokenType) -> bool {
    k == TokenType::EndOfFile || k == TokenType::Error
}

/// All tokens from byte `cur` on, through the first `EndOfFile` or `Error`.
pub open spec fn lex_from(src: Seq<u8>, cur: int, line: int) -> Seq<Token>
    decreases src.len() - cur,
{
    let (t, c2, l2) = next_token_spec(src, cur, line);
    if is_last_kind(t.token_type) || c2 <= cur || c2 > src.len() {
        seq![t]
    } else {
        seq![t] + lex_from(src, c2, l2)
    }
}

/// A token sequence as the lexer makes it: each range lies in the source and a string
/// spans at least its two quotes; exactly the last token is `EndOfFile` or `Error`.
pub open spec fn tokens_well_formed(ts: Seq<Token>, len: nat) -> bool {
    &&& ts.len() >= 1
    &&& is_last_kind(ts.last().token_type)
    &&& forall|k: int| 0 <= k < ts.len() - 1 ==> !is_last_kind(#[trigger] ts[k].token_type)
    &&& forall|k: int|
        0 <= k < ts.len() ==> {
            &&& (#[trigger] ts[k]).range.0 <= ts[k].range.1 <= len
            &&& ts[k].token_type == TokenType::Text ==> ts[k].range.0 + 2 <= ts[k].range.1
        }
}

proof fn lemma_skip_ws(src: Seq<u8>, i: int, line: int)
    requires
        0 <= i <= src.len(),
    ensures
        i <= skip_ws(src, i, line).0 <= src.len(),
        line <= skip_ws(src, i, line).1 <= line + (skip_ws(src, i, line).0 - i),
    decreases src.len() - i,
{
    if i < src.len() {
        lemma_skip_ws(src, i + 1, line);
        lemma_skip_ws(src, i + 1, line + 1);
    }
}

proof fn lemma_comment_end(src: Seq<u8>, i: int, line: int)
    requires
        0 <= i <= src.len(),
    ensures
        i <= comment_end(src, i, line).0 <= src.len(),
        line <= comment_end(src, i, line).1 <= line + (comment_end(src, i, line).0 - i),
    decreases src.len() - i,
{
    if i < src.len() {
        lemma_comment_end(src, i + 1, line);
    }
}

proof fn lemma_ends(src: Seq<u8>, i: int)
    requires
        0 <= i <= src.len(),
    ensures
        i <= ident_end(src, i) <= src.len(),
        i <= digits_end(src, i) <= src.len(),
        i <= quote_end(src, i) <= src.len(),
    decreases src.len() - i,
{
    if i < src.len() {
        lemma_ends(src, i + 1);
    }
}

proof fn lemma_keyword_from(src: Seq<u8>, s: int, n: int)
    requires
        0 <= s,
    ensures
        keyword_from(src, s, n) matches Some((k, m)) ==> s + m <= src.len() && m >= 2 && !is_last_kind(k)
            && k != TokenType::Text,
    decreases keywords().len() - n,
{
    if 0 <= n < keywords().len() && !keyword_at(src, s, keywords()[n].0) {
        lemma_keyword_from(src, s, n + 1);
    }
}

proof fn lemma_scan(src: Seq<u8>, s: int)
    requires
        0 <= s <= src.len(),
    ensures
        s <= scan(src, s).1 <= src.len(),
        (scan(src, s).0 == TokenType::EndOfFile) == (s == src.len()),
        scan(src, s).0 != TokenType::EndOfFile ==> scan(src, s).1 > s,
        scan(src, s).0 == TokenType::Text ==> scan(src, s).1 >= s + 2,
{
    if s < src.len() {
        lemma_ends(src, s + 1);
        lemma_keyword_from(src, s, 0);
        let e = digits_end(src, s + 1);
        if e + 1 < src.len() {
            lemma_ends(src, e + 1);
        }
    }
}

proof fn lemma_next_token(src: Seq<u8>, cur: int, line: int)
    requires
        0 <= cur <= src.len(),
    ensures
        ({
            let (t, c2, l2) = next_token_spec(src, cur, line);
            let (i3, l3) = skip_ws(
                src,
                skip_comment(src, skip_ws(src, cur, line).0, skip_ws(src, cur, line).1).0,
                skip_comment(src, skip_ws(src, cur, line).0, skip_ws(src, cur, line).1).1,
            );
            &&& cur <= i3 <= c2 <= src.len()
            &&& l2 == l3
            &&& line <= l2 <= line + (i3 - cur)
            &&& t.token_type != TokenType::EndOfFile ==> c2 > cur
            &&& t.token_type == TokenType::Text ==> c2 >= i3 + 2
            &&& scan(src, i3) == (t.token_type, c2)
        }),
{
    let (i1, l1) = skip_ws(src, cur, line);
    lemma_skip_ws(src, cur, line);
    let (i2, l2) = skip_comment(src, i1, l1);
    if 0 <= i1 < src.len() && src[i1] == 0x23 {
        lemma_comment_end(src, i1 + 1, l1);
    }
    lemma_skip_ws(src, i2, l2);
    let (i3, l3) = skip_ws(src, i2, l2);
    lemma_scan(src, i3);
}

/// The lexer's output is well formed: ranges lie in the source, strings span their
/// quotes, and exactly the last token is `EndOfFile` or `Error`.
pub proof fn lemma_lex_well_formed(src: Seq<u8>, cur: int, line: int)
    requires
        0 <= cur <= src.len(),
        src.len() < u32::MAX,
        1 <= line <= cur + 1,
    ensures
        tokens_well_formed(lex_from(src, cur, line), src.len()),
        lex_from(src, cur, line).len() <= src.len() - cur + 1,
    decreases src.len() - cur,
{
    let (t, c2, l2) = next_token_spec(src, cur, line);
    lemma_next_token(src, cur, line);
    let ts = lex_from(src, cur, line);
    if is_last_kind(t.token_type) || c2 <= cur || c2 > src.len() {
        assert(ts == seq![t]);
        assert(!is_last_kind(t.token_type) ==> c2 > cur);
        if !is_last_kind(t.token_type) {
            assert(false);
        }
    } else {
        lemma_lex_well_formed(src, c2, l2);
        let rest = lex_from(src, c2, l2);
        assert(ts == seq![t] + rest);
        assert forall|k: int| 0 <= k < ts.len() - 1 implies !is_last_kind(#[trigger] ts[k].token_type) by {
            if k > 0 {
                assert(ts[k] == rest[k - 1]);
            }
        }
        assert forall|k: int| 0 <= k < ts.len() implies {
            &&& (#[trigger] ts[k]).range.0 <= ts[k].range.1 <= src.len()
            &&& ts[k].token_type == TokenType::Text ==> ts[k].range.0 + 2 <= ts[k].range.1
        } by {
            if k > 0 {
                assert(ts[k] == rest[k - 1]);
            }
        }
    }
}

/// The operators `!=`, `==`, `>=` and `<=` are never split: where one of `!`, `=`, `>`,
/// `<` is followed by `=`, the two bytes make a single token.
pub proof fn lemma_two_byte_operators(src: Seq<u8>, s: int)
    requires
        0 <= s,
        s + 1 < src.len(),
        pair_kinds(src[s]) is Some,
        src[s + 1] == 0x3d,
    ensures
        scan(src, s) == (pair_kinds(src[s])->Some_0.1, s + 2),
{
}

/// How many newline bytes a byte string holds.
pub open spec fn newlines(s: Seq<u8>) -> nat
    decreases s.len(),
{
    if s.len() == 0 {
        0
    } else {
        newlines(s.drop_last()) + if s.last() == 0x0a {
            1nat
        } else {
            0nat
        }
    }
}

proof fn lemma_newlines_split(s: Seq<u8>, a: int, b: int, c: int)
    requires
        0 <= a <= b <= c <= s.len(),
    ensures
        newlines(s.subrange(a, c)) == newlines(s.subrange(a, b)) + newlines(s.subrange(b, c)),
    decreases c - b,
{
    if c > b {
        lemma_newlines_split(s, a, b, c - 1);
        assert(s.subrange(a, c).drop_last() =~= s.subrange(a, c - 1));
        assert(s.subrange(b, c).drop_last() =~= s.subrange(b, c - 1));
    } else {
        assert(s.subrange(b, c).len() == 0);
    }
}

proof fn lemma_newline_byte(s: Seq<u8>, i: int)
    requires
        0 <= i < s.len(),
    ensures
        newlines(s.subrange(i, i + 1)) == if s[i] == 0x0a { 1nat } else { 0nat },
{
    let t = s.subrange(i, i + 1);
    assert(t.drop_last().len() == 0);
    assert(newlines(t.drop_last()) == 0);
    assert(t.last() == s[i]);
}

proof fn lemma_skip_ws_lines(src: Seq<u8>, i: int, line: int)
    requires
        0 <= i <= src.len(),
    ensures
        skip_ws(src, i, line).1 == line + newlines(src.subrange(i, skip_ws(src, i, line).0)),
    decreases src.len() - i,
{
    lemma_skip_ws(src, i, line);
    if i < src.len() && (src[i] == 0x20 || src[i] == TAB_BYTE || src[i] == 0x0a) {
        let l2 = if src[i] == 0x0a { line + 1 } else { line };
        lemma_skip_ws_lines(src, i + 1, l2);
        lemma_skip_ws(src, i + 1, l2);
        lemma_newlines_split(src, i, i + 1, skip_ws(src, i, line).0);
        lemma_newline_byte(src, i);
    } else {
        assert(src.subrange(i, i).len() == 0);
    }
}

proof fn lemma_comment_lines(src: Seq<u8>, i: int, line: int)
    requires
        0 <= i <= src.len(),
    ensures
        comment_end(src, i, line).1 == line + newlines(src.subrange(i, comment_end(src, i, line).0)),
    decreases src.len() - i,
{
    lemma_comment_end(src, i, line);
    if i < src.len() {
        lemma_newline_byte(src, i);
        if src[i] == 0x0a {
        } else {
            lemma_comment_lines(src, i + 1, line);
            lemma_comment_end(src, i + 1, line);
            lemma_newlines_split(src, i, i + 1, comment_end(src, i, line).0);
        }
    } else {
        assert(src.subrange(i, i).len() == 0);
    }
}

proof fn lemma_no_newlines(src: Seq<u8>, a: int, b: int)
    requires
        0 <= a <= b <= src.len(),
        forall|j: int| a <= j < b ==> src[j] != 0x0a,
    ensures
        newlines(src.subrange(a, b)) == 0,
    decreases b - a,
{
    if b > a {
        lemma_no_newlines(src, a, b - 1);
        assert(src.subrange(a, b).drop_last() =~= src.subrange(a, b - 1));
    } else {
        assert(src.subrange(a, b).len() == 0);
    }
}

proof fn lemma_ends_bytes(src: Seq<u8>, i: int)
    requires
        0 <= i <= src.len(),
    ensures
        forall|j: int| i <= j < ident_end(src, i) ==> is_ident_byte(#[trigger] src[j]),
        forall|j: int| i <= j < digits_end(src, i) ==> is_digit(#[trigger] src[j]),
    decreases src.len() - i,
{
    if i < src.len() {
        lemma_ends_bytes(src, i + 1);
    }
}

proof fn lemma_keyword_bytes(src: Seq<u8>, s: int, n: int)
    requires
        0 <= s,
    ensures
        keyword_from(src, s, n) matches Some((k, m)) ==> forall|j: int| s <= j < s + m ==> #[trigger] src[j] != 0x0a,
    decreases keywords().len() - n,
{
    if 0 <= n < keywords().len() {
        if keyword_at(src, s, keywords()[n].0) {
            let kw = keywords()[n].0;
            assert forall|j: int| s <= j < s + kw.len() implies #[trigger] src[j] != 0x0a by {
                assert(src[j] == src.subrange(s, s + kw.len())[j - s]);
                assert(kw[j - s] != 0x0a);
            }
        } else {
            lemma_keyword_bytes(src, s, n + 1);
        }
    }
}

/// A lexeme that does not begin with a quote holds no newline.
proof fn lemma_scan_lines(src: Seq<u8>, s: int)
    requires
        0 <= s <= src.len(),
        s < src.len() ==> src[s] != 0x0a && src[s] != 0x22,
    ensures
        newlines(src.subrange(s, scan(src, s).1)) == 0,
{
    lemma_scan(src, s);
    let e = scan(src, s).1;
    if s < src.len() {
        lemma_ends_bytes(src, s + 1);
        lemma_keyword_bytes(src, s, 0);
        let d = digits_end(src, s + 1);
        lemma_ends(src, s + 1);
        if d + 1 < src.len() {
            lemma_ends_bytes(src, d + 1);
            lemma_ends(src, d + 1);
        }
        assert forall|j: int| s <= j < e implies src[j] != 0x0a by {
            if j > s && is_alpha(src[s]) && keyword_from(src, s, 0) is None {
                assert(is_ident_byte(src[j]));
            }
            if j > s && is_digit(src[s]) && j < d {
                assert(is_digit(src[j]));
            }
            if j > d + 1 && is_digit(src[s]) {
                assert(is_digit(src[j]));
            }
        }
        lemma_no_newlines(src, s, e);
    } else {
        assert(src.subrange(s, e).len() == 0);
    }
}

/// Lines are counted from the source: where no earlier string literal spans a newline,
/// a token's line is the starting line plus the newlines before its lexeme.
pub proof fn lemma_token_lines(src: Seq<u8>, cur: int, line: int, k: int)
    requires
        0 <= cur <= src.len(),
        src.len() < u32::MAX,
        1 <= line <= cur + 1,
        0 <= k < lex_from(src, cur, line).len(),
        forall|j: int|
            0 <= j < k && (#[trigger] lex_from(src, cur, line)[j]).token_type == TokenType::Text ==> newlines(
                src.subrange(lex_from(src, cur, line)[j].range.0 as int, lex_from(src, cur, line)[j].range.1 as int),
            ) == 0,
    ensures
        lex_from(src, cur, line)[k].line == line + newlines(src.subrange(cur, lex_from(src, cur, line)[k].range.0 as int)),
    decreases src.len() - cur,
{
    let ts = lex_from(src, cur, line);
    let (t, c2, l2) = next_token_spec(src, cur, line);
    lemma_next_token(src, cur, line);
    let (i1, l1) = skip_ws(src, cur, line);
    lemma_skip_ws(src, cur, line);
    lemma_skip_ws_lines(src, cur, line);
    let (i2, l2b) = skip_comment(src, i1, l1);
    if 0 <= i1 < src.len() && src[i1] == 0x23 {
        lemma_comment_end(src, i1 + 1, l1);
        lemma_comment_lines(src, i1 + 1, l1);
        lemma_newlines_split(src, i1, i1 + 1, i2);
        lemma_newline_byte(src, i1);
    } else {
        assert(src.subrange(i1, i2).len() == 0);
    }
    lemma_skip_ws(src, i2, l2b);
    lemma_skip_ws_lines(src, i2, l2b);
    let (i3, l3) = skip_ws(src, i2, l2b);
    lemma_newlines_split(src, cur, i1, i2);
    lemma_newlines_split(src, cur, i2, i3);
    lemma_lex_well_formed(src, cur, line);
    assert(ts[0] == t);
    assert(t.range.0 == i3);
    if k > 0 {
        assert(!(is_last_kind(t.token_type) || c2 <= cur || c2 > src.len()));
        let rest = lex_from(src, c2, l2);
        assert(ts == seq![t] + rest);
        assert forall|j: int|
            0 <= j < k - 1 && (#[trigger] rest[j]).token_type == TokenType::Text implies newlines(
            src.subrange(rest[j].range.0 as int, rest[j].range.1 as int),
        ) == 0 by {
            assert(rest[j] == ts[j + 1]);
        }
        lemma_token_lines(src, c2, l2, k - 1);
        assert(rest[k - 1] == ts[k]);
        lemma_lex_well_formed(src, c2, l2);
        let start = ts[k].range.0 as int;
        assert(c2 <= start) by {
            assert(rest[k - 1].range.0 <= rest[k - 1].range.1);
            lemma_next_token(src, c2, l2);
            if k - 1 == 0 {
            } else {
                lemma_starts_after(src, c2, l2, k - 1);
            }
        }
        if t.token_type == TokenType::Text {
            assert(newlines(src.subrange(i3, c2)) == 0);
        } else {
            if i3 < src.len() {
                assert(src[i3] != 0x0a);
                assert(src[i3] != 0x22);
            }
            lemma_scan_lines(src, i3);
        }
        lemma_newlines_split(src, cur, i3, c2);
        lemma_newlines_split(src, cur, c2, start);
    }
}

proof fn lemma_starts_after(src: Seq<u8>, cur: int, line: int, k: int)
    requires
        0 <= cur <= src.len(),
        src.len() < u32::MAX,
        0 <= k < lex_from(src, cur, line).len(),
    ensures
        cur <= lex_from(src, cur, line)[k].range.0,
    decreases src.len() - cur,
{
    let (t, c2, l2) = next_token_spec(src, cur, line);
    lemma_next_token(src, cur, line);
    if k > 0 {
        assert(!(is_last_kind(t.token_type) || c2 <= cur || c2 > src.len()));
        let rest = lex_from(src, c2, l2);
        assert(lex_from(src, cur, line) == seq![t] + rest);
        lemma_starts_after(src, c2, l2, k - 1);
        assert(lex_from(src, cur, line)[k] == rest[k - 1]);
    }
}

fn make_token(lexer: &Lexer, token_type: TokenType) -> (r: Token)
    requires
        lexer.start <= lexer.current <= lexer.source@.len() < u32::MAX,
    ensures
        r == (Token { token_type, range: (lexer.start as u32, lexer.current as u32), line: lexer.line }),
{
    Token { token_type, range: (lexer.start as u32, lexer.current as u32), line: lexer.line }
}

/// A scanner over the bytes of a source text.
pub struct Lexer<'a> {
    source: &'a [u8],
    current: usize,
    start: usize,
    line: u32,
}

impl<'a> Lexer<'a> {
    /// The bytes being scanned.
    pub closed spec fn src(&self) -> Seq<u8> {
        self.source@
    }

    /// The byte where scanning goes on.
    pub closed spec fn cursor(&self) -> int {
        self.current as int
    }

    /// The line of the byte where scanning goes on.
    pub closed spec fn spec_line(&self) -> int {
        self.line as int
    }

    pub closed spec fn wf(&self) -> bool {
        &&& self.source@.len() < u32::MAX
        &&& self.start <= self.current <= self.source@.len()
        &&& 1 <= self.line <= self.current + 1
    }

    /// A lexer at the first byte of `source`, on line 1.
    pub fn new(source: &'a str) -> (r: Lexer<'a>)
        requires
            source.spec_bytes().len() < u32::MAX,
        ensures
            r.wf(),
            r.src() == source.spec_bytes(),
            r.cursor() == 0,
            r.spec_line() == 1,
    {
        Lexer { source: source.as_bytes(), current: 0, start: 0, line: 1 }
    }

    /// The next token; after `EndOfFile` it keeps giving `EndOfFile`.
    pub fn next_token(&mut self) -> (r: Token)
        requires
            old(self).wf(),
        ensures
            final(self).wf(),
            final(self).src() == old(self).src(),
            (r, final(self).cursor(), final(self).spec_line()) == next_token_spec(
                old(self).src(),
                old(self).cursor(),
                old(self).spec_line(),
            ),
    {
        proof {
            lemma_next_token(self.source@, self.current as int, self.line as int);
        }
        self.skip_whitespaces();
        self.skip_comment();
        self.skip_whitespaces();
        self.tokenize()
    }

    /// All tokens from here on, through the first `EndOfFile` or `Error`.
    pub fn lexing(&mut self) -> (r: Vec<Token>)
        requires
            old(self).wf(),
        ensures
            r@ == lex_from(old(self).src(), old(self).cursor(), old(self).spec_line()),
            tokens_well_formed(r@, old(self).src().len()),
    {
        let mut output: Vec<Token> = Vec::new();
        loop
            invariant
                self.wf(),
                old(self).wf(),
                self.source@ == old(self).source@,
                output@ + lex_from(self.source@, self.current as int, self.line as int) == lex_from(
                    old(self).source@,
                    old(self).current as int,
                    old(self).line as int,
                ),
            decreases self.source@.len() - self.current,
        {
            let ghost cur = self.current as int;
            let ghost line = self.line as int;
            proof {
                lemma_next_token(self.source@, cur, line);
            }
            let token = self.next_token();
            output.push(token);
            if token.token_type == TokenType::EndOfFile || token.token_type == TokenType::Error {
                proof {
                    assert(lex_from(self.source@, cur, line) == seq![token]);
                    assert(output@ =~= lex_from(
                        old(self).source@,
                        old(self).current as int,
                        old(self).line as int,
                    ));
                    lemma_lex_well_formed(
                        old(self).source@,
                        old(self).current as int,
                        old(self).line as int,
                    );
                }
                return output;
            }
            proof {
                assert(lex_from(self.source@, cur, line) == seq![token] + lex_from(
                    self.source@,
                    self.current as int,
                    self.line as int,
                ));
                assert(output@ + lex_from(self.source@, self.current as int, self.line as int) =~= output@.drop_last()
                    + lex_from(self.source@, cur, line));
            }
        }
    }

    fn tokenize(&mut self) -> (r: Token)
        requires
            old(self).wf(),
        ensures
            final(self).wf(),
            final(self).source@ == old(self).source@,
            final(self).line == old(self).line,
            (r.token_type, final(self).current as int) == scan(old(self).source@, old(self).current as int),
            r.range == (old(self).current as u32, final(self).current as u32),
            r.line == old(self).line,
    {
        self.start = self.current;
        proof {
            lemma_scan(self.source@, self.current as int);
        }
        match self.advance() {
            None => make_token(self, TokenType::EndOfFile),
            Some(c) => {
                if (0x41 <= c && c <= 0x5a) || (0x61 <= c && c <= 0x7a) {
                    match self.match_keyword() {
                        Some(k) => make_token(self, k),
                        None => self.parse_identifier(),
                    }
                } else if 0x30 <= c && c <= 0x39 {
                    self.parse_number()
                } else if c == 0x22 {
                    self.parse_string()
                } else if c == 0x2e {
                    if self.current < self.source.len() && self.source[self.current] == 0x2e {
                        self.current = self.current + 1;
                        make_token(self, TokenType::Error)
                    } else {
                        make_token(self, TokenType::Dot)
                    }
                } else if c == 0x21 || c == 0x3d || c == 0x3e || c == 0x3c {
                    let paired = self.current < self.source.len() && self.source[self.current] == 0x3d;
                    if paired {
                        self.current = self.current + 1;
                    }
                    let k = if c == 0x21 {
                        if paired { TokenType::BangEqual } else { TokenType::Bang }
                    } else if c == 0x3d {
                        if paired { TokenType::EqualEqual } else { TokenType::Equal }
                    } else if c == 0x3e {
                        if paired { TokenType::GreaterEqual } else { TokenType::Greater }
                    } else {
                        if paired { TokenType::LessEqual } else { TokenType::Less }
                    };
                    make_token(self, k)
                } else {
                    let k = if c == 0x28 {
                        TokenType::LeftParent
                    } else if c == 0x29 {
                        TokenType::RightParent
                    } else if c == 0x7b {
                        TokenType::LeftBrace
                    } else if c == 0x7d {
                        TokenType::RightBrace
                    } else if c == 0x2b {
                        TokenType::Plus
                    } else if c == 0x2d {
                        TokenType::Minus
                    } else if c == 0x2a {
                        TokenType::Star
                    } else if c == 0x2f {
                        TokenType::Slash
                    } else if c == 0x2c {
                        TokenType::Comma
                    } else if c == 0x3b {
                        TokenType::Semicolon
                    } else {
                        TokenType::Error
                    };
                    make_token(self, k)
                }
            },
        }
    }

    fn skip_whitespaces(&mut self)
        requires
            old(self).wf(),
        ensures
            final(self).wf(),
            final(self).source@ == old(self).source@,
            (final(self).current as int, final(self).line as int) == skip_ws(
                old(self).source@,
                old(self).current as int,
                old(self).line as int,
            ),
    {
        while self.current < self.source.len() && (self.source[self.current] == 0x20
            || self.source[self.current] == TAB_BYTE || self.source[self.current] == 0x0a)
            invariant
                self.wf(),
                self.source@ == old(self).source@,
                skip_ws(self.source@, self.current as int, self.line as int) == skip_ws(
                    old(self).source@,
                    old(self).current as int,
                    old(self).line as int,
                ),
            decreases self.source@.len() - self.current,
        {
            if self.source[self.current] == 0x0a {
                self.line = self.line + 1;
            }
            self.current = self.current + 1;
        }
    }

    fn skip_comment(&mut self)
        requires
            old(self).wf(),
        ensures
            final(self).wf(),
            final(self).source@ == old(self).source@,
            (final(self).current as int, final(self).line as int) == skip_comment(
                old(self).source@,
                old(self).current as int,
                old(self).line as int,
            ),
    {
        if let Some(c) = self.peek() {
            if c == 0x23 {
                self.current = self.current + 1;
                while self.current < self.source.len() && self.source[self.current] != 0x0a
                    invariant
                        self.wf(),
                        self.source@ == old(self).source@,
                        self.line == old(self).line,
                        comment_end(self.source@, self.current as int, self.line as int) == skip_comment(
                            old(self).source@,
                            old(self).current as int,
                            old(self).line as int,
                        ),
                    decreases self.source@.len() - self.current,
                {
                    self.current = self.current + 1;
                }
                if self.current < self.source.len() {
                    self.current = self.current + 1;
                    self.line = self.line + 1;
                }
            }
        }
    }

    fn peek(&self) -> (r: Option<u8>)
        ensures
            r == if self.current < self.source@.len() {
                Some(self.source@[self.current as int])
            } else {
                None::<u8>
            },
    {
        if self.current < self.source.len() {
            Some(self.source[self.current])
        } else {
            None
        }
    }

    fn advance(&mut self) -> (r: Option<u8>)
        requires
            old(self).wf(),
        ensures
            final(self).wf(),
            final(self).source@ == old(self).source@,
            final(self).start == old(self).start,
            final(self).line == old(self).line,
            if old(self).current < old(self).source@.len() {
                r == Some(old(self).source@[old(self).current as int]) && final(self).current
                    == old(self).current + 1
            } else {
                r is None && final(self).current == old(self).current
            },
    {
        if self.current < self.source.len() {
            let c = self.source[self.current];
            self.current = self.current + 1;
            Some(c)
        } else {
            None
        }
    }

    /// Whether the lexeme begins with `pattern`; if so the lexeme is extended over it.
    fn match_pattern(&mut self, pattern: &[u8]) -> (r: bool)
        requires
            old(self).wf(),
            old(self).current == old(self).start + 1,
            pattern@.len() >= 1,
        ensures
            final(self).wf(),
            final(self).source@ == old(self).source@,
            final(self).start == old(self).start,
            final(self).line == old(self).line,
            r == keyword_at(old(self).source@, old(self).start as int, pattern@),
            final(self).current == if r {
                old(self).start + pattern@.len()
            } else {
                old(self).current as int
            },
    {
        if pattern.len() > self.source.len() - self.start {
            return false;
        }
        let mut i: usize = 0;
        while i < pattern.len()
            invariant
                self.wf(),
                i <= pattern@.len(),
                self.start + pattern@.len() <= self.source@.len(),
                forall|k: int| 0 <= k < i ==> self.source@[self.start + k] == pattern@[k],
            decreases pattern@.len() - i,
        {
            if self.source[self.start + i] != pattern[i] {
                proof {
                    let sub = self.source@.subrange(self.start as int, self.start + pattern@.len());
                    assert(sub[i as int] != pattern@[i as int]);
                }
                return false;
            }
            i = i + 1;
        }
        proof {
            assert(self.source@.subrange(self.start as int, self.start + pattern@.len()) =~= pattern@);
        }
        self.current = self.start + pattern.len();
        true
    }

    /// The kind of the first keyword that the lexeme begins with, if any.
    fn match_keyword(&mut self) -> (r: Option<TokenType>)
        requires
            old(self).wf(),
            old(self).current == old(self).start + 1,
        ensures
            final(self).wf(),
            final(self).source@ == old(self).source@,
            final(self).start == old(self).start,
            final(self).line == old(self).line,
            match keyword_from(old(self).source@, old(self).start as int, 0) {
                Some((k, n)) => r == Some(k) && final(self).current == old(self).start + n,
                None => r is None && final(self).current == old(self).current,
            },
    {
        proof {
            reveal_with_fuel(keyword_from, 17);
            assert(keywords()[0].0 =~= seq![0x76u8, 0x61, 0x72]);
        }
        if self.match_pattern(&[0x76u8, 0x61, 0x72]) {
            return Some(TokenType::Var);
        }
        if self.match_pattern(&[0x61u8, 0x6e, 0x64]) {
            return Some(TokenType::And);
        }
        if self.match_pattern(&[0x69u8, 0x66]) {
            return Some(TokenType::If);
        }
        if self.match_pattern(&[0x65u8, 0x6c, 0x73, 0x65]) {
            return Some(TokenType::Else);
        }
        if self.match_pattern(&[0x4eu8, 0x75, 0x6c, 0x6c]) {
            return Some(TokenType::Null);
        }
        if self.match_pattern(&[0x6fu8, 0x72]) {
            return Some(TokenType::Or);
        }
        if self.match_pattern(&[0x70u8, 0x72, 0x69, 0x6e, 0x74]) {
            return Some(TokenType::Print);
        }
        if self.match_pattern(&[0x72u8, 0x65, 0x74, 0x75, 0x72, 0x6e]) {
            return Some(TokenType::Return);
        }
        if self.match_pattern(&[0x77u8, 0x68, 0x69, 0x6c, 0x65]) {
            return Some(TokenType::While);
        }
        if self.match_pattern(&[0x63u8, 0x6c, 0x61, 0x73, 0x73]) {
            return Some(TokenType::Class);
        }
        if self.match_pattern(&[0x73u8, 0x75, 0x70, 0x65, 0x72]) {
            return Some(TokenType::Super);
        }
        if self.match_pattern(&[0x66u8, 0x61, 0x6c, 0x73, 0x65]) {
            return Some(TokenType::False);
        }
        if self.match_pattern(&[0x66u8, 0x6f, 0x72]) {
            return Some(TokenType::For);
        }
        if self.match_pattern(&[0x66u8, 0x75, 0x6e]) {
            return Some(TokenType::Fun);
        }
        if self.match_pattern(&[0x74u8, 0x68, 0x69, 0x73]) {
            return Some(TokenType::This);
        }
        if self.match_pattern(&[0x74u8, 0x72, 0x75, 0x65]) {
            return Some(TokenType::True);
        }
        None
    }

    /// Scans a string literal whose opening quote was just read.
    fn parse_string(&mut self) -> (r: Token)
        requires
            old(self).wf(),
            old(self).current == old(self).start + 1,
        ensures
            final(self).wf(),
            final(self).source@ == old(self).source@,
            final(self).line == old(self).line,
            ({
                let q = quote_end(old(self).source@, old(self).current as int);
                (r.token_type, final(self).current as int) == if q < old(self).source@.len() {
                    (TokenType::Text, q + 1)
                } else {
                    (TokenType::Error, q)
                }
            }),
            r.range == (old(self).start as u32, final(self).current as u32),
            r.line == old(self).line,
    {
        while self.current < self.source.len() && self.source[self.current] != 0x22
            invariant
                self.wf(),
                self.source@ == old(self).source@,
                self.start == old(self).start,
                self.line == old(self).line,
                quote_end(self.source@, self.current as int) == quote_end(
                    old(self).source@,
                    old(self).current as int,
                ),
            decreases self.source@.len() - self.current,
        {
            self.current = self.current + 1;
        }
        if self.current < self.source.len() {
            self.current = self.current + 1;
            make_token(self, TokenType::Text)
        } else {
            make_token(self, TokenType::Error)
        }
    }

    /// Scans the rest of an identifier; one that runs into the end of the source is an
    /// error.
    fn parse_identifier(&mut self) -> (r: Token)
        requires
            old(self).wf(),
            old(self).current == old(self).start + 1,
        ensures
            final(self).wf(),
            final(self).source@ == old(self).source@,
            final(self).line == old(self).line,
            ({
                let e = ident_end(old(self).source@, old(self).current as int);
                (r.token_type, final(self).current as int) == if e >= old(self).source@.len() {
                    (TokenType::Error, e)
                } else {
                    (TokenType::Identifier, e)
                }
            }),
            r.range == (old(self).start as u32, final(self).current as u32),
            r.line == old(self).line,
    {
        while self.current < self.source.len() && (is_ident_byte_exec(self.source[self.current]))
            invariant
                self.wf(),
                self.source@ == old(self).source@,
                self.start == old(self).start,
                self.line == old(self).line,
                ident_end(self.source@, self.current as int) == ident_end(
                    old(self).source@,
                    old(self).current as int,
                ),
            decreases self.source@.len() - self.current,
        {
            self.current = self.current + 1;
        }
        if self.current < self.source.len() {
            make_token(self, TokenType::Identifier)
        } else {
            make_token(self, TokenType::Error)
        }
    }

    /// Scans the rest of a number: digits, then a `.` and more digits for a float.
    fn parse_number(&mut self) -> (r: Token)
        requires
            old(self).wf(),
            old(self).current == old(self).start + 1,
        ensures
            final(self).wf(),
            final(self).source@ == old(self).source@,
            final(self).line == old(self).line,
            ({
                let src = old(self).source@;
                let e = digits_end(src, old(self).current as int);
                (r.token_type, final(self).current as int) == if e + 1 < src.len() && src[e] == 0x2e
                    && is_digit(src[e + 1]) {
                    (TokenType::Float, digits_end(src, e + 1))
                } else {
                    (TokenType::Integer, e)
                }
            }),
            r.range == (old(self).start as u32, final(self).current as u32),
            r.line == old(self).line,
    {
        self.skip_digits();
        if self.current + 1 < self.source.len() && self.source[self.current] == 0x2e && 0x30
            <= self.source[self.current + 1] && self.source[self.current + 1] <= 0x39 {
            self.current = self.current + 1;
            self.skip_digits();
            make_token(self, TokenType::Float)
        } else {
            make_token(self, TokenType::Integer)
        }
    }

    fn skip_digits(&mut self)
        requires
            old(self).wf(),
        ensures
            final(self).wf(),
            final(self).source@ == old(self).source@,
            final(self).start == old(self).start,
            final(self).line == old(self).line,
            final(self).current == digits_end(old(self).source@, old(self).current as int),
    {
        while self.current < self.source.len() && 0x30 <= self.source[self.current]
            && self.source[self.current] <= 0x39
            invariant
                self.wf(),
                self.source@ == old(self).source@,
                self.start == old(self).start,
                self.line == old(self).line,
                digits_end(self.source@, self.current as int) == digits_end(
                    old(self).source@,
                    old(self).current as int,
                ),
            decreases self.source@.len() - self.current,
        {
            self.current = self.current + 1;
        }
    }
}

fn is_ident_byte_exec(b: u8) -> (r: bool)
    ensures
        r == is_ident_byte(b),
{
    (0x41 <= b && b <= 0x5a) || (0x61 <= b && b <= 0x7a) || (0x30 <= b && b <= 0x39) || b == 0x5f
}

} // verus!
