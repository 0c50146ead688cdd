//! Tokenizer for the markup source text.
//!
//! The lexer trims the surrounding whitespace of the input once, then walks
//! the trimmed text in a single forward pass, producing one token per call to
//! `next`. Spans are character offsets into the trimmed input; consecutive
//! tokens cover it without gaps or overlaps.

use vstd::prelude::*;
use vstd::string::StrSliceExecFns;

verus! {

/// The kind of a token.
#[derive(Debug, PartialEq, Eq, Structural, Clone, Copy)]
pub enum TokenType {
    Text,
    Whitespace,
    HardLinebreak,
    LeftBracket,
    RightBracket,
    LeftParen,
    RightParen,
    AttributeIdentifier,
    FunctionIdentifier,
    ArgumentSeparator,
    Error,
}

/// A half-open range of character offsets into the trimmed input.
#[derive(Debug, PartialEq, Eq, Structural, Clone, Copy)]
pub struct Span {
    pub start: usize,
    pub end: usize,
}

/// A token: a kind together with the span of text it covers.
#[derive(Debug, PartialEq, Eq, Structural, Clone, Copy)]
pub struct Token {
    pub token_type: TokenType,
    pub span: Span,
}

/// The mathematical model of a token: its kind and span as integers.
pub struct TokenModel {
    pub kind: TokenType,
    pub start: int,
    pub end: int,
}

impl View for Token {
    type V = TokenModel;

    open spec fn view(&self) -> TokenModel {
        TokenModel { kind: self.token_type, start: self.span.start as int, end: self.span.end as int }
    }
}

impl Token {
    pub fn new(token_type: TokenType, span: Span) -> (t: Self)
        ensures
            t.token_type == token_type,
            t.span == span,
    {
        Self { token_type, span }
    }
}

/// The displayed name of a token kind.
pub open spec fn kind_label(t: TokenType) -> Seq<char> {
    match t {
        TokenType::Text => "Text"@,
        TokenType::Whitespace => "Whitespace"@,
        TokenType::HardLinebreak => "HardLinebreak"@,
        TokenType::LeftBracket => "LeftBracket"@,
        TokenType::RightBracket => "RightBracket"@,
        TokenType::LeftParen => "LeftParen"@,
        TokenType::RightParen => "RightParen"@,
        TokenType::AttributeIdentifier => "AttributeIdentifier"@,
        TokenType::FunctionIdentifier => "FunctionIdentifier"@,
        TokenType::ArgumentSeparator => "ArgumentSeparator"@,
        TokenType::Error => "Error"@,
    }
}

/// The displayed name of a token kind, for error messages.
pub fn kind_name(t: TokenType) -> (r: &'static str)
    ensures
        r@ == kind_label(t),
{
    match t {
        TokenType::Text => "Text",
        TokenType::Whitespace => "Whitespace",
        TokenType::HardLinebreak => "HardLinebreak",
        TokenType::LeftBracket => "LeftBracket",
        TokenType::RightBracket => "RightBracket",
        TokenType::LeftParen => "LeftParen",
        TokenType::RightParen => "RightParen",
        TokenType::AttributeIdentifier => "AttributeIdentifier",
        TokenType::FunctionIdentifier => "FunctionIdentifier",
        TokenType::ArgumentSeparator => "ArgumentSeparator",
        TokenType::Error => "Error",
    }
}

/// The four characters the lexer treats as whitespace.
pub open spec fn is_ws_char(c: char) -> bool {
    c == ' ' || c == '\t' || c == '\n' || c == '\r'
}

/// The characters with their own token kinds, which end a text run.
pub open spec fn is_special_char(c: char) -> bool {
    c == '[' || c == ']' || c == '(' || c == ')' || c == '|' || c == '#' || c == '@'
}

/// The characters an identifier may contain after its `#` or `@` sigil.
pub open spec fn is_ident_char(c: char) -> bool {
    ('a' <= c && c <= 'z') || ('A' <= c && c <= 'Z') || ('0' <= c && c <= '9') || c == '-'
}

/// The characters that introduce call syntax: brackets, the two identifier
/// sigils, and the argument separator.
pub open spec fn is_call_char(c: char) -> bool {
    c == '[' || c == ']' || c == '#' || c == '@' || c == '|'
}

/// The characters a text token may contain.
pub open spec fn is_text_char(c: char) -> bool {
    !is_special_char(c) && !is_ws_char(c)
}

/// First position at or after `i` that does not hold an identifier character.
pub open spec fn scan_ident(s: Seq<char>, i: int) -> int
    decreases s.len() - i,
{
    if 0 <= i && i < s.len() && is_ident_char(s[i]) {
        scan_ident(s, i + 1)
    } else {
        i
    }
}

/// First position at or after `i` that does not hold a text character.
pub open spec fn scan_text(s: Seq<char>, i: int) -> int
    decreases s.len() - i,
{
    if 0 <= i && i < s.len() && is_text_char(s[i]) {
        scan_text(s, i + 1)
    } else {
        i
    }
}

/// Whether position `i` starts a run of two newline characters.
pub open spec fn starts_hard_break(s: Seq<char>, i: int) -> bool {
    0 <= i && i + 1 < s.len() && s[i] == '\n' && s[i + 1] == '\n'
}

/// First position at or after `i` where a whitespace run ends: a character
/// that is not whitespace, or the start of a two-newline run.
pub open spec fn scan_ws(s: Seq<char>, i: int) -> int
    decreases s.len() - i,
{
    if 0 <= i && i < s.len() && is_ws_char(s[i]) && !starts_hard_break(s, i) {
        scan_ws(s, i + 1)
    } else {
        i
    }
}

/// The kind of the token that starts at position `pos`.
pub open spec fn token_kind_at(s: Seq<char>, pos: int) -> TokenType {
    let c = s[pos];
    if c == '[' {
        TokenType::LeftBracket
    } else if c == ']' {
        TokenType::RightBracket
    } else if c == '(' {
        TokenType::LeftParen
    } else if c == ')' {
        TokenType::RightParen
    } else if c == '|' {
        TokenType::ArgumentSeparator
    } else if c == '#' {
        TokenType::FunctionIdentifier
    } else if c == '@' {
        TokenType::AttributeIdentifier
    } else if starts_hard_break(s, pos) {
        TokenType::HardLinebreak
    } else if is_ws_char(c) {
        TokenType::Whitespace
    } else {
        TokenType::Text
    }
}

/// The end of the token that starts at position `pos`.
pub open spec fn token_end_at(s: Seq<char>, pos: int) -> int {
    let c = s[pos];
    if c == '[' || c == ']' || c == '(' || c == ')' || c == '|' {
        pos + 1
    } else if c == '#' || c == '@' {
        scan_ident(s, pos + 1)
    } else if starts_hard_break(s, pos) {
        pos + 2
    } else if is_ws_char(c) {
        scan_ws(s, pos + 1)
    } else {
        scan_text(s, pos + 1)
    }
}

/// The token sequence of `s` from position `pos` on.
pub open spec fn lex_from(s: Seq<char>, pos: int) -> Seq<TokenModel>
    decreases s.len() - pos,
{
    if pos < 0 || pos >= s.len() {
        Seq::empty()
    } else {
        let e = token_end_at(s, pos);
        let e2 = if pos < e && e <= s.len() {
            e
        } else {
            pos + 1
        };
        seq![TokenModel { kind: token_kind_at(s, pos), start: pos, end: e2 }] + lex_from(s, e2)
    }
}

/// First position at or after `i` that does not hold whitespace.
pub open spec fn ws_prefix_end(s: Seq<char>, i: int) -> int
    decreases s.len() - i,
{
    if 0 <= i && i < s.len() && is_ws_char(s[i]) {
        ws_prefix_end(s, i + 1)
    } else {
        i
    }
}

/// Last position at or before `i` such that everything from it to `i` is whitespace.
pub open spec fn ws_suffix_start(s: Seq<char>, i: int) -> int
    decreases i,
{
    if 0 < i && i <= s.len() && is_ws_char(s[i - 1]) {
        ws_suffix_start(s, i - 1)
    } else {
        i
    }
}

/// The input with leading and trailing whitespace removed.
pub open spec fn trim_spec(s: Seq<char>) -> Seq<char> {
    let a = ws_prefix_end(s, 0);
    let b = ws_suffix_start(s, s.len() as int);
    if a < b {
        s.subrange(a, b)
    } else {
        Seq::empty()
    }
}

pub proof fn lemma_ws_prefix_end_bounds(s: Seq<char>, i: int)
    requires
        0 <= i <= s.len(),
    ensures
        i <= ws_prefix_end(s, i) <= s.len(),
    decreases s.len() - i,
{
    if i < s.len() && is_ws_char(s[i]) {
        lemma_ws_prefix_end_bounds(s, i + 1);
    }
}

pub proof fn lemma_ws_suffix_start_bounds(s: Seq<char>, i: int)
    requires
        0 <= i <= s.len(),
    ensures
        0 <= ws_suffix_start(s, i) <= i,
    decreases i,
{
    if 0 < i && is_ws_char(s[i - 1]) {
        lemma_ws_suffix_start_bounds(s, i - 1);
    }
}

/// Positions a text scan runs over hold text characters.
pub proof fn lemma_scan_text_chars(s: Seq<char>, i: int)
    requires
        0 <= i,
    ensures
        forall|p: int| i <= p < scan_text(s, i) ==> is_text_char(#[trigger] s[p]),
    decreases s.len() - i,
{
    if i < s.len() && is_text_char(s[i]) {
        lemma_scan_text_chars(s, i + 1);
    }
}

/// Positions a whitespace scan runs over hold whitespace characters.
pub proof fn lemma_scan_ws_chars(s: Seq<char>, i: int)
    requires
        0 <= i,
    ensures
        forall|p: int| i <= p < scan_ws(s, i) ==> is_ws_char(#[trigger] s[p]),
    decreases s.len() - i,
{
    if i < s.len() && is_ws_char(s[i]) && !starts_hard_break(s, i) {
        lemma_scan_ws_chars(s, i + 1);
    }
}

/// The characters a leading-whitespace scan runs over are whitespace.
pub proof fn lemma_ws_prefix_chars(s: Seq<char>, i: int)
    requires
        0 <= i,
    ensures
        forall|p: int| i <= p < ws_prefix_end(s, i) ==> is_ws_char(#[trigger] s[p]),
    decreases s.len() - i,
{
    if i < s.len() && is_ws_char(s[i]) {
        lemma_ws_prefix_chars(s, i + 1);
    }
}

pub proof fn lemma_scan_ident_bounds(s: Seq<char>, i: int)
    requires
        0 <= i <= s.len(),
    ensures
        i <= scan_ident(s, i) <= s.len(),
    decreases s.len() - i,
{
    if i < s.len() && is_ident_char(s[i]) {
        lemma_scan_ident_bounds(s, i + 1);
    }
}

pub proof fn lemma_scan_text_bounds(s: Seq<char>, i: int)
    requires
        0 <= i <= s.len(),
    ensures
        i <= scan_text(s, i) <= s.len(),
    decreases s.len() - i,
{
    if i < s.len() && is_text_char(s[i]) {
        lemma_scan_text_bounds(s, i + 1);
    }
}

pub proof fn lemma_scan_ws_bounds(s: Seq<char>, i: int)
    requires
        0 <= i <= s.len(),
    ensures
        i <= scan_ws(s, i) <= s.len(),
    decreases s.len() - i,
{
    if i < s.len() && is_ws_char(s[i]) && !starts_hard_break(s, i) {
        lemma_scan_ws_bounds(s, i + 1);
    }
}

/// The token starting at `pos` is non-empty and stays within the input.
pub proof fn lemma_token_end_bounds(s: Seq<char>, pos: int)
    requires
        0 <= pos < s.len(),
    ensures
        pos < token_end_at(s, pos) <= s.len(),
{
    let c = s[pos];
    if c == '[' || c == ']' || c == '(' || c == ')' || c == '|' {
    } else if c == '#' || c == '@' {
        lemma_scan_ident_bounds(s, pos + 1);
    } else if starts_hard_break(s, pos) {
    } else if is_ws_char(c) {
        lemma_scan_ws_bounds(s, pos + 1);
    } else {
        lemma_scan_text_bounds(s, pos + 1);
    }
}

/// The spans of `ts` chain without gap from `from` to `to`.
pub open spec fn spans_chain(ts: Seq<TokenModel>, from: int, to: int) -> bool
    decreases ts.len(),
{
    if ts.len() == 0 {
        from == to
    } else {
        ts[0].start == from && from < ts[0].end && spans_chain(
            ts.subrange(1, ts.len() as int),
            ts[0].end,
            to,
        )
    }
}

/// The text under the spans of `ts`, concatenated in order.
pub open spec fn concat_spans(s: Seq<char>, ts: Seq<TokenModel>) -> Seq<char>
    decreases ts.len(),
{
    if ts.len() == 0 {
        Seq::empty()
    } else {
        s.subrange(ts[0].start, ts[0].end) + concat_spans(s, ts.subrange(1, ts.len() as int))
    }
}

/// Every token of `ts` has non-empty span within `s`, starts where the
/// previous one ended, and its kind and end follow from its start position.
#[verifier::opaque]
pub open spec fn tokens_ok(s: Seq<char>, ts: Seq<TokenModel>) -> bool {
    &&& forall|j: int|
        0 <= j < ts.len() ==> {
            let t = #[trigger] ts[j];
            &&& t.start == if j == 0 {
                0
            } else {
                ts[j - 1].end
            }
            &&& 0 <= t.start < t.end <= s.len()
            &&& t.kind == token_kind_at(s, t.start)
            &&& t.end == token_end_at(s, t.start)
        }
    &&& if ts.len() == 0 {
        s.len() == 0
    } else {
        ts[ts.len() - 1].end == s.len()
    }
}

pub proof fn lemma_lex_from_chain(s: Seq<char>, pos: int)
    requires
        0 <= pos <= s.len(),
    ensures
        spans_chain(lex_from(s, pos), pos, s.len() as int),
    decreases s.len() - pos,
{
    if pos < s.len() {
        lemma_token_end_bounds(s, pos);
        let e = token_end_at(s, pos);
        lemma_lex_from_chain(s, e);
        let ts = lex_from(s, pos);
        assert(ts.subrange(1, ts.len() as int) =~= lex_from(s, e));
    }
}

/// Law: concatenating the text under every token span from `pos` on
/// reconstructs the input from `pos` on, with no gaps and no overlaps.
pub proof fn lemma_span_coverage(s: Seq<char>, pos: int)
    requires
        0 <= pos <= s.len(),
    ensures
        concat_spans(s, lex_from(s, pos)) == s.subrange(pos, s.len() as int),
    decreases s.len() - pos,
{
    if pos >= s.len() {
        assert(concat_spans(s, lex_from(s, pos)) =~= s.subrange(pos, s.len() as int));
    } else {
        lemma_token_end_bounds(s, pos);
        let e = token_end_at(s, pos);
        lemma_span_coverage(s, e);
        let ts = lex_from(s, pos);
        assert(ts.subrange(1, ts.len() as int) =~= lex_from(s, e));
        assert(s.subrange(pos, e) + s.subrange(e, s.len() as int) =~= s.subrange(
            pos,
            s.len() as int,
        ));
    }
}

/// Law (span coverage): the tokens the lexer yields for an input chain
/// across the whole trimmed input, and their texts concatenate back to it.
pub proof fn lemma_token_spans_cover_input(input: Seq<char>)
    ensures
        spans_chain(lex_from(trim_spec(input), 0), 0, trim_spec(input).len() as int),
        concat_spans(trim_spec(input), lex_from(trim_spec(input), 0)) == trim_spec(input),
{
    let t = trim_spec(input);
    lemma_lex_from_chain(t, 0);
    lemma_span_coverage(t, 0);
    assert(t.subrange(0, t.len() as int) =~= t);
}

/// `tokens_ok`, stated structurally: the first token starts at `pos` and is
/// the token the character rules give there, and the rest follow from its end.
pub open spec fn tokens_ok_rec(s: Seq<char>, ts: Seq<TokenModel>, pos: int) -> bool
    decreases ts.len(),
{
    if ts.len() == 0 {
        pos == s.len()
    } else {
        &&& ts[0].start == pos
        &&& 0 <= pos < ts[0].end <= s.len()
        &&& ts[0].kind == token_kind_at(s, pos)
        &&& ts[0].end == token_end_at(s, pos)
        &&& tokens_ok_rec(s, ts.subrange(1, ts.len() as int), ts[0].end)
    }
}

proof fn lemma_lex_from_tokens_ok_rec(s: Seq<char>, pos: int)
    requires
        0 <= pos <= s.len(),
    ensures
        tokens_ok_rec(s, lex_from(s, pos), pos),
    decreases s.len() - pos,
{
    if pos < s.len() {
        lemma_token_end_bounds(s, pos);
        let e = token_end_at(s, pos);
        lemma_lex_from_tokens_ok_rec(s, e);
        let ts = lex_from(s, pos);
        assert(ts.subrange(1, ts.len() as int) =~= lex_from(s, e));
    }
}

proof fn lemma_tokens_chain(s: Seq<char>, ts: Seq<TokenModel>, pos: int)
    requires
        tokens_ok_rec(s, ts, pos),
    ensures
        forall|j: int| 1 <= j < ts.len() ==> (#[trigger] ts[j]).start == ts[j - 1].end,
        ts.len() > 0 ==> ts[0].start == pos,
    decreases ts.len(),
{
    if ts.len() > 0 {
        let rest = ts.subrange(1, ts.len() as int);
        lemma_tokens_chain(s, rest, ts[0].end);
        assert forall|j: int| 1 <= j < ts.len() implies (#[trigger] ts[j]).start == ts[j - 1].end by {
            assert(ts[j] == rest[j - 1]);
            if j >= 2 {
                assert(ts[j - 1] == rest[j - 2]);
                assert(rest[j - 1].start == rest[j - 2].end);
            } else {
                assert(rest[0].start == ts[0].end);
            }
        }
    }
}

proof fn lemma_tokens_each(s: Seq<char>, ts: Seq<TokenModel>, pos: int)
    requires
        tokens_ok_rec(s, ts, pos),
    ensures
        forall|j: int|
            0 <= j < ts.len() ==> {
                let t = #[trigger] ts[j];
                &&& 0 <= t.start < t.end <= s.len()
                &&& t.kind == token_kind_at(s, t.start)
                &&& t.end == token_end_at(s, t.start)
            },
    decreases ts.len(),
{
    if ts.len() > 0 {
        let rest = ts.subrange(1, ts.len() as int);
        lemma_tokens_each(s, rest, ts[0].end);
        assert forall|j: int| 0 <= j < ts.len() implies {
            let t = #[trigger] ts[j];
            &&& 0 <= t.start < t.end <= s.len()
            &&& t.kind == token_kind_at(s, t.start)
            &&& t.end == token_end_at(s, t.start)
        } by {
            if j >= 1 {
                assert(ts[j] == rest[j - 1]);
            }
        }
    }
}

proof fn lemma_tokens_last(s: Seq<char>, ts: Seq<TokenModel>, pos: int)
    requires
        tokens_ok_rec(s, ts, pos),
    ensures
        if ts.len() == 0 {
            pos == s.len()
        } else {
            ts[ts.len() - 1].end == s.len()
        },
    decreases ts.len(),
{
    if ts.len() > 0 {
        let rest = ts.subrange(1, ts.len() as int);
        lemma_tokens_last(s, rest, ts[0].end);
        if rest.len() > 0 {
            assert(ts[ts.len() - 1] == rest[rest.len() - 1]);
        }
    }
}

/// Retrieve the chaining facts of `tokens_ok` for one token.
pub proof fn lemma_tokens_ok_at(s: Seq<char>, ts: Seq<TokenModel>, j: int)
    requires
        tokens_ok(s, ts),
        0 <= j < ts.len(),
    ensures
        ts[j].start == if j == 0 {
            0int
        } else {
            ts[j - 1].end
        },
        0 <= ts[j].start < ts[j].end <= s.len(),
{
    reveal(tokens_ok);
}

/// Retrieve the kind and end facts of `tokens_ok` for one token.
pub proof fn lemma_tokens_ok_kind_at(s: Seq<char>, ts: Seq<TokenModel>, j: int)
    requires
        tokens_ok(s, ts),
        0 <= j < ts.len(),
    ensures
        ts[j].kind == token_kind_at(s, ts[j].start),
        ts[j].end == token_end_at(s, ts[j].start),
{
    reveal(tokens_ok);
}

/// Retrieve the boundary facts of `tokens_ok`.
pub proof fn lemma_tokens_ok_last(s: Seq<char>, ts: Seq<TokenModel>)
    requires
        tokens_ok(s, ts),
    ensures
        ts.len() == 0 ==> s.len() == 0,
        ts.len() > 0 ==> ts[ts.len() - 1].end == s.len(),
{
    reveal(tokens_ok);
}

/// The token sequence of the whole input is well formed.
pub proof fn lemma_lex_ok(s: Seq<char>)
    ensures
        tokens_ok(s, lex_from(s, 0)),
{
    reveal(tokens_ok);
    lemma_lex_from_tokens_ok_rec(s, 0);
    let ts = lex_from(s, 0);
    lemma_tokens_chain(s, ts, 0);
    lemma_tokens_each(s, ts, 0);
    lemma_tokens_last(s, ts, 0);
}

/// The lexer. It owns the trimmed input and a cursor; `start` marks the
/// beginning of the token being built and trails `current` between tokens.
pub struct Lexer {
    input: String,
    start: usize,
    current: usize,
}

impl Lexer {
    /// The trimmed input this lexer walks.
    pub closed spec fn src(&self) -> Seq<char> {
        self.input@
    }

    /// The cursor: how many characters have been consumed.
    pub closed spec fn pos(&self) -> int {
        self.current as int
    }

    /// Between calls to `next`, the span start has caught up with the cursor.
    pub closed spec fn wf(&self) -> bool {
        self.start == self.current && self.current <= self.input@.len()
    }

    pub fn new(input: &str) -> (l: Self)
        ensures
            l.src() == trim_spec(input@),
            l.pos() == 0,
            l.wf(),
    {
        let trimmed = trim_str(input);
        Self { input: trimmed, start: 0, current: 0 }
    }

    /// Emit the token spanning `start..current` and reset `start`.
    fn token(&mut self, token_type: TokenType) -> (t: Token)
        requires
            old(self).start <= old(self).current,
        ensures
            t.token_type == token_type,
            t.span.start == old(self).start,
            t.span.end == old(self).current,
            final(self).input == old(self).input,
            final(self).start == final(self).current == old(self).current,
    {
        let span = Span { start: self.start, end: self.current };
        self.start = self.current;
        Token::new(token_type, span)
    }

    /// Advance past the character under the cursor, if any.
    fn consume(&mut self) -> (c: Option<char>)
        requires
            old(self).current <= old(self).input@.len(),
        ensures
            final(self).input == old(self).input,
            final(self).start == old(self).start,
            old(self).current < old(self).input@.len() ==> {
                &&& c == Some(old(self).input@[old(self).current as int])
                &&& final(self).current == old(self).current + 1
            },
            old(self).current == old(self).input@.len() ==> c is None && final(self).current
                == old(self).current,
    {
        let n = self.input.as_str().unicode_len();
        if self.current < n {
            let c = self.input.as_str().get_char(self.current);
            self.current = self.current + 1;
            Some(c)
        } else {
            None
        }
    }

    /// The character under the cursor, if any.
    fn peek(&self) -> (c: Option<char>)
        requires
            self.current <= self.input@.len(),
        ensures
            c == if self.current < self.input@.len() {
                Some(self.input@[self.current as int])
            } else {
                None::<char>
            },
    {
        let n = self.input.as_str().unicode_len();
        if self.current < n {
            Some(self.input.as_str().get_char(self.current))
        } else {
            None
        }
    }

    /// The character one past the cursor, if any.
    fn peek_next(&self) -> (c: Option<char>)
        requires
            self.current <= self.input@.len(),
        ensures
            c == if self.current + 1 < self.input@.len() {
                Some(self.input@[self.current + 1])
            } else {
                None::<char>
            },
    {
        let n = self.input.as_str().unicode_len();
        if self.current < n && self.current + 1 < n {
            Some(self.input.as_str().get_char(self.current + 1))
        } else {
            None
        }
    }

    /// Greedily consume identifier characters, then emit the token.
    fn identifier(&mut self, token_type: TokenType) -> (t: Token)
        requires
            old(self).start <= old(self).current <= old(self).input@.len(),
        ensures
            final(self).input == old(self).input,
            t.token_type == token_type,
            t.span.start == old(self).start,
            t.span.end == scan_ident(old(self).input@, old(self).current as int),
            final(self).start == final(self).current == t.span.end,
    {
        loop
            invariant
                self.input == old(self).input,
                self.start == old(self).start,
                old(self).current <= self.current <= self.input@.len(),
                scan_ident(self.input@, old(self).current as int) == scan_ident(
                    self.input@,
                    self.current as int,
                ),
            ensures
                self.input == old(self).input,
                self.start == old(self).start,
                self.current == scan_ident(self.input@, old(self).current as int),
                old(self).current <= self.current <= self.input@.len(),
            decreases self.input@.len() - self.current,
        {
            let go = match self.peek() {
                Some(c) => is_ident_char_exec(c),
                None => false,
            };
            if !go {
                break;
            }
            self.consume();
        }
        self.token(token_type)
    }

    /// Greedily consume text characters, then emit a text token.
    fn text(&mut self) -> (t: Token)
        requires
            old(self).start <= old(self).current <= old(self).input@.len(),
        ensures
            final(self).input == old(self).input,
            t.token_type == TokenType::Text,
            t.span.start == old(self).start,
            t.span.end == scan_text(old(self).input@, old(self).current as int),
            final(self).start == final(self).current == t.span.end,
    {
        loop
            invariant
                self.input == old(self).input,
                self.start == old(self).start,
                old(self).current <= self.current <= self.input@.len(),
                scan_text(self.input@, old(self).current as int) == scan_text(
                    self.input@,
                    self.current as int,
                ),
            ensures
                self.input == old(self).input,
                self.start == old(self).start,
                self.current == scan_text(self.input@, old(self).current as int),
                old(self).current <= self.current <= self.input@.len(),
            decreases self.input@.len() - self.current,
        {
            let go = match self.peek() {
                Some(c) => is_text_char_exec(c),
                None => false,
            };
            if !go {
                break;
            }
            self.consume();
        }
        self.token(TokenType::Text)
    }

    fn is_whitespace(c: char) -> (b: bool)
        ensures
            b == is_ws_char(c),
    {
        c == ' ' || c == '\t' || c == '\n' || c == '\r'
    }

    /// Consume a whitespace run, stopping before a two-newline run, then emit
    /// a whitespace token.
    fn whitespace(&mut self) -> (t: Token)
        requires
            old(self).start <= old(self).current <= old(self).input@.len(),
        ensures
            final(self).input == old(self).input,
            t.token_type == TokenType::Whitespace,
            t.span.start == old(self).start,
            t.span.end == scan_ws(old(self).input@, old(self).current as int),
            final(self).start == final(self).current == t.span.end,
    {
        loop
            invariant
                self.input == old(self).input,
                self.start == old(self).start,
                old(self).current <= self.current <= self.input@.len(),
                scan_ws(self.input@, old(self).current as int) == scan_ws(
                    self.input@,
                    self.current as int,
                ),
            ensures
                self.input == old(self).input,
                self.start == old(self).start,
                self.current == scan_ws(self.input@, old(self).current as int),
                old(self).current <= self.current <= self.input@.len(),
            decreases self.input@.len() - self.current,
        {
            let go = match self.peek() {
                Some(c) => {
                    if c == '\n' {
                        match self.peek_next() {
                            Some(c2) => c2 != '\n',
                            None => true,
                        }
                    } else {
                        Self::is_whitespace(c)
                    }
                },
                None => false,
            };
            if !go {
                break;
            }
            self.consume();
        }
        self.token(TokenType::Whitespace)
    }

    /// A well-formed lexer's cursor stays within its input.
    pub proof fn lemma_wf_bounds(&self)
        requires
            self.wf(),
        ensures
            0 <= self.pos() <= self.src().len(),
    {
    }

    /// Surrender the trimmed input.
    pub fn into_input(self) -> (r: String)
        ensures
            r@ == self.src(),
    {
        self.input
    }

    /// Produce the next token, or `None` at the end of the input.
    pub fn next(&mut self) -> (r: Option<Token>)
        requires
            old(self).wf(),
        ensures
            final(self).wf(),
            final(self).src() == old(self).src(),
            r is None <==> old(self).pos() == old(self).src().len(),
            r is None ==> final(self).pos() == old(self).pos(),
            r matches Some(t) ==> {
                &&& t@.kind == token_kind_at(old(self).src(), old(self).pos())
                &&& t@.start == old(self).pos()
                &&& t@.end == token_end_at(old(self).src(), old(self).pos())
                &&& final(self).pos() == t@.end
            },
    {
        proof {
            if old(self).pos() < old(self).src().len() {
                lemma_token_end_bounds(old(self).src(), old(self).pos());
            }
        }
        let curr = match self.consume() {
            Some(c) => c,
            None => {
                return None;
            },
        };
        let t = if curr == '[' {
            self.token(TokenType::LeftBracket)
        } else if curr == ']' {
            self.token(TokenType::RightBracket)
        } else if curr == '(' {
            self.token(TokenType::LeftParen)
        } else if curr == ')' {
            self.token(TokenType::RightParen)
        } else if curr == '|' {
            self.token(TokenType::ArgumentSeparator)
        } else if curr == '#' {
            self.identifier(TokenType::FunctionIdentifier)
        } else if curr == '@' {
            self.identifier(TokenType::AttributeIdentifier)
        } else if curr == '\n' && matches!(self.peek(), Some('\n')) {
            self.consume();
            self.token(TokenType::HardLinebreak)
        } else if Self::is_whitespace(curr) {
            self.whitespace()
        } else {
            self.text()
        };
        Some(t)
    }
}

fn is_ident_char_exec(c: char) -> (b: bool)
    ensures
        b == is_ident_char(c),
{
    ('a' <= c && c <= 'z') || ('A' <= c && c <= 'Z') || ('0' <= c && c <= '9') || c == '-'
}

fn is_text_char_exec(c: char) -> (b: bool)
    ensures
        b == is_text_char(c),
{
    let special = c == '[' || c == ']' || c == '(' || c == ')' || c == '|' || c == '#' || c == '@';
    !special && !Lexer::is_whitespace(c)
}

/// Remove leading and trailing whitespace.
fn trim_str(input: &str) -> (r: String)
    ensures
        r@ == trim_spec(input@),
{
    let n = input.unicode_len();
    let mut a: usize = 0;
    loop
        invariant
            a <= input@.len(),
            n == input@.len(),
            ws_prefix_end(input@, 0) == ws_prefix_end(input@, a as int),
        ensures
            a == ws_prefix_end(input@, 0),
            a <= input@.len(),
        decreases input@.len() - a,
    {
        let go = if a < n {
            Lexer::is_whitespace(input.get_char(a))
        } else {
            false
        };
        if !go {
            break;
        }
        a = a + 1;
    }
    let mut b: usize = n;
    loop
        invariant
            b <= input@.len(),
            n == input@.len(),
            ws_suffix_start(input@, input@.len() as int) == ws_suffix_start(input@, b as int),
        ensures
            b == ws_suffix_start(input@, input@.len() as int),
            b <= input@.len(),
        decreases b,
    {
        let go = if b > 0 {
            Lexer::is_whitespace(input.get_char(b - 1))
        } else {
            false
        };
        if !go {
            break;
        }
        b = b - 1;
    }
    if a < b {
        let sub = input.substring_char(a, b);
        sub.to_owned()
    } else {
        String::new()
    }
}

} // verus!
