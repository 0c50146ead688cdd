//! Recursive-descent parser.
//!
//! The parser lexes the input once, then hands out one top-level element per
//! call to `next`, so a document can be processed without materialising the
//! whole tree. Its behaviour is specified exactly by the `p_*` functions
//! below, which mirror the grammar over the token sequence: each exec method
//! returns precisely what its spec function denotes.

use vstd::prelude::*;
use vstd::string::StrSliceExecFns;
use vstd::string::StringExecFns;

use crate::attribute::{AttrModel, Attribute};
use crate::error::Error;
use crate::lexer::{
    lex_from, lemma_lex_ok, lemma_token_end_bounds, tokens_ok, trim_spec, ws_prefix_end,
    ws_suffix_start, Lexer, Span, Token, TokenModel, TokenType,
};
use crate::parse_tree::{
    elem_m_wf, elem_no_function, elem_view, elems_m_wf, elems_view, lemma_elems_m_wf_index, Block,
    ElemModel, ParsedElement,
};

verus! {

/// The kind of the token at index `i`, if any.
pub open spec fn kind_at(ts: Seq<TokenModel>, i: int) -> Option<TokenType> {
    if 0 <= i && i < ts.len() {
        Some(ts[i].kind)
    } else {
        None
    }
}

/// Where a text run ends: the first index from `i` on whose token neither is
/// text or whitespace nor a parenthesis admitted by the depth counter. A `(`
/// raises the depth; a `)` lowers it while positive and otherwise ends the
/// run, unconsumed.
pub open spec fn text_end(ts: Seq<TokenModel>, i: int, depth: int) -> int
    decreases ts.len() - i,
{
    if 0 <= i && i < ts.len() {
        let k = ts[i].kind;
        if k == TokenType::Text || k == TokenType::Whitespace {
            text_end(ts, i + 1, depth)
        } else if k == TokenType::LeftParen {
            text_end(ts, i + 1, depth + 1)
        } else if k == TokenType::RightParen && depth > 0 {
            text_end(ts, i + 1, depth - 1)
        } else {
            i
        }
    } else {
        i
    }
}

/// The first index from `i` on whose token is not whitespace.
pub open spec fn skip_ws_spec(ts: Seq<TokenModel>, i: int) -> int
    decreases ts.len() - i,
{
    if 0 <= i && i < ts.len() && ts[i].kind == TokenType::Whitespace {
        skip_ws_spec(ts, i + 1)
    } else {
        i
    }
}

/// The character position of the cursor once the first `i` tokens are
/// consumed.
pub open spec fn char_pos(ts: Seq<TokenModel>, i: int) -> int {
    if i <= 0 {
        0
    } else {
        ts[i - 1].end
    }
}

/// One attribute, parsed at index `i` (which must hold the `@key` token):
/// a flag when whitespace or `]` follows; a value attribute when `(` follows
/// directly, holding the text up to the matching `)`. Anything else refuses
/// the attribute.
pub open spec fn p_attr(s: Seq<char>, ts: Seq<TokenModel>, i: int) -> Result<
    (AttrModel, int),
    (),
> {
    if kind_at(ts, i) != Some(TokenType::AttributeIdentifier) {
        Err(())
    } else {
        let key = s.subrange(ts[i].start + 1, ts[i].end);
        if kind_at(ts, i + 1) == Some(TokenType::Whitespace) || kind_at(ts, i + 1) == Some(
            TokenType::RightBracket,
        ) {
            Ok((AttrModel { key, value: None }, i + 1))
        } else if kind_at(ts, i + 1) == Some(TokenType::LeftParen) {
            let j = text_end(ts, i + 2, 0);
            let vstart = ts[i + 1].end;
            let vend = if j > i + 2 {
                ts[j - 1].end
            } else {
                vstart
            };
            if kind_at(ts, j) == Some(TokenType::RightParen) {
                Ok((AttrModel { key, value: Some(s.subrange(vstart, vend)) }, j + 1))
            } else {
                Err(())
            }
        } else {
            Err(())
        }
    }
}

/// The attribute list: attributes while an `@key` token is next, each
/// followed by skipped whitespace.
pub open spec fn p_attrs(s: Seq<char>, ts: Seq<TokenModel>, i: int) -> Result<
    (Seq<AttrModel>, int),
    (),
>
    decreases ts.len() - i,
{
    if kind_at(ts, i) == Some(TokenType::AttributeIdentifier) {
        match p_attr(s, ts, i) {
            Err(()) => Err(()),
            Ok((a, j)) => {
                let j1 = if j > i {
                    j
                } else {
                    i + 1
                };
                let k = skip_ws_spec(ts, j1);
                let k1 = if k > j1 {
                    k
                } else {
                    j1
                };
                let k2 = if k1 <= ts.len() {
                    k1
                } else {
                    ts.len() as int
                };
                match p_attrs(s, ts, k2) {
                    Err(()) => Err(()),
                    Ok((rest, m)) => Ok((seq![a] + rest, m)),
                }
            },
        }
    } else {
        Ok((Seq::empty(), i))
    }
}

/// Leading whitespace removed from a text.
pub open spec fn trim_start_spec(t: Seq<char>) -> Seq<char> {
    t.subrange(ws_prefix_end(t, 0), t.len() as int)
}

/// Trailing whitespace removed from a text.
pub open spec fn trim_end_spec(t: Seq<char>) -> Seq<char> {
    t.subrange(0, ws_suffix_start(t, t.len() as int))
}

/// One argument group after trimming: leading whitespace leaves its first
/// element if that is a text, trailing whitespace its last, and a text
/// emptied by either trim is dropped.
pub open spec fn trim_group(g: Seq<ElemModel>) -> Seq<ElemModel> {
    let g1 = if g.len() > 0 {
        match g[0] {
            ElemModel::Text(t) => {
                let tt = trim_start_spec(t);
                if tt.len() == 0 {
                    g.subrange(1, g.len() as int)
                } else {
                    g.update(0, ElemModel::Text(tt))
                }
            },
            _ => g,
        }
    } else {
        g
    };
    if g1.len() > 0 {
        match g1[g1.len() - 1] {
            ElemModel::Text(t) => {
                let tt = trim_end_spec(t);
                if tt.len() == 0 {
                    g1.subrange(0, g1.len() - 1)
                } else {
                    g1.update(g1.len() - 1, ElemModel::Text(tt))
                }
            },
            _ => g1,
        }
    } else {
        g1
    }
}

/// What a trimmed group contributes to the argument list: nothing when
/// empty, the element itself when single, a block otherwise.
pub open spec fn group_items(g: Seq<ElemModel>) -> Seq<ElemModel> {
    if g.len() == 0 {
        Seq::empty()
    } else if g.len() == 1 {
        g
    } else {
        seq![ElemModel::Block(g)]
    }
}

/// One element at index `i`: a text run, a hard linebreak, or a function
/// call after `[`. Any other token refuses the element.
pub open spec fn p_element(s: Seq<char>, ts: Seq<TokenModel>, i: int) -> Result<
    (ElemModel, int),
    (),
>
    decreases ts.len() - i, 0int,
{
    if !(0 <= i && i < ts.len()) {
        Err(())
    } else {
        let k = ts[i].kind;
        if k == TokenType::Text || k == TokenType::Whitespace || k == TokenType::LeftParen {
            let d = if k == TokenType::LeftParen {
                1int
            } else {
                0int
            };
            let j = text_end(ts, i + 1, d);
            let j1 = if i + 1 <= j && j <= ts.len() {
                j
            } else {
                i + 1
            };
            Ok((ElemModel::Text(s.subrange(ts[i].start, ts[j1 - 1].end)), j1))
        } else if k == TokenType::HardLinebreak {
            Ok((ElemModel::HardLinebreak, i + 1))
        } else if k == TokenType::LeftBracket {
            p_function(s, ts, i + 1)
        } else {
            Err(())
        }
    }
}

/// A function call, `i` standing just after the `[`: the `#name` token, the
/// attribute list, one optional leading `|`, then the argument groups up to
/// the closing `]`.
pub open spec fn p_function(s: Seq<char>, ts: Seq<TokenModel>, i: int) -> Result<
    (ElemModel, int),
    (),
>
    decreases ts.len() - i, 3int,
{
    if kind_at(ts, i) != Some(TokenType::FunctionIdentifier) {
        Err(())
    } else {
        let name = s.subrange(ts[i].start + 1, ts[i].end);
        let a = skip_ws_spec(ts, i + 1);
        let a0 = if a > i + 1 {
            a
        } else {
            i + 1
        };
        let a1 = if a0 <= ts.len() {
            a0
        } else {
            ts.len() as int
        };
        match p_attrs(s, ts, a1) {
            Err(()) => Err(()),
            Ok((attrs, b)) => {
                let b0 = if b > a1 {
                    b
                } else {
                    a1
                };
                let b1 = if b0 <= ts.len() {
                    b0
                } else {
                    ts.len() as int
                };
                let c = if kind_at(ts, b1) == Some(TokenType::ArgumentSeparator) {
                    b1 + 1
                } else {
                    b1
                };
                match p_args(s, ts, c) {
                    Err(()) => Err(()),
                    Ok((args, d)) => Ok(
                        (ElemModel::Function { name, attrs, args }, d + 1),
                    ),
                }
            },
        }
    }
}

/// The argument groups of a call: groups separated by `|` until the closing
/// `]`, each group trimmed, empty groups dropped, multi-element groups
/// wrapped in a block. Ends at the index of the `]`; anything else after a
/// group refuses the list.
pub open spec fn p_args(s: Seq<char>, ts: Seq<TokenModel>, i: int) -> Result<
    (Seq<ElemModel>, int),
    (),
>
    decreases ts.len() - i, 2int,
{
    if kind_at(ts, i) == Some(TokenType::RightBracket) {
        Ok((Seq::empty(), i))
    } else {
        match p_block(s, ts, i) {
            Err(()) => Err(()),
            Ok((group, j)) => {
                let j0 = if j > i {
                    j
                } else {
                    i
                };
                let j1 = if j0 <= ts.len() {
                    j0
                } else {
                    ts.len() as int
                };
                let items = group_items(trim_group(group));
                if kind_at(ts, j1) == Some(TokenType::ArgumentSeparator) {
                    match p_args(s, ts, j1 + 1) {
                        Err(()) => Err(()),
                        Ok((rest, m)) => Ok((items + rest, m)),
                    }
                } else if kind_at(ts, j1) == Some(TokenType::RightBracket) {
                    Ok((items, j1))
                } else {
                    Err(())
                }
            },
        }
    }
}

/// A nested element sequence: elements until the end of the input or a
/// token that ends the group (`@key`, `|`, `]`), which is left unconsumed.
pub open spec fn p_block(s: Seq<char>, ts: Seq<TokenModel>, i: int) -> Result<
    (Seq<ElemModel>, int),
    (),
>
    decreases ts.len() - i, 1int,
{
    if !(0 <= i && i < ts.len()) {
        Ok((Seq::empty(), if i > 0 { i } else { 0 }))
    } else {
        let k = ts[i].kind;
        if k == TokenType::AttributeIdentifier || k == TokenType::ArgumentSeparator || k
            == TokenType::RightBracket {
            Ok((Seq::empty(), i))
        } else {
            match p_element(s, ts, i) {
                Err(()) => Err(()),
                Ok((e, j)) => {
                    let j0 = if j > i {
                        j
                    } else {
                        i + 1
                    };
                    let j1 = if j0 <= ts.len() {
                        j0
                    } else {
                        ts.len() as int
                    };
                    match p_block(s, ts, j1) {
                        Err(()) => Err(()),
                        Ok((rest, m)) => Ok((seq![e] + rest, m)),
                    }
                },
            }
        }
    }
}

/// The whole document: top-level elements to the end of the input.
pub open spec fn p_document(s: Seq<char>, ts: Seq<TokenModel>, i: int) -> Result<
    Seq<ElemModel>,
    (),
>
    decreases ts.len() - i, 4int,
{
    if !(0 <= i && i < ts.len()) {
        Ok(Seq::empty())
    } else {
        match p_element(s, ts, i) {
            Err(()) => Err(()),
            Ok((e, j)) => {
                let j0 = if j > i {
                    j
                } else {
                    i + 1
                };
                let j1 = if j0 <= ts.len() {
                    j0
                } else {
                    ts.len() as int
                };
                match p_document(s, ts, j1) {
                    Err(()) => Err(()),
                    Ok(rest) => Ok(seq![e] + rest),
                }
            },
        }
    }
}

/// Whether every element parsed before the document's first parse failure,
/// if any, holds no function call. Under this condition no host function
/// can run before the failure surfaces.
pub open spec fn doc_prefix_no_function(s: Seq<char>, ts: Seq<TokenModel>, i: int) -> bool
    decreases ts.len() - i, 5int,
{
    if !(0 <= i && i < ts.len()) {
        true
    } else {
        match p_element(s, ts, i) {
            Err(()) => true,
            Ok((e, j)) => {
                let j0 = if j > i {
                    j
                } else {
                    i + 1
                };
                let j1 = if j0 <= ts.len() {
                    j0
                } else {
                    ts.len() as int
                };
                elem_no_function(e) && doc_prefix_no_function(s, ts, j1)
            },
        }
    }
}

/// The token kinds that refuse to start an element: a structural parse
/// failure when one stands where an element is expected.
pub open spec fn stray_kind(k: TokenType) -> bool {
    k == TokenType::RightBracket || k == TokenType::RightParen || k
        == TokenType::AttributeIdentifier || k == TokenType::FunctionIdentifier || k
        == TokenType::ArgumentSeparator || k == TokenType::Error
}

/// The parser: the trimmed input, its tokens, the index of the next token,
/// and the character span of the element being built.
pub struct Parser {
    input: String,
    tokens: Vec<Token>,
    idx: usize,
    start: usize,
    current: usize,
}

impl Parser {
    /// The trimmed source text.
    pub closed spec fn src(&self) -> Seq<char> {
        self.input@
    }

    /// The token models of the source.
    pub closed spec fn toks(&self) -> Seq<TokenModel> {
        self.tokens@.map_values(|t: Token| t@)
    }

    /// The index of the next unconsumed token.
    pub closed spec fn at(&self) -> int {
        self.idx as int
    }

    /// The character position where the current element started.
    pub closed spec fn span_start(&self) -> int {
        self.start as int
    }

    pub closed spec fn wf(&self) -> bool {
        &&& tokens_ok(self.input@, self.toks())
        &&& self.idx <= self.tokens@.len()
        &&& self.current == char_pos(self.toks(), self.idx as int)
        &&& self.start <= self.current
    }

    /// A well-formed parser's cursor stays within its tokens.
    pub proof fn lemma_wf_bounds(&self)
        requires
            self.wf(),
        ensures
            0 <= self.at() <= self.toks().len(),
    {
    }

    pub fn new(input: &str) -> (p: Self)
        ensures
            p.wf(),
            p.src() == trim_spec(input@),
            p.toks() == lex_from(p.src(), 0),
            p.at() == 0,
    {
        let mut lexer = Lexer::new(input);
        let ghost s = lexer.src();
        proof {
            lemma_lex_ok(s);
        }
        let mut tokens: Vec<Token> = Vec::new();
        loop
            invariant
                lexer.wf(),
                lexer.src() == s,
                tokens@.map_values(|t: Token| t@) + lex_from(s, lexer.pos()) =~= lex_from(s, 0),
                0 <= lexer.pos() <= s.len(),
            ensures
                lexer.src() == s,
                lexer.pos() == s.len(),
                tokens@.map_values(|t: Token| t@) =~= lex_from(s, 0),
            decreases s.len() - lexer.pos(),
        {
            let ghost pos0 = lexer.pos();
            let ghost toks0 = tokens@.map_values(|t: Token| t@);
            match lexer.next() {
                None => {
                    proof {
                        assert(lex_from(s, lexer.pos()) =~= Seq::<TokenModel>::empty());
                        assert(tokens@.map_values(|t: Token| t@) =~= toks0 + Seq::<
                            TokenModel,
                        >::empty());
                    }
                    break ;
                },
                Some(t) => {
                    proof {
                        lemma_token_end_bounds(s, pos0);
                    }
                    tokens.push(t);
                    proof {
                        assert(tokens@.map_values(|t: Token| t@) =~= toks0 + seq![t@]);
                        assert(lex_from(s, pos0) == seq![t@] + lex_from(s, lexer.pos()));
                        assert((toks0 + seq![t@]) + lex_from(s, lexer.pos()) =~= toks0 + (seq![t@]
                            + lex_from(s, lexer.pos())));
                    }
                },
            }
        }
        let p = Self { input: lexer.into_input(), tokens, idx: 0, start: 0, current: 0 };
        proof {
            assert(p.toks() =~= lex_from(p.src(), 0));
        }
        p
    }

    /// Take the next token, noting where it ended.
    fn consume(&mut self) -> (r: Option<Token>)
        requires
            old(self).wf(),
        ensures
            final(self).wf(),
            final(self).src() == old(self).src(),
            final(self).toks() == old(self).toks(),
            final(self).span_start() == old(self).span_start(),
            old(self).at() < old(self).toks().len() ==> {
                &&& r == Some(old(self).tokens_index(old(self).at()))
                &&& final(self).at() == old(self).at() + 1
            },
            old(self).at() == old(self).toks().len() ==> r is None && final(self).at() == old(
                self,
            ).at(),
    {
        proof {
            if old(self).at() < old(self).toks().len() {
                crate::lexer::lemma_tokens_ok_at(self.src(), self.toks(), old(self).at());
            }
        }
        if self.idx < self.tokens.len() {
            let t = self.tokens[self.idx];
            self.idx = self.idx + 1;
            self.current = t.span.end;
            Some(t)
        } else {
            None
        }
    }

    /// The token at index `i`, as exec data.
    pub closed spec fn tokens_index(&self, i: int) -> Token {
        self.tokens@[i]
    }

    /// The kind of the next token, if any.
    fn peek_type(&self) -> (r: Option<TokenType>)
        requires
            self.wf(),
        ensures
            r == kind_at(self.toks(), self.at()),
    {
        if self.idx < self.tokens.len() {
            Some(self.tokens[self.idx].token_type)
        } else {
            None
        }
    }

    /// Take the next token, demanding its kind. At the end of the input,
    /// the error says so; on a kind mismatch, the token is still consumed
    /// and the error names the expected and the actual kind, carrying the
    /// offending span.
    fn consume_expect(&mut self, token_type: TokenType) -> (r: Result<Token, Error>)
        requires
            old(self).wf(),
        ensures
            final(self).wf(),
            final(self).src() == old(self).src(),
            final(self).toks() == old(self).toks(),
            final(self).span_start() == old(self).span_start(),
            r is Ok <==> kind_at(old(self).toks(), old(self).at()) == Some(token_type),
            r matches Ok(t) ==> {
                &&& t == old(self).tokens_index(old(self).at())
                &&& final(self).at() == old(self).at() + 1
            },
            r matches Err(e) ==> e matches Error::Parse(_, _),
            old(self).at() >= old(self).toks().len() ==> (r matches Err(e) && e matches Error::Parse(m, sp) && m@ == "Reached EOF"@
                && sp is None) && final(self).at() == old(self).at(),
            (old(self).at() < old(self).toks().len() && old(self).toks()[old(self).at()].kind
                != token_type) ==> ({
                let actual = old(self).toks()[old(self).at()];
                &&& r matches Err(e) && e matches Error::Parse(m, sp) && m@ == "Expected token "@
                    + crate::lexer::kind_label(token_type) + " but got "@
                    + crate::lexer::kind_label(actual.kind) && (sp matches Some(sp2)
                    && sp2.start == actual.start && sp2.end == actual.end)
                &&& final(self).at() == old(self).at() + 1
            }),
    {
        let token = self.consume();
        let t = match token {
            Some(t) => t,
            None => {
                return Err(Error::Parse(String::from_str("Reached EOF"), None));
            },
        };
        if !token_type_eq(t.token_type, token_type) {
            return Err(
                Error::Parse(
                    String::from_str("Expected token ").concat(
                        crate::lexer::kind_name(token_type),
                    ).concat(" but got ").concat(crate::lexer::kind_name(t.token_type)),
                    Some(t.span),
                ),
            );
        }
        Ok(t)
    }

    /// Skip whitespace tokens.
    fn skip_whitespace(&mut self)
        requires
            old(self).wf(),
        ensures
            final(self).wf(),
            final(self).src() == old(self).src(),
            final(self).toks() == old(self).toks(),
            final(self).span_start() == old(self).span_start(),
            final(self).at() == skip_ws_spec(old(self).toks(), old(self).at()),
            final(self).at() >= old(self).at(),
    {
        loop
            invariant
                self.wf(),
                self.src() == old(self).src(),
                self.toks() == old(self).toks(),
                self.span_start() == old(self).span_start(),
                old(self).at() <= self.at() <= self.toks().len(),
                skip_ws_spec(self.toks(), old(self).at()) == skip_ws_spec(self.toks(), self.at()),
            ensures
                self.wf(),
                self.src() == old(self).src(),
                self.toks() == old(self).toks(),
                self.span_start() == old(self).span_start(),
                self.at() == skip_ws_spec(old(self).toks(), old(self).at()),
                self.at() >= old(self).at(),
            decreases self.toks().len() - self.at(),
        {
            let go = match self.peek_type() {
                Some(TokenType::Whitespace) => true,
                _ => false,
            };
            if !go {
                break ;
            }
            self.consume();
        }
    }

    /// Mark the cursor as the start of the next element's span.
    fn start_span(&mut self)
        requires
            old(self).wf(),
        ensures
            final(self).wf(),
            final(self).src() == old(self).src(),
            final(self).toks() == old(self).toks(),
            final(self).at() == old(self).at(),
            final(self).span_start() == char_pos(old(self).toks(), old(self).at()),
    {
        self.start = self.current;
    }

    /// The span from the last mark to the cursor.
    fn get_span(&self) -> (r: Span)
        requires
            self.wf(),
        ensures
            r.start == self.span_start(),
            r.end == char_pos(self.toks(), self.at()),
    {
        Span { start: self.start, end: self.current }
    }

    /// Consume a text run: text and whitespace tokens, and parentheses as
    /// the depth counter admits them. Yields the covered source text, from
    /// the span mark to the cursor.
    fn text(&mut self, start_with_paren: bool) -> (r: String)
        requires
            old(self).wf(),
            old(self).at() >= 1,
        ensures
            final(self).wf(),
            final(self).src() == old(self).src(),
            final(self).toks() == old(self).toks(),
            final(self).span_start() == old(self).span_start(),
            final(self).at() == text_end(
                old(self).toks(),
                old(self).at(),
                if start_with_paren {
                    1int
                } else {
                    0int
                },
            ),
            old(self).at() <= final(self).at() <= old(self).toks().len(),
            r@ == old(self).src().subrange(
                old(self).span_start(),
                char_pos(old(self).toks(), final(self).at()),
            ),
    {
        let ghost d0: int = if start_with_paren {
            1
        } else {
            0
        };
        let mut paren_depth: usize = if start_with_paren {
            1
        } else {
            0
        };
        loop
            invariant
                self.wf(),
                self.src() == old(self).src(),
                self.toks() == old(self).toks(),
                self.span_start() == old(self).span_start(),
                old(self).at() <= self.at() <= self.toks().len(),
                1 <= old(self).at(),
                paren_depth <= self.at() - old(self).at() + 1,
                text_end(self.toks(), old(self).at(), d0) == text_end(
                    self.toks(),
                    self.at(),
                    paren_depth as int,
                ),
            ensures
                self.wf(),
                self.src() == old(self).src(),
                self.toks() == old(self).toks(),
                self.span_start() == old(self).span_start(),
                old(self).at() <= self.at() <= self.toks().len(),
                self.at() == text_end(self.toks(), old(self).at(), d0),
            decreases self.toks().len() - self.at(),
        {
            let pk = self.peek_type();
            match pk {
                Some(TokenType::Text) => {
                    self.consume();
                },
                Some(TokenType::Whitespace) => {
                    self.consume();
                },
                Some(TokenType::LeftParen) => {
                    self.consume();
                    paren_depth = paren_depth + 1;
                },
                Some(TokenType::RightParen) => {
                    if paren_depth > 0 {
                        self.consume();
                        paren_depth = paren_depth - 1;
                    } else {
                        break ;
                    }
                },
                _ => {
                    break ;
                },
            }
        }
        proof {
            if self.at() > 0 {
                crate::lexer::lemma_tokens_ok_at(self.src(), self.toks(), self.at() - 1);
            }
        }
        let sp = self.get_span();
        self.slice_chars(sp.start, sp.end)
    }

    /// Parse one attribute, `@key` or `@key(value)`.
    fn attribute(&mut self) -> (r: Result<Attribute, Error>)
        requires
            old(self).wf(),
        ensures
            final(self).wf(),
            final(self).src() == old(self).src(),
            final(self).toks() == old(self).toks(),
            match p_attr(old(self).src(), old(self).toks(), old(self).at()) {
                Ok((am, j)) => {
                    &&& r matches Ok(a) && a@ == am
                    &&& final(self).at() == j
                    &&& old(self).at() < j <= old(self).toks().len()
                },
                Err(()) => r matches Err(e) && e matches Error::Parse(_, _),
            },
            (kind_at(old(self).toks(), old(self).at()) == Some(TokenType::AttributeIdentifier)
                && kind_at(old(self).toks(), old(self).at() + 1) != Some(TokenType::Whitespace)
                && kind_at(old(self).toks(), old(self).at() + 1) != Some(
                TokenType::RightBracket,
            ) && kind_at(old(self).toks(), old(self).at() + 1) != Some(TokenType::LeftParen))
                ==> (r matches Err(e) && e matches Error::Parse(m, sp) && m@
                == "Unexpected token while parsing attribute"@ && (sp matches Some(s2)
                && s2.start == old(self).span_start() && s2.end == old(self).toks()[old(
                self,
            ).at()].end)),
    {
        let ghost s = self.src();
        let ghost ts = self.toks();
        let ghost i = self.at();
        let key = match self.consume_expect(TokenType::AttributeIdentifier) {
            Ok(t) => t,
            Err(e) => {
                return Err(e);
            },
        };
        proof {
            crate::lexer::lemma_tokens_ok_at(s, ts, i);
        }
        let key_str = self.slice_chars(key.span.start + 1, key.span.end);
        let pk = self.peek_type();
        match pk {
            Some(TokenType::Whitespace) | Some(TokenType::RightBracket) => {
                Ok(Attribute::new_flag(key_str.as_str()))
            },
            Some(TokenType::LeftParen) => {
                match self.consume_expect(TokenType::LeftParen) {
                    Ok(_) => (),
                    Err(e) => {
                        return Err(e);
                    },
                };
                self.start_span();
                let value = self.text(false);
                match self.consume_expect(TokenType::RightParen) {
                    Ok(_) => (),
                    Err(e) => {
                        return Err(e);
                    },
                };
                Ok(Attribute::new_value(key_str.as_str(), value.as_str()))
            },
            _ => {
                Err(
                    Error::Parse(
                        String::from_str("Unexpected token while parsing attribute"),
                        Some(self.get_span()),
                    ),
                )
            },
        }
    }

    /// Parse one element, or report the end of the input.
    fn element(&mut self) -> (r: Option<Result<ParsedElement, Error>>)
        requires
            old(self).wf(),
        ensures
            final(self).wf(),
            final(self).src() == old(self).src(),
            final(self).toks() == old(self).toks(),
            old(self).at() >= old(self).toks().len() ==> r is None && final(self).at() == old(
                self,
            ).at(),
            old(self).at() < old(self).toks().len() ==> (match p_element(
                old(self).src(),
                old(self).toks(),
                old(self).at(),
            ) {
                Ok((em, j)) => {
                    &&& r matches Some(res) && res matches Ok(e) && e@ == em
                    &&& final(self).at() == j
                    &&& old(self).at() < j <= old(self).toks().len()
                },
                Err(()) => r matches Some(res) && res matches Err(er) && er matches Error::Parse(
                    _,
                    _,
                ),
            }),
            (old(self).at() < old(self).toks().len() && stray_kind(
                old(self).toks()[old(self).at()].kind,
            )) ==> ({
                let tok = old(self).toks()[old(self).at()];
                &&& r matches Some(res) && res matches Err(er) && er matches Error::Parse(m, sp)
                    && m@ == "Unexpected token"@ && (sp matches Some(s2) && s2.start == tok.start
                    && s2.end == tok.end)
                &&& final(self).at() == old(self).at() + 1
            }),
        decreases self.toks().len() - self.at(), 0int,
    {
        let ghost s = self.src();
        let ghost ts = self.toks();
        let ghost i = self.at();
        self.start_span();
        let token = match self.consume() {
            Some(t) => t,
            None => {
                return None;
            },
        };
        proof {
            crate::lexer::lemma_tokens_ok_at(s, ts, i);
        }
        match token.token_type {
            TokenType::Text => {
                let t = self.text(false);
                Some(Ok(ParsedElement::Text(t)))
            },
            TokenType::Whitespace => {
                let t = self.text(false);
                Some(Ok(ParsedElement::Text(t)))
            },
            TokenType::LeftParen => {
                let t = self.text(true);
                Some(Ok(ParsedElement::Text(t)))
            },
            TokenType::HardLinebreak => Some(Ok(ParsedElement::HardLinebreak)),
            TokenType::LeftBracket => Some(self.function()),
            _ => Some(
                Err(Error::Parse(String::from_str("Unexpected token"), Some(token.span))),
            ),
        }
    }

    /// Parse a function call, the `[` already consumed.
    fn function(&mut self) -> (r: Result<ParsedElement, Error>)
        requires
            old(self).wf(),
        ensures
            final(self).wf(),
            final(self).src() == old(self).src(),
            final(self).toks() == old(self).toks(),
            match p_function(old(self).src(), old(self).toks(), old(self).at()) {
                Ok((em, j)) => {
                    &&& r matches Ok(e) && e@ == em
                    &&& final(self).at() == j
                    &&& old(self).at() < j <= old(self).toks().len()
                },
                Err(()) => r matches Err(er) && er matches Error::Parse(_, _),
            },
        decreases self.toks().len() - self.at(), 2int,
    {
        let ghost s = self.src();
        let ghost ts = self.toks();
        let ghost i = self.at();
        let identifier = match self.consume_expect(TokenType::FunctionIdentifier) {
            Ok(t) => t,
            Err(e) => {
                return Err(e);
            },
        };
        proof {
            crate::lexer::lemma_tokens_ok_at(s, ts, i);
        }
        let name = self.slice_chars(identifier.span.start + 1, identifier.span.end);
        self.skip_whitespace();
        let ghost a1 = self.at();
        let mut attributes: Vec<Attribute> = Vec::new();
        loop
            invariant
                self.wf(),
                self.src() == s,
                self.toks() == ts,
                s == old(self).src(),
                ts == old(self).toks(),
                i == old(self).at(),
                kind_at(ts, i) == Some(TokenType::FunctionIdentifier),
                a1 == skip_ws_spec(ts, i + 1),
                i + 1 <= a1 <= ts.len(),
                a1 <= self.at() <= ts.len(),
                i < a1,
                match p_attrs(s, ts, self.at()) {
                    Ok((rest, m)) => p_attrs(s, ts, a1) == Ok::<(Seq<AttrModel>, int), ()>(
                        (attributes@.map_values(|x: Attribute| x@) + rest, m),
                    ),
                    Err(()) => p_attrs(s, ts, a1) is Err,
                },
            ensures
                self.wf(),
                self.src() == s,
                self.toks() == ts,
                a1 <= self.at() <= ts.len(),
                p_attrs(s, ts, a1) == Ok::<(Seq<AttrModel>, int), ()>(
                    (attributes@.map_values(|x: Attribute| x@), self.at()),
                ),
            decreases ts.len() - self.at(),
        {
            let pk = self.peek_type();
            let is_attr = match pk {
                Some(TokenType::AttributeIdentifier) => true,
                _ => false,
            };
            if !is_attr {
                proof {
                    assert(p_attrs(s, ts, self.at()) == Ok::<(Seq<AttrModel>, int), ()>(
                        (Seq::empty(), self.at()),
                    ));
                    assert(attributes@.map_values(|x: Attribute| x@) + Seq::<AttrModel>::empty()
                        =~= attributes@.map_values(|x: Attribute| x@));
                }
                break ;
            }
            let ghost cur = self.at();
            let ghost accv = attributes@.map_values(|x: Attribute| x@);
            let a = match self.attribute() {
                Ok(a) => a,
                Err(e) => {
                    return Err(e);
                },
            };
            let ghost attrs_before = attributes@;
            attributes.push(a);
            self.skip_whitespace();
            proof {
                lemma_attr_view_push(attrs_before, a);
                let j = match p_attr(s, ts, cur) {
                    Ok((_, j)) => j,
                    Err(()) => cur,
                };
                match p_attrs(s, ts, self.at()) {
                    Ok((rest, m)) => {
                        assert(p_attrs(s, ts, cur) == Ok::<(Seq<AttrModel>, int), ()>(
                            (seq![a@] + rest, m),
                        ));
                        assert(accv + (seq![a@] + rest) =~= accv.push(a@) + rest);
                    },
                    Err(()) => {},
                }
            }
        }
        let ghost b = self.at();
        let pk = self.peek_type();
        let is_sep = match pk {
            Some(TokenType::ArgumentSeparator) => true,
            _ => false,
        };
        if is_sep {
            match self.consume_expect(TokenType::ArgumentSeparator) {
                Ok(_) => (),
                Err(e) => {
                    return Err(e);
                },
            };
        }
        let ghost c = self.at();
        let ghost attrsv = attributes@.map_values(|x: Attribute| x@);
        let mut arguments: Vec<ParsedElement> = Vec::new();
        loop
            invariant
                self.wf(),
                self.src() == s,
                self.toks() == ts,
                s == old(self).src(),
                ts == old(self).toks(),
                i == old(self).at(),
                kind_at(ts, i) == Some(TokenType::FunctionIdentifier),
                a1 == skip_ws_spec(ts, i + 1),
                i + 1 <= a1 <= ts.len(),
                attrsv == attributes@.map_values(|x: Attribute| x@),
                p_attrs(s, ts, a1) == Ok::<(Seq<AttrModel>, int), ()>((attrsv, b)),
                a1 <= b <= ts.len(),
                c == if kind_at(ts, b) == Some(TokenType::ArgumentSeparator) {
                    b + 1
                } else {
                    b
                },
                c <= self.at() <= ts.len(),
                i < c,
                match p_args(s, ts, self.at()) {
                    Ok((rest, m)) => p_args(s, ts, c) == Ok::<(Seq<ElemModel>, int), ()>(
                        (elems_view(arguments@) + rest, m),
                    ),
                    Err(()) => p_args(s, ts, c) is Err,
                },
            ensures
                self.wf(),
                self.src() == s,
                self.toks() == ts,
                c <= self.at() <= ts.len(),
                kind_at(ts, self.at()) == Some(TokenType::RightBracket),
                p_args(s, ts, c) == Ok::<(Seq<ElemModel>, int), ()>(
                    (elems_view(arguments@), self.at()),
                ),
            decreases ts.len() - self.at(),
        {
            let pk0 = self.peek_type();
            let is_rb = match pk0 {
                Some(TokenType::RightBracket) => true,
                _ => false,
            };
            if is_rb {
                proof {
                    assert(p_args(s, ts, self.at()) == Ok::<(Seq<ElemModel>, int), ()>(
                        (Seq::empty(), self.at()),
                    ));
                    assert(elems_view(arguments@) + Seq::<ElemModel>::empty() =~= elems_view(
                        arguments@,
                    ));
                }
                break ;
            }
            let ghost cur = self.at();
            let ghost accv = elems_view(arguments@);
            let mut argument = match self.block() {
                Ok(v) => v,
                Err(e) => {
                    return Err(e);
                },
            };
            let ghost gview = elems_view(argument@);
            let ghost j = self.at();
            let keep = Self::trim_argument(&mut argument);
            let ghost trimmed = trim_group(gview);
            if keep {
                if argument.len() == 1 {
                    let ghost trimmed_vec = argument@;
                    let e0 = argument.remove(0);
                    proof {
                        crate::parse_tree::lemma_elems_view_len(trimmed_vec);
                        assert(elem_view(e0) == trimmed[0]);
                        crate::parse_tree::lemma_elems_view_push(arguments@, e0);
                    }
                    arguments.push(e0);
                    proof {
                        assert(group_items(trimmed) =~= seq![elem_view(e0)]);
                        assert(elems_view(arguments@) =~= accv + group_items(trimmed));
                    }
                } else {
                    proof {
                        crate::parse_tree::lemma_elems_view_len(argument@);
                    }
                    let blk = Block::new(argument);
                    let elem = ParsedElement::Block(blk);
                    proof {
                        crate::parse_tree::lemma_elems_view_push(arguments@, elem);
                    }
                    arguments.push(elem);
                    proof {
                        assert(group_items(trimmed) =~= seq![ElemModel::Block(trimmed)]);
                        assert(elems_view(arguments@) =~= accv + group_items(trimmed));
                    }
                }
            } else {
                proof {
                    assert(group_items(trimmed) =~= Seq::<ElemModel>::empty());
                    assert(elems_view(arguments@) =~= accv + group_items(trimmed));
                }
            }
            let pk2 = self.peek_type();
            match pk2 {
                Some(TokenType::ArgumentSeparator) => {
                    match self.consume_expect(TokenType::ArgumentSeparator) {
                        Ok(_) => (),
                        Err(e) => {
                            return Err(e);
                        },
                    };
                    proof {
                        match p_args(s, ts, self.at()) {
                            Ok((rest, m)) => {
                                assert(p_args(s, ts, cur) == Ok::<(Seq<ElemModel>, int), ()>(
                                    (group_items(trimmed) + rest, m),
                                ));
                                assert(accv + (group_items(trimmed) + rest) =~= (accv
                                    + group_items(trimmed)) + rest);
                            },
                            Err(()) => {},
                        }
                    }
                },
                Some(TokenType::RightBracket) => {
                    proof {
                        assert(p_args(s, ts, cur) == Ok::<(Seq<ElemModel>, int), ()>(
                            (group_items(trimmed), j),
                        ));
                        match p_args(s, ts, self.at()) {
                            Ok((rest, m)) => {
                                assert(rest =~= Seq::<ElemModel>::empty());
                                assert(accv + group_items(trimmed) + Seq::<ElemModel>::empty()
                                    =~= accv + group_items(trimmed));
                            },
                            Err(()) => {},
                        }
                    }
                },
                _ => {
                    return Err(
                        Error::Parse(
                            String::from_str(
                                "Expected RightBracket at the end of function arguments",
                            ),
                            None,
                        ),
                    );
                },
            }
        }
        match self.consume_expect(TokenType::RightBracket) {
            Ok(_) => (),
            Err(e) => {
                return Err(e);
            },
        };
        Ok(ParsedElement::Function(name, attributes, arguments))
    }

    /// Parse a nested element sequence up to a token that ends the group.
    fn block(&mut self) -> (r: Result<Vec<ParsedElement>, Error>)
        requires
            old(self).wf(),
        ensures
            final(self).wf(),
            final(self).src() == old(self).src(),
            final(self).toks() == old(self).toks(),
            match p_block(old(self).src(), old(self).toks(), old(self).at()) {
                Ok((ems, j)) => {
                    &&& r matches Ok(v) && elems_view(v@) == ems
                    &&& final(self).at() == j
                    &&& old(self).at() <= j <= old(self).toks().len()
                },
                Err(()) => r matches Err(er) && er matches Error::Parse(_, _),
            },
        decreases self.toks().len() - self.at(), 1int,
    {
        let ghost s = self.src();
        let ghost ts = self.toks();
        let ghost i0 = self.at();
        let mut elements: Vec<ParsedElement> = Vec::new();
        loop
            invariant
                self.wf(),
                self.src() == s,
                self.toks() == ts,
                s == old(self).src(),
                ts == old(self).toks(),
                i0 == old(self).at(),
                i0 <= self.at() <= ts.len(),
                match p_block(s, ts, self.at()) {
                    Ok((rest, m)) => p_block(s, ts, i0) == Ok::<(Seq<ElemModel>, int), ()>(
                        (elems_view(elements@) + rest, m),
                    ),
                    Err(()) => p_block(s, ts, i0) is Err,
                },
            ensures
                self.wf(),
                self.src() == s,
                self.toks() == ts,
                i0 <= self.at() <= ts.len(),
                p_block(s, ts, i0) == Ok::<(Seq<ElemModel>, int), ()>(
                    (elems_view(elements@), self.at()),
                ),
            decreases ts.len() - self.at(),
        {
            let pk = self.peek_type();
            let stop = match pk {
                None => true,
                Some(TokenType::AttributeIdentifier) => true,
                Some(TokenType::ArgumentSeparator) => true,
                Some(TokenType::RightBracket) => true,
                _ => false,
            };
            if stop {
                proof {
                    assert(p_block(s, ts, self.at()) == Ok::<(Seq<ElemModel>, int), ()>(
                        (Seq::empty(), self.at()),
                    ));
                    assert(elems_view(elements@) + Seq::<ElemModel>::empty() =~= elems_view(
                        elements@,
                    ));
                }
                break ;
            }
            let ghost cur = self.at();
            let ghost accv = elems_view(elements@);
            match self.element() {
                None => {
                    proof {
                        assert(false);
                    }
                    break ;
                },
                Some(Ok(e)) => {
                    proof {
                        crate::parse_tree::lemma_elems_view_push(elements@, e);
                    }
                    elements.push(e);
                    proof {
                        match p_block(s, ts, self.at()) {
                            Ok((rest, m)) => {
                                assert(p_block(s, ts, cur) == Ok::<(Seq<ElemModel>, int), ()>(
                                    (seq![elem_view(e)] + rest, m),
                                ));
                                assert(accv + seq![elem_view(e)] =~= accv.push(elem_view(e)));
                                assert(accv + (seq![elem_view(e)] + rest) =~= accv.push(
                                    elem_view(e),
                                ) + rest);
                            },
                            Err(()) => {},
                        }
                    }
                },
                Some(Err(er)) => {
                    return Err(er);
                },
            }
        }
        Ok(elements)
    }

    /// Produce the next top-level element: `None` at the end of the input,
    /// otherwise the parsed element or the parse error that ends the
    /// document.
    pub fn next(&mut self) -> (r: Option<Result<ParsedElement, Error>>)
        requires
            old(self).wf(),
        ensures
            final(self).wf(),
            final(self).src() == old(self).src(),
            final(self).toks() == old(self).toks(),
            old(self).at() >= old(self).toks().len() ==> r is None && final(self).at() == old(
                self,
            ).at(),
            old(self).at() < old(self).toks().len() ==> (match p_element(
                old(self).src(),
                old(self).toks(),
                old(self).at(),
            ) {
                Ok((em, j)) => {
                    &&& r matches Some(res) && res matches Ok(e) && e@ == em
                    &&& final(self).at() == j
                    &&& old(self).at() < j <= old(self).toks().len()
                },
                Err(()) => r matches Some(res) && res matches Err(er) && er matches Error::Parse(
                    _,
                    _,
                ),
            }),
            (old(self).at() < old(self).toks().len() && stray_kind(
                old(self).toks()[old(self).at()].kind,
            )) ==> ({
                let tok = old(self).toks()[old(self).at()];
                &&& r matches Some(res) && res matches Err(er) && er matches Error::Parse(m, sp)
                    && m@ == "Unexpected token"@ && (sp matches Some(s2) && s2.start == tok.start
                    && s2.end == tok.end)
                &&& final(self).at() == old(self).at() + 1
            }),
    {
        self.element()
    }

    /// Trim an argument group in place: leading whitespace off a first text
    /// element, trailing whitespace off a last one, either dropped when
    /// emptied. Reports whether the group still holds anything.
    #[verifier::spinoff_prover]
    #[verifier::rlimit(100)]
    fn trim_argument(elements: &mut Vec<ParsedElement>) -> (r: bool)
        ensures
            elems_view(final(elements)@) == trim_group(elems_view(old(elements)@)),
            r == (final(elements)@.len() > 0),
    {
        let ghost g = elems_view(elements@);
        proof {
            crate::parse_tree::lemma_elems_view_len(elements@);
        }
        if elements.len() > 0 {
            let first = elements.remove(0);
            let ghost removed = elements@;
            match first {
                ParsedElement::Text(t) => {
                    let tt = trim_start_str(t.as_str());
                    if tt.as_str().unicode_len() == 0 {
                        proof {
                            crate::parse_tree::lemma_elems_view_subrange(
                                old(elements)@,
                                1,
                                old(elements)@.len() as int,
                            );
                            assert(g.subrange(1, g.len() as int) =~= elems_view(elements@));
                        }
                    } else {
                        elements.insert(0, ParsedElement::Text(tt));
                        proof {
                            crate::parse_tree::lemma_elems_view_len(elements@);
                            crate::parse_tree::lemma_elems_view_len(removed);
                            crate::parse_tree::lemma_elems_view_subrange(
                                old(elements)@,
                                1,
                                old(elements)@.len() as int,
                            );
                            assert(removed =~= old(elements)@.subrange(
                                1,
                                old(elements)@.len() as int,
                            ));
                            let ghost target = g.update(0, ElemModel::Text(trim_start_spec(t@)));
                            assert forall|k: int| 0 <= k < elements@.len() implies elems_view(
                                elements@,
                            )[k] == target[k] by {
                                assert(elems_view(elements@)[k] == elem_view(elements@[k]));
                                if k == 0 {
                                    assert(elements@[0] == ParsedElement::Text(tt));
                                } else {
                                    assert(elements@[k] == removed[k - 1]);
                                    assert(removed[k - 1] == old(elements)@[k]);
                                    assert(g[k] == elem_view(old(elements)@[k]));
                                }
                            }
                            assert(elems_view(elements@) =~= target);
                        }
                    }
                },
                other => {
                    elements.insert(0, other);
                    proof {
                        crate::parse_tree::lemma_elems_view_len(elements@);
                        crate::parse_tree::lemma_elems_view_len(removed);
                        crate::parse_tree::lemma_elems_view_subrange(
                            old(elements)@,
                            1,
                            old(elements)@.len() as int,
                        );
                        assert(removed =~= old(elements)@.subrange(
                            1,
                            old(elements)@.len() as int,
                        ));
                        assert forall|k: int| 0 <= k < elements@.len() implies elems_view(
                            elements@,
                        )[k] == g[k] by {
                            assert(elems_view(elements@)[k] == elem_view(elements@[k]));
                            if k == 0 {
                                assert(elements@[0] == old(elements)@[0]);
                            } else {
                                assert(elements@[k] == removed[k - 1]);
                                assert(removed[k - 1] == old(elements)@[k]);
                            }
                            assert(g[k] == elem_view(old(elements)@[k]));
                        }
                        assert(elems_view(elements@) =~= g);
                    }
                },
            }
        }
        let ghost g1 = elems_view(elements@);
        proof {
            crate::parse_tree::lemma_elems_view_len(elements@);
        }
        if elements.len() > 0 {
            let ghost before_pop = elements@;
            match elements.pop() {
                None => (),
                Some(last) => {
                    let ghost popped = elements@;
                    match last {
                        ParsedElement::Text(t) => {
                            let tt = trim_end_str(t.as_str());
                            if tt.as_str().unicode_len() == 0 {
                                proof {
                                    crate::parse_tree::lemma_elems_view_subrange(
                                        before_pop,
                                        0,
                                        before_pop.len() - 1,
                                    );
                                    assert(before_pop.subrange(0, before_pop.len() - 1)
                                        =~= elements@);
                                    assert(g1.subrange(0, g1.len() - 1) =~= elems_view(
                                        elements@,
                                    ));
                                }
                            } else {
                                elements.push(ParsedElement::Text(tt));
                                proof {
                                    crate::parse_tree::lemma_elems_view_push(
                                        popped,
                                        ParsedElement::Text(tt),
                                    );
                                    crate::parse_tree::lemma_elems_view_len(popped);
                                    crate::parse_tree::lemma_elems_view_subrange(
                                        before_pop,
                                        0,
                                        before_pop.len() - 1,
                                    );
                                    assert(before_pop.subrange(0, before_pop.len() - 1)
                                        =~= popped);
                                    assert(elems_view(elements@) =~= g1.update(
                                        g1.len() - 1,
                                        ElemModel::Text(trim_end_spec(t@)),
                                    ));
                                }
                            }
                        },
                        other => {
                            elements.push(other);
                            proof {
                                crate::parse_tree::lemma_elems_view_push(popped, other);
                                crate::parse_tree::lemma_elems_view_len(popped);
                                crate::parse_tree::lemma_elems_view_subrange(
                                    before_pop,
                                    0,
                                    before_pop.len() - 1,
                                );
                                assert(before_pop.subrange(0, before_pop.len() - 1) =~= popped);
                                assert(elems_view(elements@) =~= g1);
                            }
                        },
                    }
                },
            }
        }
        proof {
            crate::parse_tree::lemma_elems_view_len(elements@);
        }
        !elements.is_empty()
    }

    /// The source text between two character positions.
    fn slice_chars(&self, a: usize, b: usize) -> (r: String)
        requires
            self.wf(),
            a <= b <= self.src().len(),
        ensures
            r@ == self.src().subrange(a as int, b as int),
    {
        self.input.as_str().substring_char(a, b).to_owned()
    }
}

/// Remove leading whitespace from a text.
fn trim_start_str(t: &str) -> (r: String)
    ensures
        r@ == trim_start_spec(t@),
{
    let n = t.unicode_len();
    let mut a: usize = 0;
    loop
        invariant
            a <= n,
            n == t@.len(),
            ws_prefix_end(t@, 0) == ws_prefix_end(t@, a as int),
        ensures
            a <= n,
            a == ws_prefix_end(t@, 0),
        decreases n - a,
    {
        let go = if a < n {
            is_ws_exec(t.get_char(a))
        } else {
            false
        };
        if !go {
            break ;
        }
        a = a + 1;
    }
    t.substring_char(a, n).to_owned()
}

/// Remove trailing whitespace from a text.
fn trim_end_str(t: &str) -> (r: String)
    ensures
        r@ == trim_end_spec(t@),
{
    let n = t.unicode_len();
    let mut b: usize = n;
    loop
        invariant
            b <= n,
            n == t@.len(),
            ws_suffix_start(t@, t@.len() as int) == ws_suffix_start(t@, b as int),
        ensures
            b <= n,
            b == ws_suffix_start(t@, t@.len() as int),
        decreases b,
    {
        let go = if b > 0 {
            is_ws_exec(t.get_char(b - 1))
        } else {
            false
        };
        if !go {
            break ;
        }
        b = b - 1;
    }
    t.substring_char(0, b).to_owned()
}

fn is_ws_exec(c: char) -> (b: bool)
    ensures
        b == crate::lexer::is_ws_char(c),
{
    c == ' ' || c == '\t' || c == '\n' || c == '\r'
}

/// The number of unclosed `(` among the first `i` characters.
pub open spec fn paren_balance(s: Seq<char>, i: int) -> int
    decreases i,
{
    if i <= 0 {
        0
    } else {
        paren_balance(s, i - 1) + (if s[i - 1] == '(' {
            1int
        } else if s[i - 1] == ')' {
            -1int
        } else {
            0int
        })
    }
}

/// Every `)` in the text closes an earlier `(`.
pub open spec fn parens_prefix_closed(s: Seq<char>) -> bool {
    forall|i: int| 0 <= i < s.len() && (#[trigger] s[i]) == ')' ==> paren_balance(s, i) > 0
}

/// A stretch without parentheses leaves the balance unchanged.
proof fn lemma_balance_const(s: Seq<char>, a: int, b: int)
    requires
        0 <= a <= b <= s.len(),
        forall|p: int| a <= p < b ==> (#[trigger] s[p]) != '(' && s[p] != ')',
    ensures
        paren_balance(s, b) == paren_balance(s, a),
    decreases b - a,
{
    if a < b {
        lemma_balance_const(s, a, b - 1);
    }
}

/// The balance within a subrange, in terms of the whole text.
proof fn lemma_balance_subrange(s: Seq<char>, a: int, b: int, i: int)
    requires
        0 <= a <= b <= s.len(),
        0 <= i <= b - a,
    ensures
        paren_balance(s.subrange(a, b), i) == paren_balance(s, a + i) - paren_balance(s, a),
    decreases i,
{
    if i > 0 {
        lemma_balance_subrange(s, a, b, i - 1);
        assert(s.subrange(a, b)[i - 1] == s[a + i - 1]);
    }
}

/// In a token stream of text, whitespace and parenthesis tokens over a text
/// whose every `)` closes an earlier `(`, a text run that enters with the
/// running parenthesis balance as its depth reaches the end of the stream.
proof fn lemma_text_end_parens(s: Seq<char>, ts: Seq<TokenModel>, j: int, d: int)
    requires
        tokens_ok(s, ts),
        0 <= j <= ts.len(),
        forall|k: int|
            0 <= k < ts.len() ==> {
                let kd = (#[trigger] ts[k]).kind;
                kd == TokenType::Text || kd == TokenType::Whitespace || kd == TokenType::LeftParen
                    || kd == TokenType::RightParen
            },
        parens_prefix_closed(s),
        d == paren_balance(
            s,
            if j < ts.len() {
                ts[j].start
            } else {
                s.len() as int
            },
        ),
        d >= 0,
    ensures
        text_end(ts, j, d) == ts.len(),
    decreases ts.len() - j,
{
    if j < ts.len() {
        crate::lexer::lemma_tokens_ok_at(s, ts, j);
        crate::lexer::lemma_tokens_ok_kind_at(s, ts, j);
        let p = ts[j].start;
        let q = ts[j].end;
        if j + 1 < ts.len() {
            crate::lexer::lemma_tokens_ok_at(s, ts, j + 1);
        } else {
            crate::lexer::lemma_tokens_ok_last(s, ts);
        }
        let nx: int = if j + 1 < ts.len() {
            ts[j + 1].start
        } else {
            s.len() as int
        };
        assert(nx == q);
        let kd = ts[j].kind;
        if kd == TokenType::Text {
            assert(crate::lexer::is_text_char(s[p]));
            assert(q == crate::lexer::scan_text(s, p + 1));
            crate::lexer::lemma_scan_text_chars(s, p + 1);
            assert forall|pp: int| p <= pp < q implies (#[trigger] s[pp]) != '(' && s[pp]
                != ')' by {
                assert(crate::lexer::is_text_char(s[pp]));
            }
            lemma_balance_const(s, p, q);
            lemma_text_end_parens(s, ts, j + 1, d);
        } else if kd == TokenType::Whitespace {
            assert(crate::lexer::is_ws_char(s[p]));
            assert(q == crate::lexer::scan_ws(s, p + 1));
            crate::lexer::lemma_scan_ws_chars(s, p + 1);
            assert forall|pp: int| p <= pp < q implies (#[trigger] s[pp]) != '(' && s[pp]
                != ')' by {
                assert(crate::lexer::is_ws_char(s[pp]));
            }
            lemma_balance_const(s, p, q);
            lemma_text_end_parens(s, ts, j + 1, d);
        } else if kd == TokenType::LeftParen {
            assert(s[p] == '(');
            assert(q == p + 1);
            assert(paren_balance(s, q) == d + 1);
            lemma_text_end_parens(s, ts, j + 1, d + 1);
        } else {
            assert(s[p] == ')');
            assert(paren_balance(s, p) > 0);
            assert(q == p + 1);
            assert(paren_balance(s, q) == d - 1);
            lemma_text_end_parens(s, ts, j + 1, d - 1);
        }
    }
}

/// In trivial text, every token is a text, whitespace or parenthesis
/// token.
proof fn lemma_trivial_kinds(t: Seq<char>)
    requires
        forall|i: int| 0 <= i < t.len() ==> !crate::lexer::is_call_char(#[trigger] t[i]),
        forall|i: int| 0 <= i && i + 1 < t.len() ==> !((#[trigger] t[i]) == '\n' && t[i + 1] == '\n'),
    ensures
        forall|j: int|
            0 <= j < lex_from(t, 0).len() ==> {
                let kd = (#[trigger] lex_from(t, 0)[j]).kind;
                kd == TokenType::Text || kd == TokenType::Whitespace || kd == TokenType::LeftParen
                    || kd == TokenType::RightParen
            },
{
    let ts = lex_from(t, 0);
    lemma_lex_ok(t);
    assert forall|j: int| 0 <= j < ts.len() implies {
        let kd = (#[trigger] ts[j]).kind;
        kd == TokenType::Text || kd == TokenType::Whitespace || kd == TokenType::LeftParen || kd
            == TokenType::RightParen
    } by {
        crate::lexer::lemma_tokens_ok_at(t, ts, j);
        crate::lexer::lemma_tokens_ok_kind_at(t, ts, j);
        let p = ts[j].start;
        assert(!crate::lexer::is_call_char(t[p]));
        assert(!crate::lexer::starts_hard_break(t, p));
    }
}

/// Law (round trip of trivial text): a source without call characters,
/// without a two-newline run, whose every `)` closes an earlier `(`, and
/// that is not all whitespace, parses to exactly one text element holding
/// the trimmed source.
#[verifier::spinoff_prover]
#[verifier::rlimit(100)]
pub proof fn lemma_trivial_text_round_trip(s: Seq<char>)
    requires
        forall|i: int| 0 <= i < s.len() ==> !crate::lexer::is_call_char(#[trigger] s[i]),
        forall|i: int| 0 <= i && i + 1 < s.len() ==> !((#[trigger] s[i]) == '\n' && s[i + 1] == '\n'),
        parens_prefix_closed(s),
        trim_spec(s).len() > 0,
    ensures
        p_document(trim_spec(s), lex_from(trim_spec(s), 0), 0) == Ok::<Seq<ElemModel>, ()>(
            seq![ElemModel::Text(trim_spec(s))],
        ),
{
    let t = trim_spec(s);
    let a = ws_prefix_end(s, 0);
    let b = ws_suffix_start(s, s.len() as int);
    crate::lexer::lemma_ws_prefix_end_bounds(s, 0);
    crate::lexer::lemma_ws_suffix_start_bounds(s, s.len() as int);
    assert(a < b && t == s.subrange(a, b));
    assert forall|i: int| 0 <= i < t.len() implies !crate::lexer::is_call_char(
        #[trigger] t[i],
    ) by {
        assert(t[i] == s.subrange(a, b)[i]);
        assert(s.subrange(a, b)[i] == s[a + i]);
    }
    assert forall|i: int| 0 <= i && i + 1 < t.len() implies !((#[trigger] t[i]) == '\n' && t[i
        + 1] == '\n') by {
        assert(t[i] == s.subrange(a, b)[i] && s.subrange(a, b)[i] == s[a + i]);
        assert(t[i + 1] == s.subrange(a, b)[i + 1] && s.subrange(a, b)[i + 1] == s[a + i + 1]);
    }
    crate::lexer::lemma_ws_prefix_chars(s, 0);
    assert forall|p: int| 0 <= p < a implies (#[trigger] s[p]) != '(' && s[p] != ')' by {
        assert(crate::lexer::is_ws_char(s[p]));
    }
    lemma_balance_const(s, 0, a);
    assert(paren_balance(s, a) == 0);
    assert forall|i: int| 0 <= i < t.len() && (#[trigger] t[i]) == ')' implies paren_balance(
        t,
        i,
    ) > 0 by {
        lemma_balance_subrange(s, a, b, i);
        assert(t[i] == s.subrange(a, b)[i] && s.subrange(a, b)[i] == s[a + i]);
        assert(paren_balance(s, a + i) > 0);
    }
    assert(parens_prefix_closed(t));
    let ts = lex_from(t, 0);
    lemma_trivial_kinds(t);
    lemma_lex_ok(t);
    assert(ts.len() > 0);
    crate::lexer::lemma_tokens_ok_at(t, ts, 0);
    crate::lexer::lemma_tokens_ok_kind_at(t, ts, 0);
    crate::lexer::lemma_tokens_ok_last(t, ts);
    assert(ts[0].start == 0);
    lemma_text_end_parens(t, ts, 0, 0);
    assert(ts[0].kind != TokenType::RightParen) by {
        if ts[0].kind == TokenType::RightParen {
            assert(t[0] == ')');
            assert(paren_balance(t, 0) > 0);
        }
    }
    let r = p_element(t, ts, 0);
    assert(ts[ts.len() - 1].end == t.len());
    assert(t.subrange(ts[0].start, ts[ts.len() - 1].end) =~= t);
    assert(r == Ok::<(ElemModel, int), ()>((ElemModel::Text(t), ts.len() as int)));
    assert(p_document(t, ts, ts.len() as int) == Ok::<Seq<ElemModel>, ()>(Seq::empty()));
    assert(seq![ElemModel::Text(t)] + Seq::<ElemModel>::empty() =~= seq![ElemModel::Text(t)]);
}

/// Concatenating well-formed element sequences keeps them well formed.
proof fn lemma_elems_m_wf_concat(a: Seq<ElemModel>, b: Seq<ElemModel>)
    requires
        elems_m_wf(a),
        elems_m_wf(b),
    ensures
        elems_m_wf(a + b),
{
    lemma_elems_m_wf_index(a);
    lemma_elems_m_wf_index(b);
    lemma_elems_m_wf_index(a + b);
    assert forall|i: int| 0 <= i < (a + b).len() implies elem_m_wf(#[trigger] (a + b)[i]) by {
        if i < a.len() {
            assert((a + b)[i] == a[i]);
        } else {
            assert((a + b)[i] == b[i - a.len()]);
        }
    }
}

/// Trimming an argument group keeps its elements well formed: it only
/// shortens texts or drops one.
proof fn lemma_trim_group_wf(g: Seq<ElemModel>)
    requires
        elems_m_wf(g),
    ensures
        elems_m_wf(trim_group(g)),
{
    lemma_elems_m_wf_index(g);
    let g1 = if g.len() > 0 {
        match g[0] {
            ElemModel::Text(t) => {
                let tt = trim_start_spec(t);
                if tt.len() == 0 {
                    g.subrange(1, g.len() as int)
                } else {
                    g.update(0, ElemModel::Text(tt))
                }
            },
            _ => g,
        }
    } else {
        g
    };
    lemma_elems_m_wf_index(g1);
    assert forall|i: int| 0 <= i < g1.len() implies elem_m_wf(#[trigger] g1[i]) by {
        if g.len() > 0 && g[0] is Text && trim_start_spec(g[0]->Text_0).len() == 0 {
            assert(g1[i] == g[i + 1]);
        } else if i >= 1 {
            assert(g1[i] == g[i]);
        }
    }
    lemma_elems_m_wf_index(trim_group(g));
    assert forall|i: int| 0 <= i < trim_group(g).len() implies elem_m_wf(
        #[trigger] trim_group(g)[i],
    ) by {
        if g1.len() > 0 && g1[g1.len() - 1] is Text && trim_end_spec(
            g1[g1.len() - 1]->Text_0,
        ).len() == 0 {
            assert(trim_group(g)[i] == g1[i]);
        } else if g1.len() > 0 && g1[g1.len() - 1] is Text {
            if i < g1.len() - 1 {
                assert(trim_group(g)[i] == g1[i]);
            }
        } else {
            assert(trim_group(g)[i] == g1[i]);
        }
    }
}

proof fn lemma_p_function_wf(s: Seq<char>, ts: Seq<TokenModel>, i: int)
    ensures
        p_function(s, ts, i) matches Ok((e, _)) ==> elem_m_wf(e),
    decreases ts.len() - i, 3int,
{
    if kind_at(ts, i) == Some(TokenType::FunctionIdentifier) {
        let a = skip_ws_spec(ts, i + 1);
        let a0 = if a > i + 1 {
            a
        } else {
            i + 1
        };
        let a1 = if a0 <= ts.len() {
            a0
        } else {
            ts.len() as int
        };
        match p_attrs(s, ts, a1) {
            Err(()) => {},
            Ok((_, b)) => {
                let b0 = if b > a1 {
                    b
                } else {
                    a1
                };
                let b1 = if b0 <= ts.len() {
                    b0
                } else {
                    ts.len() as int
                };
                let c = if kind_at(ts, b1) == Some(TokenType::ArgumentSeparator) {
                    b1 + 1
                } else {
                    b1
                };
                lemma_p_args_wf(s, ts, c);
            },
        }
    }
}

proof fn lemma_p_args_wf(s: Seq<char>, ts: Seq<TokenModel>, i: int)
    ensures
        p_args(s, ts, i) matches Ok((items, _)) ==> elems_m_wf(items),
    decreases ts.len() - i, 2int,
{
    if kind_at(ts, i) == Some(TokenType::RightBracket) {
    } else {
        match p_block(s, ts, i) {
            Err(()) => {},
            Ok((group, j)) => {
                lemma_p_block_wf(s, ts, i);
                let j0 = if j > i {
                    j
                } else {
                    i
                };
                let j1 = if j0 <= ts.len() {
                    j0
                } else {
                    ts.len() as int
                };
                let trimmed = trim_group(group);
                lemma_trim_group_wf(group);
                let items = group_items(trimmed);
                assert(elems_m_wf(Seq::<ElemModel>::empty()));
                if trimmed.len() >= 2 {
                    assert(elem_m_wf(ElemModel::Block(trimmed)));
                    assert(seq![ElemModel::Block(trimmed)].subrange(1, 1) =~= Seq::<
                        ElemModel,
                    >::empty());
                }
                assert(elems_m_wf(items));
                if kind_at(ts, j1) == Some(TokenType::ArgumentSeparator) {
                    lemma_p_args_wf(s, ts, j1 + 1);
                    match p_args(s, ts, j1 + 1) {
                        Err(()) => {},
                        Ok((rest, _)) => {
                            lemma_elems_m_wf_concat(items, rest);
                        },
                    }
                }
            },
        }
    }
}

proof fn lemma_p_block_wf(s: Seq<char>, ts: Seq<TokenModel>, i: int)
    ensures
        p_block(s, ts, i) matches Ok((es, _)) ==> elems_m_wf(es),
    decreases ts.len() - i, 1int,
{
    if 0 <= i && i < ts.len() {
        let k = ts[i].kind;
        if !(k == TokenType::AttributeIdentifier || k == TokenType::ArgumentSeparator || k
            == TokenType::RightBracket) {
            match p_element(s, ts, i) {
                Err(()) => {},
                Ok((e, j)) => {
                    lemma_p_element_wf(s, ts, i);
                    let j0 = if j > i {
                        j
                    } else {
                        i + 1
                    };
                    let j1 = if j0 <= ts.len() {
                        j0
                    } else {
                        ts.len() as int
                    };
                    lemma_p_block_wf(s, ts, j1);
                    match p_block(s, ts, j1) {
                        Err(()) => {},
                        Ok((rest, _)) => {
                            assert(seq![e].subrange(1, 1) =~= Seq::<ElemModel>::empty());
                            assert(elems_m_wf(Seq::<ElemModel>::empty()));
                            assert(elems_m_wf(seq![e]));
                            lemma_elems_m_wf_concat(seq![e], rest);
                        },
                    }
                },
            }
        }
    }
}

/// Law (blocks are collapsed): every element the parser yields is well
/// formed — no block node below it holds fewer than two children.
pub proof fn lemma_p_element_wf(s: Seq<char>, ts: Seq<TokenModel>, i: int)
    ensures
        p_element(s, ts, i) matches Ok((e, _)) ==> elem_m_wf(e),
    decreases ts.len() - i, 0int,
{
    if 0 <= i && i < ts.len() {
        if ts[i].kind == TokenType::LeftBracket {
            lemma_p_function_wf(s, ts, i + 1);
        }
    }
}

/// Law (blocks are collapsed), for a whole document: no block node anywhere
/// in a parsed document holds fewer than two children.
pub proof fn lemma_p_document_wf(s: Seq<char>, ts: Seq<TokenModel>, i: int)
    ensures
        p_document(s, ts, i) matches Ok(es) ==> elems_m_wf(es),
    decreases ts.len() - i, 4int,
{
    if 0 <= i && i < ts.len() {
        match p_element(s, ts, i) {
            Err(()) => {},
            Ok((e, j)) => {
                lemma_p_element_wf(s, ts, i);
                let j0 = if j > i {
                    j
                } else {
                    i + 1
                };
                let j1 = if j0 <= ts.len() {
                    j0
                } else {
                    ts.len() as int
                };
                lemma_p_document_wf(s, ts, j1);
                match p_document(s, ts, j1) {
                    Err(()) => {},
                    Ok(rest) => {
                        assert(seq![e].subrange(1, 1) =~= Seq::<ElemModel>::empty());
                        assert(elems_m_wf(Seq::<ElemModel>::empty()));
                        assert(elems_m_wf(seq![e]));
                        lemma_elems_m_wf_concat(seq![e], rest);
                    },
                }
            },
        }
    }
}

/// Mapping attributes to their models commutes with appending one.
proof fn lemma_attr_view_push(v: Seq<Attribute>, a: Attribute)
    ensures
        v.push(a).map_values(|x: Attribute| x@) == v.map_values(|x: Attribute| x@).push(a@),
{
    assert(v.push(a).map_values(|x: Attribute| x@) =~= v.map_values(|x: Attribute| x@).push(a@));
}

/// Compare two token kinds.
fn token_type_eq(a: TokenType, b: TokenType) -> (r: bool)
    ensures
        r == (a == b),
{
    a == b
}

} // verus!
