//! Parser: turns tokens into conditional elements, pipelines and commands,
//! and collects the command substitutions it meets.
use vstd::prelude::*;

use crate::ast::{
    ids_in_order, CommandSubstitution, CommandView, ConditionalElement, Connector, ElementView,
    EnvRef, ParseError, ParseResult, ParsedWord, Pipeline, Redirect, RedirectKind, ResultView,
    SimpleCommand, WordSegment, WordView,
};
use crate::grammar::{
    command_from, default_view, elements_from, fail_message, is_blank_command,
    parse_tokens, pipeline_from, prefix_scan, rescan, rescan_from, skip_newlines, subst_text,
    token_text, trim, escape_dq, Elements, Fail, FailKind, Step,
};
use crate::lexer::{
    lemma_token_starts, lex, lex_chars, lex_error_message, starts_view, token_starts, tokens_view,
    Token, TokenView,
};
use crate::scan::{dollar_form, scan_literal_end, trim_chars, Found};
use crate::text::{
    byte_offset, chars_of, clamp_to_u32, clamp_u32, string_from_chars, string_from_range, utf8_offset,
};

verus! {

/// A parser over a token sequence: a cursor, and the substitutions met so far.
pub struct Parser {
    tokens: Vec<Token>,
    pos: usize,
    substitutions: Vec<CommandSubstitution>,
    next_subst_id: u32,
}

/// The error `e` reports the failure `f`.
pub open spec fn error_matches(e: ParseError, f: Fail) -> bool {
    e.message@ == fail_message(f.kind) && f.pos >= 0 && e.position == clamp_to_u32(f.pos as nat)
}

/// The index of the character where the token at index `k` of the tokens
/// of `s` starts, or the length of `s` where there is no such token.
pub open spec fn failure_offset(s: Seq<char>, k: int) -> int {
    if 0 <= k < token_starts(s).len() {
        token_starts(s)[k]
    } else {
        s.len() as int
    }
}

pub open spec fn words_view(ws: Seq<WordSegment>) -> WordView {
    ws.map_values(|s: WordSegment| s@)
}

pub open spec fn commands_view(cs: Seq<SimpleCommand>) -> Seq<CommandView> {
    cs.map_values(|c: SimpleCommand| c@)
}

pub open spec fn elements_view(es: Seq<ConditionalElement>) -> Seq<ElementView> {
    es.map_values(|e: ConditionalElement| e@)
}

pub open spec fn prepend_commands(cs: Seq<CommandView>, r: Step<Seq<CommandView>>) -> Step<
    Seq<CommandView>,
> {
    match r {
        Ok((ds, q, s)) => Ok((cs + ds, q, s)),
        Err(f) => Err(f),
    }
}

pub open spec fn prepend_elements(es: Seq<ElementView>, r: Elements) -> Elements {
    match r {
        Ok((ds, s)) => Ok((es + ds, s)),
        Err(f) => Err(f),
    }
}

/// A number for each kind of token, payload aside.
pub open spec fn kind_of(t: TokenView) -> int {
    match t {
        TokenView::Word(_) => 0,
        TokenView::SingleQuoted(_) => 1,
        TokenView::DoubleQuoted(_) => 2,
        TokenView::Pipe => 3,
        TokenView::And => 4,
        TokenView::Or => 5,
        TokenView::RedirectOut => 6,
        TokenView::RedirectAppend => 7,
        TokenView::RedirectIn => 8,
        TokenView::SubstStart => 9,
        TokenView::ParenClose => 10,
        TokenView::Newline => 11,
    }
}

fn token_kind(t: &Token) -> (r: u8)
    ensures
        r as int == kind_of(t@),
{
    match t {
        Token::Word(_) => 0,
        Token::SingleQuoted(_) => 1,
        Token::DoubleQuoted(_) => 2,
        Token::Pipe => 3,
        Token::And => 4,
        Token::Or => 5,
        Token::RedirectOut => 6,
        Token::RedirectAppend => 7,
        Token::RedirectIn => 8,
        Token::SubstStart => 9,
        Token::ParenClose => 10,
        Token::Newline => 11,
    }
}

/// Why and where parsing stopped: the kind of failure and the index of the
/// token at which it was found.
pub struct Failure {
    pub kind: FailKind,
    pub at: usize,
}

/// `e` is the failure `f`.
pub open spec fn failure_is(e: Failure, f: Fail) -> bool {
    e.kind == f.kind && e.at as int == f.pos
}

/// The error for a failure of the given kind, reported at `position`.
fn error_of(kind: FailKind, position: u32) -> (e: ParseError)
    ensures
        e.message@ == fail_message(kind),
        e.position == position,
{
    match kind {
        FailKind::UnterminatedSubst => ParseError::new("unterminated command substitution", position),
        FailKind::TooManySubst => ParseError::new("too many command substitutions", position),
        FailKind::MissingTarget => ParseError::new("Expected redirect target", position),
        FailKind::UnexpectedToken => ParseError::new("unexpected token", position),
    }
}

proof fn lemma_prefix_scan(
    a1: WordView,
    b1: Seq<Seq<char>>,
    a2: WordView,
    b2: Seq<Seq<char>>,
    r: Result<(WordView, Seq<Seq<char>>), FailKind>,
)
    ensures
        prefix_scan(a1, b1, prefix_scan(a2, b2, r)) == prefix_scan(a1 + a2, b1 + b2, r),
{
    match r {
        Ok((a, b)) => {
            assert(a1 + (a2 + a) =~= (a1 + a2) + a);
            assert(b1 + (b2 + b) =~= (b1 + b2) + b);
        },
        Err(_) => {},
    }
}

proof fn lemma_prefix_command(c1: CommandView, c2: CommandView, r: Step<CommandView>)
    ensures
        crate::grammar::prefix_command(c1, crate::grammar::prefix_command(c2, r))
            == crate::grammar::prefix_command(
            CommandView { args: c1.args + c2.args, redirects: c1.redirects + c2.redirects },
            r,
        ),
{
    match r {
        Ok((d, q, s)) => {
            assert(c1.args + (c2.args + d.args) =~= (c1.args + c2.args) + d.args);
            assert(c1.redirects + (c2.redirects + d.redirects) =~= (c1.redirects + c2.redirects)
                + d.redirects);
        },
        Err(_) => {},
    }
}

proof fn lemma_skip_newlines_ge(t: Seq<TokenView>, p: int)
    requires
        0 <= p,
    ensures
        p <= skip_newlines(t, p),
    decreases t.len() - p,
{
    if 0 <= p < t.len() && t[p] is Newline {
        lemma_skip_newlines_ge(t, p + 1);
    }
}

/// The source text of a token; a double-quoted string is written with `\\`
/// and `"` escaped, so that lexing the text gives the token back.
fn token_to_string(tok: &Token) -> (r: String)
    ensures
        r@ == token_text(tok@),
{
    let mut v: Vec<char> = Vec::new();
    match tok {
        Token::Word(s) => {
            return s.clone();
        },
        Token::SingleQuoted(s) => {
            v.push('\'');
            let mut body = chars_of(s.as_str());
            v.append(&mut body);
            v.push('\'');
        },
        Token::DoubleQuoted(s) => {
            v.push('"');
            let body = chars_of(s.as_str());
            let mut k: usize = 0;
            while k < body.len()
                invariant
                    k <= body.len(),
                    v@ == seq!['"'] + escape_dq(body@.take(k as int)),
                decreases body.len() - k,
            {
                let c = body[k];
                if c == '\\' || c == '"' {
                    v.push('\\');
                }
                v.push(c);
                proof {
                    assert(body@.take(k + 1).drop_last() =~= body@.take(k as int));
                    assert(v@ =~= seq!['"'] + escape_dq(body@.take(k + 1)));
                }
                k = k + 1;
            }
            assert(body@.take(k as int) =~= body@);
            v.push('"');
        },
        Token::Pipe => {
            v.push('|');
        },
        Token::And => {
            v.push('&');
            v.push('&');
        },
        Token::Or => {
            v.push('|');
            v.push('|');
        },
        Token::RedirectOut => {
            v.push('>');
        },
        Token::RedirectAppend => {
            v.push('>');
            v.push('>');
        },
        Token::RedirectIn => {
            v.push('<');
        },
        Token::SubstStart => {
            v.push('$');
            v.push('(');
        },
        Token::ParenClose => {
            v.push(')');
        },
        Token::Newline => {
            v.push('\n');
        },
    }
    assert(v@ =~= token_text(tok@));
    string_from_chars(&v)
}

impl Parser {
    /// The tokens, as values.
    pub closed spec fn toks(&self) -> Seq<TokenView> {
        tokens_view(self.tokens@)
    }

    /// The index of the next token.
    pub closed spec fn at(&self) -> int {
        self.pos as int
    }

    /// The bodies of the substitutions met so far, each at its id.
    pub closed spec fn table(&self) -> Seq<Seq<char>> {
        self.substitutions@.map_values(|s: CommandSubstitution| s.input@)
    }

    /// The cursor is within the tokens, and the substitutions are numbered
    /// from 0 in the order met, the next id following the last.
    pub closed spec fn wf(&self) -> bool {
        &&& self.pos <= self.tokens.len()
        &&& self.next_subst_id as int == self.substitutions.len()
        &&& ids_in_order(self.substitutions@)
    }

    /// A parser at the start of `tokens`, with no substitution met.
    pub fn new(tokens: Vec<Token>) -> (r: Parser)
        ensures
            r.wf(),
            r.toks() == tokens_view(tokens@),
            r.at() == 0,
            r.table() == Seq::<Seq<char>>::empty(),
    {
        let r = Parser { tokens, pos: 0, substitutions: Vec::new(), next_subst_id: 0 };
        assert(r.table() =~= Seq::<Seq<char>>::empty());
        r
    }

    /// Lexes and parses `input`. A failure reports the byte offset of the
    /// token where it was found, or of the end of the input.
    pub fn parse_input(input: &str) -> (r: Result<ParseResult, ParseError>)
        ensures
            match lex(input@) {
                Err(i) => r matches Err(e) && 0 <= i < input@.len() && e.message@
                    == lex_error_message(input@[i]) && e.position == clamp_to_u32(
                    byte_offset(input@, i),
                ),
                Ok(ts) => match parse_tokens(ts) {
                    Ok((es, subs)) => r matches Ok(res) && res@ == ResultView {
                        elements: es,
                        substitutions: subs,
                    } && ids_in_order(res.substitutions@),
                    Err(f) => r matches Err(e) && e.message@ == fail_message(f.kind)
                        && e.position == clamp_to_u32(
                        byte_offset(input@, failure_offset(input@, f.pos)),
                    ),
                },
            },
    {
        let s = chars_of(input);
        let (tokens, starts) = match lex_chars(&s) {
            Ok(lexed) => lexed,
            Err(e) => {
                return Err(e);
            },
        };
        proof {
            lemma_token_starts(s@, 0);
        }
        let mut parser = Parser::new(tokens);
        match parser.parse_elements() {
            Ok(res) => Ok(res),
            Err(f) => {
                let offset = if f.at < starts.len() {
                    assert(starts_view(starts@)[f.at as int] == starts@[f.at as int] as int);
                    starts[f.at]
                } else {
                    s.len()
                };
                Err(error_of(f.kind, clamp_u32(utf8_offset(&s, offset))))
            },
        }
    }

    fn peek(&self) -> (r: Option<&Token>)
        ensures
            match r {
                Some(t) => self.pos < self.tokens.len() && *t == self.tokens@[self.pos as int],
                None => self.pos >= self.tokens.len(),
            },
    {
        if self.pos < self.tokens.len() {
            Some(&self.tokens[self.pos])
        } else {
            None
        }
    }

    /// Whether the next token is of the same kind as `expected`.
    fn check(&self, expected: &Token) -> (r: bool)
        ensures
            r == (self.pos < self.tokens.len() && kind_of(self.toks()[self.pos as int]) == kind_of(
                expected@,
            )),
    {
        match self.peek() {
            Some(t) => token_kind(t) == token_kind(expected),
            None => false,
        }
    }

    fn advance(&mut self)
        ensures
            final(self).tokens == old(self).tokens,
            final(self).substitutions == old(self).substitutions,
            final(self).next_subst_id == old(self).next_subst_id,
            final(self).pos == if old(self).pos < old(self).tokens.len() {
                old(self).pos + 1
            } else {
                old(self).pos as int
            },
    {
        if !self.is_at_end() {
            self.pos = self.pos + 1;
        }
    }

    fn is_at_end(&self) -> (r: bool)
        ensures
            r == (self.pos >= self.tokens.len()),
    {
        self.pos >= self.tokens.len()
    }

    /// Rescans the text of a word token into segments, adding the command
    /// substitutions it holds to the table. Fails at the current token, and
    /// then leaves the table as it was.
    fn parse_word(&mut self, text: &String) -> (r: Result<ParsedWord, Failure>)
        requires
            old(self).wf(),
        ensures
            final(self).wf(),
            final(self).tokens == old(self).tokens,
            final(self).pos == old(self).pos,
            match rescan(text@, old(self).table().len()) {
                Ok((w, b)) => r matches Ok(pw) && pw@ == w && final(self).table() == old(
                    self,
                ).table() + b,
                Err(k) => r matches Err(e) && failure_is(e, Fail { kind: k, pos: old(self).pos as int })
                    && final(self).table() == old(self).table(),
            },
    {
        reveal(rescan_from);
        reveal(rescan);
        let s = chars_of(text.as_str());
        let ghost base = self.table().len();
        let ghost t0 = self.table();
        let ghost bodies: Seq<Seq<char>> = Seq::empty();
        let mut segs: Vec<WordSegment> = Vec::new();
        let mut found: Vec<CommandSubstitution> = Vec::new();
        let mut next: u32 = self.next_subst_id;
        let mut i: usize = 0;
        proof {
            assert(found@.map_values(|c: CommandSubstitution| c.input@) =~= bodies);
            assert(words_view(segs@) =~= Seq::empty());
            match rescan_from(s@, 0, base) {
                Ok((a, b)) => {
                    assert(Seq::<crate::ast::SegmentView>::empty() + a =~= a);
                    assert(Seq::<Seq<char>>::empty() + b =~= b);
                },
                Err(_) => {},
            }
        }
        while i < s.len()
            invariant
                s@ == text@,
                i <= s.len(),
                self.wf(),
                *self == *old(self),
                base == t0.len(),
                t0 == self.table(),
                next as int == base + found.len(),
                forall|k: int| 0 <= k < found.len() ==> #[trigger] found@[k].id == base + k,
                found@.map_values(|c: CommandSubstitution| c.input@) == bodies,
                rescan_from(s@, 0, base) == prefix_scan(
                    words_view(segs@),
                    bodies,
                    rescan_from(s@, i as int, base + bodies.len()),
                ),
            decreases s.len() - i,
        {
            proof {
                reveal(rescan_from);
                reveal(rescan);
            }
            let ghost sv = words_view(segs@);
            let ghost fb = found@;
            match dollar_form(&s, i) {
                Found::Subst(a, b, j) => {
                    if next == u32::MAX {
                        assert(self.table().len() == self.substitutions@.len());
                        assert(fb.map_values(|c: CommandSubstitution| c.input@).len() == fb.len());
                        assert(base + bodies.len() == u32::MAX);
                        assert(crate::grammar::form_at(s@, i as int) == crate::grammar::Form::Subst(
                            a as int,
                            b as int,
                            j as int,
                        ));
                        assert(rescan_from(s@, i as int, base + bodies.len()) == Err::<
                            (WordView, Seq<Seq<char>>),
                            FailKind,
                        >(FailKind::TooManySubst));
                        return Err(Failure { kind: FailKind::TooManySubst, at: self.pos });
                    }
                    let id = next;
                    let body = string_from_range(&s, a, b);
                    let ghost bv = body@;
                    found.push(CommandSubstitution { id, input: body });
                    next = id + 1;
                    segs.push(WordSegment::CommandSubst(id));
                    proof {
                        assert(fb.map_values(|c: CommandSubstitution| c.input@).len() == fb.len());
                        assert(found@.map_values(|c: CommandSubstitution| c.input@) =~= bodies.push(bv));
                        assert(words_view(segs@) =~= sv + seq![crate::ast::SegmentView::CommandSubst(id as nat)]);
                        lemma_prefix_scan(
                            sv,
                            bodies,
                            seq![crate::ast::SegmentView::CommandSubst(id as nat)],
                            seq![bv],
                            rescan_from(s@, j as int, base + bodies.len() + 1),
                        );
                        bodies = bodies + seq![bv];
                        assert(bodies =~= found@.map_values(|c: CommandSubstitution| c.input@));
                    }
                    i = j;
                },
                Found::Unterminated => {
                    return Err(Failure { kind: FailKind::UnterminatedSubst, at: self.pos });
                },
                Found::Var(a, b, d, j) => {
                    let name = string_from_range(&s, a, b);
                    let default = match d {
                        Some((x, y)) => Some(string_from_range(&s, x, y)),
                        None => None,
                    };
                    let seg = WordSegment::EnvVar(EnvRef { name, default });
                    let ghost gv = seg@;
                    assert(gv == crate::ast::SegmentView::EnvVar(
                        s@.subrange(a as int, b as int),
                        default_view(s@, crate::scan::range_view(d)),
                    ));
                    segs.push(seg);
                    proof {
                        assert(words_view(segs@) =~= sv + seq![gv]);
                        lemma_prefix_scan(
                            sv,
                            bodies,
                            seq![gv],
                            Seq::empty(),
                            rescan_from(s@, j as int, base + bodies.len()),
                        );
                        assert(bodies + Seq::<Seq<char>>::empty() =~= bodies);
                    }
                    i = j;
                },
                Found::Malformed => {
                    let lit = string_from_range(&s, i, s.len());
                    segs.push(WordSegment::Literal(lit));
                    proof {
                        let gv = crate::ast::SegmentView::Literal(s@.subrange(i as int, s@.len() as int));
                        assert(words_view(segs@) =~= sv + seq![gv]);
                        assert(bodies + Seq::<Seq<char>>::empty() =~= bodies);
                        assert(words_view(segs@) + Seq::<crate::ast::SegmentView>::empty() =~= words_view(segs@));
                    }
                    i = s.len();
                },
                Found::Plain => {
                    let k = scan_literal_end(&s, i + 1);
                    let lit = string_from_range(&s, i, k);
                    segs.push(WordSegment::Literal(lit));
                    proof {
                        let gv = crate::ast::SegmentView::Literal(s@.subrange(i as int, k as int));
                        assert(words_view(segs@) =~= sv + seq![gv]);
                        lemma_prefix_scan(
                            sv,
                            bodies,
                            seq![gv],
                            Seq::empty(),
                            rescan_from(s@, k as int, base + bodies.len()),
                        );
                        assert(bodies + Seq::<Seq<char>>::empty() =~= bodies);
                    }
                    i = k;
                },
            }
        }
        proof {
            assert(words_view(segs@) + Seq::<crate::ast::SegmentView>::empty() =~= words_view(segs@));
            assert(bodies + Seq::<Seq<char>>::empty() =~= bodies);
        }
        let ghost old_subs = self.substitutions@;
        let ghost fv = found@;
        self.substitutions.append(&mut found);
        self.next_subst_id = next;
        proof {
            assert(self.substitutions@ == old_subs + fv);
            assert(self.table() =~= t0 + bodies);
            assert forall|k: int| 0 <= k < self.substitutions@.len() implies #[trigger] self.substitutions@[k].id == k by {
                if k >= old_subs.len() {
                    assert(self.substitutions@[k] == fv[k - old_subs.len()]);
                } else {
                    assert(self.substitutions@[k] == old_subs[k]);
                }
            }
        }
        if segs.len() == 0 {
            segs.push(WordSegment::Literal(String::new()));
            proof {
                assert(words_view(segs@) =~= seq![crate::ast::SegmentView::Literal(Seq::empty())]);
            }
        }
        let w = ParsedWord { segments: segs };
        assert(w@ == words_view(w.segments@));
        Ok(w)
    }

    /// Reads the body of a `$(` whose token was just passed, up to its
    /// closing `)`, as text.
    fn parse_command_substitution(&mut self) -> (r: Result<String, Failure>)
        requires
            old(self).wf(),
            1 <= old(self).pos,
        ensures
            final(self).wf(),
            final(self).tokens == old(self).tokens,
            final(self).substitutions == old(self).substitutions,
            final(self).next_subst_id == old(self).next_subst_id,
            old(self).pos <= final(self).pos,
            match subst_text(old(self).toks(), old(self).pos as int, 1) {
                Some((text, q)) => r matches Ok(s) && s@ == trim(text) && final(self).pos == q,
                None => r matches Err(e) && failure_is(
                    e,
                    Fail { kind: FailKind::UnterminatedSubst, pos: old(self).pos - 1 },
                ),
            },
    {
        reveal(subst_text);
        let start = self.pos;
        let mut content: Vec<char> = Vec::new();
        let mut depth: usize = 1;
        proof {
            match subst_text(self.toks(), start as int, 1) {
                Some((a, q)) => {
                    assert(Seq::<char>::empty() + a =~= a);
                },
                None => {},
            }
        }
        while self.pos < self.tokens.len()
            invariant
                self.wf(),
                self.tokens == old(self).tokens,
                self.substitutions == old(self).substitutions,
                self.next_subst_id == old(self).next_subst_id,
                start == old(self).pos,
                1 <= start <= self.pos <= self.tokens.len(),
                1 <= depth <= self.pos - start + 1,
                subst_text(self.toks(), start as int, 1) == crate::grammar::prefix_subst_text(
                    content@,
                    subst_text(self.toks(), self.pos as int, depth as nat),
                ),
            decreases self.tokens.len() - self.pos,
        {
            proof {
                reveal(subst_text);
            }
            let ghost before = content@;
            let ghost p = self.pos as int;
            let ghost tp = self.toks()[p];
            match &self.tokens[self.pos] {
                Token::SubstStart => {
                    content.push('$');
                    content.push('(');
                    depth = depth + 1;
                    proof {
                        assert(content@ =~= before + seq!['$', '(']);
                    }
                },
                Token::ParenClose => {
                    if depth == 1 {
                        self.pos = self.pos + 1;
                        proof {
                            assert(before + Seq::<char>::empty() =~= before);
                        }
                        let trimmed = trim_chars(&content);
                        return Ok(string_from_chars(&trimmed));
                    }
                    content.push(')');
                    depth = depth - 1;
                    proof {
                        assert(content@ =~= before + seq![')']);
                    }
                },
                tok => {
                    let text = token_to_string(tok);
                    let mut piece = chars_of(text.as_str());
                    content.append(&mut piece);
                    content.push(' ');
                    proof {
                        assert(content@ =~= before + (token_text(tp) + seq![' ']));
                    }
                },
            }
            proof {
                match subst_text(self.toks(), p + 1, depth as nat) {
                    Some((a, q)) => {
                        assert(before + ((content@.subrange(before.len() as int, content@.len() as int)) + a) =~= content@ + a);
                    },
                    None => {},
                }
            }
            self.pos = self.pos + 1;
        }
        Err(Failure { kind: FailKind::UnterminatedSubst, at: start - 1 })
    }

    /// The word after a redirection operator.
    fn parse_redirect_target(&mut self) -> (r: Result<ParsedWord, Failure>)
        requires
            old(self).wf(),
        ensures
            final(self).wf(),
            final(self).tokens == old(self).tokens,
            old(self).pos <= final(self).pos,
            ({
                let p = old(self).pos as int;
                let t = old(self).toks();
                if p < t.len() && crate::grammar::is_word_token(t[p]) {
                    match crate::grammar::word_of(t[p], old(self).table(), p) {
                        Ok((w, s1)) => r matches Ok(pw) && pw@ == w && final(self).table() == s1
                            && final(self).pos == p + 1,
                        Err(f) => r matches Err(e) && failure_is(e, f),
                    }
                } else {
                    r matches Err(e) && failure_is(
                        e,
                        Fail { kind: FailKind::MissingTarget, pos: p },
                    )
                }
            }),
    {
        reveal(crate::grammar::word_of);
        let ghost t0 = self.table();
        match self.peek() {
            Some(Token::Word(s)) => {
                let s = s.clone();
                let word = match self.parse_word(&s) {
                    Ok(w) => w,
                    Err(e) => {
                        return Err(e);
                    },
                };
                self.advance();
                Ok(word)
            },
            Some(Token::SingleQuoted(s)) => {
                let word = ParsedWord::literal(s.as_str());
                self.advance();
                Ok(word)
            },
            Some(Token::DoubleQuoted(s)) => {
                let s = s.clone();
                let word = match self.parse_word(&s) {
                    Ok(w) => w,
                    Err(e) => {
                        return Err(e);
                    },
                };
                self.advance();
                Ok(word)
            },
            _ => Err(Failure { kind: FailKind::MissingTarget, at: self.pos }),
        }
    }

    /// The simple command at the cursor: words, substitutions and
    /// redirections, up to the first token that is none of them.
    fn parse_simple_command(&mut self) -> (r: Result<SimpleCommand, Failure>)
        requires
            old(self).wf(),
        ensures
            final(self).wf(),
            final(self).tokens == old(self).tokens,
            old(self).pos <= final(self).pos,
            match command_from(old(self).toks(), old(self).pos as int, old(self).table()) {
                Ok((c, q, s1)) => r matches Ok(cmd) && cmd@ == c && final(self).pos == q
                    && final(self).table() == s1,
                Err(f) => r matches Err(e) && failure_is(e, f),
            },
    {
        reveal(command_from);
        reveal(crate::grammar::word_of);
        let ghost t = self.toks();
        let ghost entry = self.pos as int;
        let ghost s0 = self.table();
        let mut cmd = SimpleCommand::new();
        proof {
            match command_from(t, entry, s0) {
                Ok((c, q, s1)) => {
                    assert(cmd@.args + c.args =~= c.args);
                    assert(cmd@.redirects + c.redirects =~= c.redirects);
                },
                Err(_) => {},
            }
        }
        loop
            invariant
                self.wf(),
                self.tokens == old(self).tokens,
                t == self.toks(),
                entry == old(self).pos,
                s0 == old(self).table(),
                entry <= self.pos,
                command_from(t, entry, s0) == crate::grammar::prefix_command(
                    cmd@,
                    command_from(t, self.pos as int, self.table()),
                ),
            ensures
                self.wf(),
                self.tokens == old(self).tokens,
                entry <= self.pos,
                command_from(t, entry, s0) == crate::grammar::prefix_command(
                    cmd@,
                    command_from(t, self.pos as int, self.table()),
                ),
                command_from(t, self.pos as int, self.table()) == Ok::<_, Fail>(
                    (crate::grammar::empty_command(), self.pos as int, self.table()),
                ),
            decreases self.tokens.len() - self.pos,
        {
            proof {
                reveal(command_from);
                reveal(crate::grammar::word_of);
            }
            if self.is_at_end() {
                break;
            }
            let ghost before = cmd@;
            let ghost p = self.pos as int;
            let ghost tb = self.table();
            let start = self.pos;
            assert(command_from(t, entry, s0) == crate::grammar::prefix_command(
                before,
                command_from(t, p, tb),
            ));
            match self.peek() {
                Some(Token::Word(s)) | Some(Token::DoubleQuoted(s)) => {
                    let s = s.clone();
                    let word = match self.parse_word(&s) {
                        Ok(w) => w,
                        Err(e) => {
                            return Err(e);
                        },
                    };
                    let ghost wv = word@;
                    cmd.args.push(word);
                    self.advance();
                    proof {
                        let one = CommandView { args: seq![wv], redirects: Seq::empty() };
                        assert(cmd@.args =~= before.args + one.args);
                        assert(cmd@.redirects =~= before.redirects + one.redirects);
                        lemma_prefix_command(before, one, command_from(t, p + 1, self.table()));
                    }
                },
                Some(Token::SingleQuoted(s)) => {
                    let word = ParsedWord::literal(s.as_str());
                    let ghost wv = word@;
                    cmd.args.push(word);
                    self.advance();
                    proof {
                        let one = CommandView { args: seq![wv], redirects: Seq::empty() };
                        assert(cmd@.args =~= before.args + one.args);
                        assert(cmd@.redirects =~= before.redirects + one.redirects);
                        lemma_prefix_command(before, one, command_from(t, p + 1, self.table()));
                    }
                },
                Some(Token::RedirectOut) | Some(Token::RedirectAppend) | Some(Token::RedirectIn) => {
                    let kind = match self.peek() {
                        Some(Token::RedirectIn) => RedirectKind::Stdin,
                        Some(Token::RedirectAppend) => RedirectKind::StdoutAppend,
                        _ => RedirectKind::Stdout,
                    };
                    self.advance();
                    let target = match self.parse_redirect_target() {
                        Ok(w) => w,
                        Err(e) => {
                            return Err(e);
                        },
                    };
                    let red = Redirect { kind, target };
                    let ghost rv = red@;
                    cmd.redirects.push(red);
                    proof {
                        let one = CommandView { args: Seq::empty(), redirects: seq![rv] };
                        assert(cmd@.args =~= before.args + one.args);
                        assert(cmd@.redirects =~= before.redirects + one.redirects);
                        lemma_prefix_command(before, one, command_from(t, p + 2, self.table()));
                    }
                },
                Some(Token::SubstStart) => {
                    self.advance();
                    let input = match self.parse_command_substitution() {
                        Ok(text) => text,
                        Err(e) => {
                            return Err(e);
                        },
                    };
                    if self.next_subst_id == u32::MAX {
                        return Err(Failure { kind: FailKind::TooManySubst, at: start });
                    }
                    let id = self.next_subst_id;
                    let ghost iv = input@;
                    self.substitutions.push(CommandSubstitution { id, input });
                    self.next_subst_id = id + 1;
                    let word = ParsedWord { segments: vec![WordSegment::CommandSubst(id)] };
                    let ghost wv = word@;
                    assert(wv =~= seq![crate::ast::SegmentView::CommandSubst(id as nat)]);
                    cmd.args.push(word);
                    proof {
                        assert(self.table() =~= tb.push(iv));
                        let one = CommandView { args: seq![wv], redirects: Seq::empty() };
                        assert(cmd@.args =~= before.args + one.args);
                        assert(cmd@.redirects =~= before.redirects + one.redirects);
                        lemma_prefix_command(before, one, command_from(t, self.pos as int, self.table()));
                    }
                },
                _ => {
                    break;
                },
            }
        }
        proof {
            assert(cmd@.args + Seq::empty() =~= cmd@.args);
            assert(cmd@.redirects + Seq::empty() =~= cmd@.redirects);
        }
        Ok(cmd)
    }

    /// The commands joined by `|` at the cursor. A command on either side of
    /// a `|` may not be blank.
    fn parse_pipeline(&mut self) -> (r: Result<Pipeline, Failure>)
        requires
            old(self).wf(),
        ensures
            final(self).wf(),
            final(self).tokens == old(self).tokens,
            match pipeline_from(old(self).toks(), old(self).pos as int, old(self).table(), false) {
                Ok((cs, q, s1)) => r matches Ok(pl) && pl@ == cs && final(self).pos == q
                    && final(self).table() == s1,
                Err(f) => r matches Err(e) && failure_is(e, f),
            },
    {
        reveal(pipeline_from);
        let ghost t = self.toks();
        let ghost entry = self.pos as int;
        let ghost s0 = self.table();
        let mut commands: Vec<SimpleCommand> = Vec::new();
        let mut after_pipe = false;
        proof {
            match pipeline_from(t, entry, s0, false) {
                Ok((cs, q, s1)) => {
                    assert(commands_view(commands@) + cs =~= cs);
                },
                Err(_) => {},
            }
        }
        loop
            invariant
                self.wf(),
                self.tokens == old(self).tokens,
                t == self.toks(),
                t == old(self).toks(),
                entry == old(self).pos,
                s0 == old(self).table(),
                pipeline_from(t, entry, s0, false) == prepend_commands(
                    commands_view(commands@),
                    pipeline_from(t, self.pos as int, self.table(), after_pipe),
                ),
            decreases self.tokens.len() - self.pos,
        {
            proof {
                reveal(pipeline_from);
            }
            let ghost before = commands_view(commands@);
            let ghost p = self.pos as int;
            let ghost sp = self.table();
            let ghost ap = after_pipe;
            assert(pipeline_from(t, entry, s0, false) == prepend_commands(
                before,
                pipeline_from(t, p, sp, ap),
            ));
            let cmd = match self.parse_simple_command() {
                Ok(c) => c,
                Err(e) => {
                    return Err(e);
                },
            };
            let blank = cmd.args.len() == 0 && cmd.redirects.len() == 0;
            assert(blank == is_blank_command(cmd@));
            if after_pipe && blank {
                return Err(Failure { kind: FailKind::UnexpectedToken, at: self.pos });
            }
            let ghost cv = cmd@;
            if self.check(&Token::Pipe) {
                if blank {
                    return Err(Failure { kind: FailKind::UnexpectedToken, at: self.pos });
                }
                commands.push(cmd);
                self.advance();
                after_pipe = true;
                proof {
                    assert(commands_view(commands@) =~= before + seq![cv]);
                    match pipeline_from(t, self.pos as int, self.table(), true) {
                        Ok((ds, q, s1)) => {
                            assert(before + (seq![cv] + ds) =~= commands_view(commands@) + ds);
                        },
                        Err(_) => {},
                    }
                }
            } else {
                commands.push(cmd);
                let pl = Pipeline { commands };
                proof {
                    assert(pl@ =~= before + seq![cv]);
                }
                return Ok(pl);
            }
        }
    }

    /// Parses the whole token sequence from the cursor: elements joined by
    /// `&&`, `||` or line breaks, with the table of command substitutions.
    /// A failure reports the index of the token where it was found.
    pub fn parse(&mut self) -> (r: Result<ParseResult, ParseError>)
        requires
            old(self).wf(),
        ensures
            final(self).wf(),
            match elements_from(
                old(self).toks(),
                old(self).at(),
                old(self).table(),
                Connector::Unconditional,
            ) {
                Ok((es, subs)) => r matches Ok(res) && res@ == ResultView {
                    elements: es,
                    substitutions: subs,
                } && ids_in_order(res.substitutions@),
                Err(f) => r matches Err(e) && error_matches(e, f),
            },
    {
        match self.parse_elements() {
            Ok(res) => Ok(res),
            Err(f) => {
                let position: u32 = if f.at > u32::MAX as usize {
                    u32::MAX
                } else {
                    f.at as u32
                };
                Err(error_of(f.kind, position))
            },
        }
    }

    fn parse_elements(&mut self) -> (r: Result<ParseResult, Failure>)
        requires
            old(self).wf(),
        ensures
            final(self).wf(),
            match elements_from(
                old(self).toks(),
                old(self).at(),
                old(self).table(),
                Connector::Unconditional,
            ) {
                Ok((es, subs)) => r matches Ok(res) && res@ == ResultView {
                    elements: es,
                    substitutions: subs,
                } && ids_in_order(res.substitutions@),
                Err(f) => r matches Err(e) && failure_is(e, f),
            },
    {
        reveal(elements_from);
        let ghost t = self.toks();
        let ghost entry = self.pos as int;
        let ghost s0 = self.table();
        let mut elements: Vec<ConditionalElement> = Vec::new();
        let mut connector = Connector::Unconditional;
        proof {
            match elements_from(t, entry, s0, Connector::Unconditional) {
                Ok((es, s1)) => {
                    assert(elements_view(elements@) + es =~= es);
                },
                Err(_) => {},
            }
        }
        loop
            invariant
                self.wf(),
                self.tokens == old(self).tokens,
                t == self.toks(),
                t == old(self).toks(),
                entry == old(self).pos,
                s0 == old(self).table(),
                elements_from(t, entry, s0, Connector::Unconditional) == prepend_elements(
                    elements_view(elements@),
                    elements_from(t, self.pos as int, self.table(), connector),
                ),
            ensures
                self.wf(),
                elements_from(t, entry, s0, Connector::Unconditional) == prepend_elements(
                    elements_view(elements@),
                    Ok((Seq::empty(), self.table())),
                ),
            decreases self.tokens.len() - self.pos,
        {
            proof {
                reveal(elements_from);
            }
            let ghost before = elements_view(elements@);
            let ghost p = self.pos as int;
            let ghost sp = self.table();
            assert(elements_from(t, entry, s0, Connector::Unconditional) == prepend_elements(
                before,
                elements_from(t, p, sp, connector),
            ));
            proof {
                lemma_skip_newlines_ge(t, p);
            }
            while self.check(&Token::Newline)
                invariant
                    self.wf(),
                    self.tokens == old(self).tokens,
                    t == self.toks(),
                    self.table() == sp,
                    p <= self.pos,
                    skip_newlines(t, p) == skip_newlines(t, self.pos as int),
                decreases self.tokens.len() - self.pos,
            {
                proof {
                    reveal(elements_from);
                }
                self.advance();
            }
            let first = self.pos;
            if self.is_at_end() {
                if connector != Connector::Unconditional {
                    return Err(Failure { kind: FailKind::UnexpectedToken, at: first });
                }
                break;
            }
            let pipeline = match self.parse_pipeline() {
                Ok(pl) => pl,
                Err(e) => {
                    return Err(e);
                },
            };
            if self.pos <= first {
                return Err(Failure { kind: FailKind::UnexpectedToken, at: first });
            }
            let ghost ev = ElementView { connector, pipeline: pipeline@ };
            elements.push(ConditionalElement { connector, pipeline });
            proof {
                assert(elements_view(elements@) =~= before + seq![ev]);
            }
            if self.check(&Token::And) {
                self.advance();
                connector = Connector::And;
            } else if self.check(&Token::Or) {
                self.advance();
                connector = Connector::Or;
            } else if self.check(&Token::Newline) || self.is_at_end() {
                connector = Connector::Unconditional;
            } else {
                return Err(Failure { kind: FailKind::UnexpectedToken, at: self.pos });
            }
            proof {
                match elements_from(t, self.pos as int, self.table(), connector) {
                    Ok((ds, s1)) => {
                        assert(before + (seq![ev] + ds) =~= elements_view(elements@) + ds);
                    },
                    Err(_) => {},
                }
            }
        }
        let mut substitutions: Vec<CommandSubstitution> = Vec::new();
        std::mem::swap(&mut substitutions, &mut self.substitutions);
        self.next_subst_id = 0;
        let res = ParseResult { elements, substitutions };
        proof {
            assert(elements_view(res.elements@) + Seq::<ElementView>::empty() =~= elements_view(res.elements@));
            assert(res@.elements =~= elements_view(res.elements@));
            assert(self.substitutions@ =~= Seq::<CommandSubstitution>::empty());
        }
        Ok(res)
    }
}

} // verus!
