//! The shell grammar as mathematical functions: how a word is rescanned
//! into segments and how a token sequence becomes a parse result.
use vstd::prelude::*;

use crate::ast::{CommandView, Connector, ElementView, RedirectKind, RedirectView, SegmentView, WordView};
use crate::lexer::{pair_at, TokenView};

verus! {

/// Why parsing failed after lexing succeeded.
pub enum FailKind {
    /// A `$(` whose closing parenthesis never comes.
    UnterminatedSubst,
    /// More command substitutions than ids of 32 bits can number.
    TooManySubst,
    /// A redirection operator not followed by a word.
    MissingTarget,
    /// A token where none of the grammar's rules accepts it.
    UnexpectedToken,
}

/// A failure, with the index of the token where it was found.
pub struct Fail {
    pub kind: FailKind,
    pub pos: int,
}

pub open spec fn fail_message(k: FailKind) -> Seq<char> {
    match k {
        FailKind::UnterminatedSubst => "unterminated command substitution"@,
        FailKind::TooManySubst => "too many command substitutions"@,
        FailKind::MissingTarget => "Expected redirect target"@,
        FailKind::UnexpectedToken => "unexpected token"@,
    }
}

// ---------------------------------------------------------------------------
// Rescanning a word

/// `[A-Za-z0-9_]`
pub open spec fn is_name_char(c: char) -> bool {
    ('a' <= c && c <= 'z') || ('A' <= c && c <= 'Z') || ('0' <= c && c <= '9') || c == '_'
}

/// The end of the run of name characters that starts at `k`.
pub open spec fn name_end(s: Seq<char>, k: int) -> int
    decreases s.len() - k,
{
    if k < 0 || k >= s.len() || !is_name_char(s[k]) {
        k
    } else {
        name_end(s, k + 1)
    }
}

/// The index of the first `}` at or after `k`, or the length of `s`.
pub open spec fn brace_close(s: Seq<char>, k: int) -> int
    decreases s.len() - k,
{
    if k < 0 || k >= s.len() || s[k] == '}' {
        k
    } else {
        brace_close(s, k + 1)
    }
}

/// The index of the `)` that brings the parenthesis depth from `depth` to
/// zero, scanning from `k`.
pub open spec fn paren_close(s: Seq<char>, k: int, depth: nat) -> Option<int>
    decreases s.len() - k,
{
    if k < 0 || k >= s.len() {
        None
    } else if s[k] == '(' {
        paren_close(s, k + 1, depth + 1)
    } else if s[k] == ')' {
        if depth <= 1 {
            Some(k)
        } else {
            paren_close(s, k + 1, (depth - 1) as nat)
        }
    } else {
        paren_close(s, k + 1, depth)
    }
}

/// What starts at an index of a word, by index ranges into it.
pub enum Form {
    /// `$(body)`: the body's range, and the index after the `)`.
    Subst(int, int, int),
    /// `$(` with no matching `)`.
    Unterminated,
    /// A variable: its name's range, its default's range, the index after it.
    Var(int, int, Option<(int, int)>, int),
    /// `${` not followed by a well-formed reference.
    Malformed,
    /// An ordinary character.
    Plain,
}

#[verifier::opaque]
pub open spec fn form_at(s: Seq<char>, i: int) -> Form {
    if !(0 <= i && i + 1 < s.len()) || s[i] != '$' {
        Form::Plain
    } else if s[i + 1] == '(' {
        match paren_close(s, i + 2, 1) {
            Some(c) => Form::Subst(i + 2, c, c + 1),
            None => Form::Unterminated,
        }
    } else if s[i + 1] == '{' {
        let e = name_end(s, i + 2);
        if e == i + 2 {
            Form::Malformed
        } else if e < s.len() && s[e] == '}' {
            Form::Var(i + 2, e, None, e + 1)
        } else if pair_at(s, e, ':', '-') {
            let c = brace_close(s, e + 2);
            if c < s.len() {
                Form::Var(i + 2, e, Some((e + 2, c)), c + 1)
            } else {
                Form::Malformed
            }
        } else {
            Form::Malformed
        }
    } else if is_name_char(s[i + 1]) {
        Form::Var(i + 1, name_end(s, i + 1), None, name_end(s, i + 1))
    } else {
        Form::Plain
    }
}

/// Where a run of literal text that reaches `k` ends: before the next
/// substitution or variable, or at the end where a malformed `${` comes first.
#[verifier::opaque]
pub open spec fn literal_end(s: Seq<char>, k: int) -> int
    decreases s.len() - k,
{
    if k < 0 || k >= s.len() {
        s.len() as int
    } else {
        match form_at(s, k) {
            Form::Plain => literal_end(s, k + 1),
            Form::Malformed => s.len() as int,
            _ => k,
        }
    }
}

pub open spec fn prefix_scan(
    segs: WordView,
    bodies: Seq<Seq<char>>,
    r: Result<(WordView, Seq<Seq<char>>), FailKind>,
) -> Result<(WordView, Seq<Seq<char>>), FailKind> {
    match r {
        Ok((a, b)) => Ok((segs + a, bodies + b)),
        Err(e) => Err(e),
    }
}

pub open spec fn default_view(s: Seq<char>, d: Option<(int, int)>) -> Option<Seq<char>> {
    match d {
        Some((a, b)) => Some(s.subrange(a, b)),
        None => None,
    }
}

/// The segments of the word text `s` from index `i` on, and the bodies of
/// the command substitutions met, numbered from `base`.
#[verifier::opaque]
pub open spec fn rescan_from(s: Seq<char>, i: int, base: nat) -> Result<
    (WordView, Seq<Seq<char>>),
    FailKind,
>
    decreases s.len() - i,
{
    if i < 0 || i >= s.len() {
        Ok((Seq::empty(), Seq::empty()))
    } else {
        match form_at(s, i) {
            Form::Subst(a, b, j) => if base >= u32::MAX {
                Err(FailKind::TooManySubst)
            } else if i < j <= s.len() {
                prefix_scan(
                    seq![SegmentView::CommandSubst(base)],
                    seq![s.subrange(a, b)],
                    rescan_from(s, j, base + 1),
                )
            } else {
                Err(FailKind::UnterminatedSubst)
            },
            Form::Unterminated => Err(FailKind::UnterminatedSubst),
            Form::Var(a, b, d, j) => if i < j <= s.len() {
                prefix_scan(
                    seq![SegmentView::EnvVar(s.subrange(a, b), default_view(s, d))],
                    Seq::empty(),
                    rescan_from(s, j, base),
                )
            } else {
                Err(FailKind::UnterminatedSubst)
            },
            Form::Malformed => Ok((seq![SegmentView::Literal(s.subrange(i, s.len() as int))], Seq::empty())),
            Form::Plain => {
                let k = literal_end(s, i + 1);
                if i < k <= s.len() {
                    prefix_scan(
                        seq![SegmentView::Literal(s.subrange(i, k))],
                        Seq::empty(),
                        rescan_from(s, k, base),
                    )
                } else {
                    Err(FailKind::UnterminatedSubst)
                }
            },
        }
    }
}

/// The segments of the word text `s`, a single empty literal where there is
/// none, and the substitution bodies met, numbered from `base`.
#[verifier::opaque]
pub open spec fn rescan(s: Seq<char>, base: nat) -> Result<(WordView, Seq<Seq<char>>), FailKind> {
    match rescan_from(s, 0, base) {
        Ok((segs, bodies)) => Ok(
            (if segs.len() == 0 {
                seq![SegmentView::Literal(Seq::empty())]
            } else {
                segs
            }, bodies),
        ),
        Err(e) => Err(e),
    }
}

// ---------------------------------------------------------------------------
// Separators that rebuilding a substitution body puts between tokens

/// A space written after a token, or the text of a line-break token. No
/// bare word begins or ends with one, and a quoted token ends with its quote,
/// so stripping these from the ends of a body removes nothing of a token.
pub open spec fn is_space(c: char) -> bool {
    c == ' ' || c == '\n'
}

pub open spec fn trim_start(s: Seq<char>) -> Seq<char>
    decreases s.len(),
{
    if s.len() > 0 && is_space(s[0]) {
        trim_start(s.drop_first())
    } else {
        s
    }
}

pub open spec fn trim_end(s: Seq<char>) -> Seq<char>
    decreases s.len(),
{
    if s.len() > 0 && is_space(s.last()) {
        trim_end(s.drop_last())
    } else {
        s
    }
}

/// `s` without leading and trailing separators.
pub open spec fn trim(s: Seq<char>) -> Seq<char> {
    trim_end(trim_start(s))
}

// ---------------------------------------------------------------------------
// Tokens back to text

/// A character as written inside double quotes: `\` and `"` escaped.
pub open spec fn escape_char(c: char) -> Seq<char> {
    if c == '\\' || c == '"' {
        seq!['\\', c]
    } else {
        seq![c]
    }
}

/// Text as written inside double quotes, so that lexing gives it back.
pub open spec fn escape_dq(s: Seq<char>) -> Seq<char>
    decreases s.len(),
{
    if s.len() == 0 {
        Seq::empty()
    } else {
        escape_dq(s.drop_last()) + escape_char(s.last())
    }
}

/// The source text that a token stands for.
pub open spec fn token_text(t: TokenView) -> Seq<char> {
    match t {
        TokenView::Word(s) => s,
        TokenView::SingleQuoted(s) => seq!['\''] + s + seq!['\''],
        TokenView::DoubleQuoted(s) => seq!['"'] + escape_dq(s) + seq!['"'],
        TokenView::Pipe => seq!['|'],
        TokenView::And => seq!['&', '&'],
        TokenView::Or => seq!['|', '|'],
        TokenView::RedirectOut => seq!['>'],
        TokenView::RedirectAppend => seq!['>', '>'],
        TokenView::RedirectIn => seq!['<'],
        TokenView::SubstStart => seq!['$', '('],
        TokenView::ParenClose => seq![')'],
        TokenView::Newline => seq!['\n'],
    }
}

pub open spec fn prefix_subst_text(p: Seq<char>, r: Option<(Seq<char>, int)>) -> Option<(Seq<char>, int)> {
    match r {
        Some((a, q)) => Some((p + a, q)),
        None => None,
    }
}

/// The text of a substitution body read from tokens, from index `p` at
/// nesting depth `depth`, and the index after its closing `)`: nested `$(`
/// and `)` as they are, every other token followed by a space.
#[verifier::opaque]
pub open spec fn subst_text(t: Seq<TokenView>, p: int, depth: nat) -> Option<(Seq<char>, int)>
    decreases t.len() - p,
{
    if p < 0 || p >= t.len() {
        None
    } else {
        match t[p] {
            TokenView::SubstStart => prefix_subst_text(seq!['$', '('], subst_text(t, p + 1, depth + 1)),
            TokenView::ParenClose => if depth <= 1 {
                Some((Seq::empty(), p + 1))
            } else {
                prefix_subst_text(seq![')'], subst_text(t, p + 1, (depth - 1) as nat))
            },
            _ => prefix_subst_text(token_text(t[p]) + seq![' '], subst_text(t, p + 1, depth)),
        }
    }
}

// ---------------------------------------------------------------------------
// Commands, pipelines and elements

pub open spec fn is_word_token(t: TokenView) -> bool {
    t is Word || t is SingleQuoted || t is DoubleQuoted
}

/// The word that a word token gives, with the substitution table after it.
#[verifier::opaque]
pub open spec fn word_of(t: TokenView, subs: Seq<Seq<char>>, p: int) -> Result<
    (WordView, Seq<Seq<char>>),
    Fail,
> {
    match t {
        TokenView::SingleQuoted(s) => Ok((seq![SegmentView::Literal(s)], subs)),
        TokenView::Word(s) => match rescan(s, subs.len()) {
            Ok((w, b)) => Ok((w, subs + b)),
            Err(k) => Err(Fail { kind: k, pos: p }),
        },
        TokenView::DoubleQuoted(s) => match rescan(s, subs.len()) {
            Ok((w, b)) => Ok((w, subs + b)),
            Err(k) => Err(Fail { kind: k, pos: p }),
        },
        _ => Err(Fail { kind: FailKind::MissingTarget, pos: p }),
    }
}

pub open spec fn redirect_kind_of(t: TokenView) -> RedirectKind {
    match t {
        TokenView::RedirectIn => RedirectKind::Stdin,
        TokenView::RedirectAppend => RedirectKind::StdoutAppend,
        _ => RedirectKind::Stdout,
    }
}

pub open spec fn is_redirect_token(t: TokenView) -> bool {
    t is RedirectIn || t is RedirectOut || t is RedirectAppend
}

pub open spec fn empty_command() -> CommandView {
    CommandView { args: Seq::empty(), redirects: Seq::empty() }
}

pub type Step<T> = Result<(T, int, Seq<Seq<char>>), Fail>;

pub open spec fn prefix_command(c: CommandView, r: Step<CommandView>) -> Step<CommandView> {
    match r {
        Ok((d, q, s)) => Ok(
            (CommandView { args: c.args + d.args, redirects: c.redirects + d.redirects }, q, s),
        ),
        Err(f) => Err(f),
    }
}

/// The simple command that starts at token `p`: words, substitutions and
/// redirections, up to the first token that is none of them.
#[verifier::opaque]
pub open spec fn command_from(t: Seq<TokenView>, p: int, subs: Seq<Seq<char>>) -> Step<CommandView>
    decreases t.len() - p,
{
    if p < 0 || p >= t.len() {
        Ok((empty_command(), p, subs))
    } else if is_word_token(t[p]) {
        match word_of(t[p], subs, p) {
            Ok((w, s1)) => prefix_command(
                CommandView { args: seq![w], redirects: Seq::empty() },
                command_from(t, p + 1, s1),
            ),
            Err(f) => Err(f),
        }
    } else if is_redirect_token(t[p]) {
        if p + 1 < t.len() && is_word_token(t[p + 1]) {
            match word_of(t[p + 1], subs, p + 1) {
                Ok((w, s1)) => prefix_command(
                    CommandView {
                        args: Seq::empty(),
                        redirects: seq![RedirectView { kind: redirect_kind_of(t[p]), target: w }],
                    },
                    command_from(t, p + 2, s1),
                ),
                Err(f) => Err(f),
            }
        } else {
            Err(Fail { kind: FailKind::MissingTarget, pos: p + 1 })
        }
    } else if t[p] is SubstStart {
        match subst_text(t, p + 1, 1) {
            Some((text, q)) => if subs.len() >= u32::MAX {
                Err(Fail { kind: FailKind::TooManySubst, pos: p })
            } else if p < q <= t.len() {
                prefix_command(
                    CommandView {
                        args: seq![seq![SegmentView::CommandSubst(subs.len())]],
                        redirects: Seq::empty(),
                    },
                    command_from(t, q, subs.push(trim(text))),
                )
            } else {
                Err(Fail { kind: FailKind::UnterminatedSubst, pos: p })
            },
            None => Err(Fail { kind: FailKind::UnterminatedSubst, pos: p }),
        }
    } else {
        Ok((empty_command(), p, subs))
    }
}

/// A command with neither argument nor redirection.
pub open spec fn is_blank_command(c: CommandView) -> bool {
    c.args.len() == 0 && c.redirects.len() == 0
}

pub open spec fn prefix_pipeline(c: CommandView, r: Step<Seq<CommandView>>) -> Step<Seq<CommandView>> {
    match r {
        Ok((cs, q, s)) => Ok((seq![c] + cs, q, s)),
        Err(f) => Err(f),
    }
}

/// The commands joined by `|` that start at token `p`; `after_pipe` where a
/// `|` comes just before. A command on either side of a `|` may not be blank.
#[verifier::opaque]
pub open spec fn pipeline_from(t: Seq<TokenView>, p: int, subs: Seq<Seq<char>>, after_pipe: bool) -> Step<
    Seq<CommandView>,
>
    decreases t.len() - p,
{
    match command_from(t, p, subs) {
        Ok((c, q, s1)) => if after_pipe && is_blank_command(c) {
            Err(Fail { kind: FailKind::UnexpectedToken, pos: q })
        } else if 0 <= q < t.len() && t[q] is Pipe {
            if is_blank_command(c) {
                Err(Fail { kind: FailKind::UnexpectedToken, pos: q })
            } else if p <= q {
                prefix_pipeline(c, pipeline_from(t, q + 1, s1, true))
            } else {
                Err(Fail { kind: FailKind::UnexpectedToken, pos: q })
            }
        } else {
            Ok((seq![c], q, s1))
        },
        Err(f) => Err(f),
    }
}

/// The index of the first token at or after `p` that is not a newline.
pub open spec fn skip_newlines(t: Seq<TokenView>, p: int) -> int
    decreases t.len() - p,
{
    if 0 <= p < t.len() && t[p] is Newline {
        skip_newlines(t, p + 1)
    } else {
        p
    }
}

pub type Elements = Result<(Seq<ElementView>, Seq<Seq<char>>), Fail>;

pub open spec fn prefix_elements(e: ElementView, r: Elements) -> Elements {
    match r {
        Ok((es, s)) => Ok((seq![e] + es, s)),
        Err(f) => Err(f),
    }
}

/// The elements from token `p` on, the next one under connector `conn`,
/// with the final substitution table. Blank lines are skipped; a pipeline
/// that takes no token, or none after `&&` or `||`, is an error.
#[verifier::opaque]
pub open spec fn elements_from(t: Seq<TokenView>, p: int, subs: Seq<Seq<char>>, conn: Connector) -> Elements
    decreases t.len() - p,
{
    let first = skip_newlines(t, p);
    if first < p || first >= t.len() {
        if conn == Connector::Unconditional {
            Ok((Seq::empty(), subs))
        } else {
            Err(Fail { kind: FailKind::UnexpectedToken, pos: first })
        }
    } else {
        match pipeline_from(t, first, subs, false) {
            Ok((cs, q, s1)) => if q <= first || q > t.len() {
                Err(Fail { kind: FailKind::UnexpectedToken, pos: first })
            } else {
                let e = ElementView { connector: conn, pipeline: cs };
                if q >= t.len() {
                    Ok((seq![e], s1))
                } else if t[q] is And {
                    prefix_elements(e, elements_from(t, q + 1, s1, Connector::And))
                } else if t[q] is Or {
                    prefix_elements(e, elements_from(t, q + 1, s1, Connector::Or))
                } else if t[q] is Newline {
                    prefix_elements(e, elements_from(t, q, s1, Connector::Unconditional))
                } else {
                    Err(Fail { kind: FailKind::UnexpectedToken, pos: q })
                }
            },
            Err(f) => Err(f),
        }
    }
}

/// The parse of a token sequence: its elements and the bodies of its
/// command substitutions, each at the index that is its id.
pub open spec fn parse_tokens(t: Seq<TokenView>) -> Elements {
    elements_from(t, 0, Seq::empty(), Connector::Unconditional)
}

} // verus!
