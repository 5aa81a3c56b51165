//! Lexer: turns shell source text into a flat sequence of tokens.
use vstd::prelude::*;

use crate::ast::ParseError;
use crate::text::{byte_offset, chars_of, clamp_to_u32, clamp_u32, string_from_range, utf8_offset};

verus! {

/// A token of shell source.
#[derive(Debug, Clone, PartialEq)]
pub enum Token {
    /// A run of ordinary characters (may hold `$NAME`, `${...}`).
    Word(String),
    /// The text between single quotes, exactly as written.
    SingleQuoted(String),
    /// The text between double quotes, escapes resolved.
    DoubleQuoted(String),
    /// `|`
    Pipe,
    /// `&&`
    And,
    /// `||`
    Or,
    /// `>`
    RedirectOut,
    /// `>>`
    RedirectAppend,
    /// `<`
    RedirectIn,
    /// `$(`
    SubstStart,
    /// `)`
    ParenClose,
    /// A line break.
    Newline,
}

/// The mathematical value of a [`Token`].
pub enum TokenView {
    Word(Seq<char>),
    SingleQuoted(Seq<char>),
    DoubleQuoted(Seq<char>),
    Pipe,
    And,
    Or,
    RedirectOut,
    RedirectAppend,
    RedirectIn,
    SubstStart,
    ParenClose,
    Newline,
}

impl View for Token {
    type V = TokenView;

    open spec fn view(&self) -> TokenView {
        match self {
            Token::Word(s) => TokenView::Word(s@),
            Token::SingleQuoted(s) => TokenView::SingleQuoted(s@),
            Token::DoubleQuoted(s) => TokenView::DoubleQuoted(s@),
            Token::Pipe => TokenView::Pipe,
            Token::And => TokenView::And,
            Token::Or => TokenView::Or,
            Token::RedirectOut => TokenView::RedirectOut,
            Token::RedirectAppend => TokenView::RedirectAppend,
            Token::RedirectIn => TokenView::RedirectIn,
            Token::SubstStart => TokenView::SubstStart,
            Token::ParenClose => TokenView::ParenClose,
            Token::Newline => TokenView::Newline,
        }
    }
}

pub open spec fn tokens_view(ts: Seq<Token>) -> Seq<TokenView> {
    ts.map_values(|t: Token| t@)
}

// ---------------------------------------------------------------------------
// The lexical rules, over the characters `s` of the input

/// Characters that end a bare word.
pub open spec fn is_meta_char(c: char) -> bool {
    c == '|' || c == '&' || c == '<' || c == '>' || c == '(' || c == ')' || c == ';' || c
        == '\n' || c == ' ' || c == '\t' || c == '"' || c == '\''
}

/// Whitespace between tokens that is dropped.
pub open spec fn is_blank(c: char) -> bool {
    c == ' ' || c == '\t'
}

/// `s` holds `a` at `i` and `b` at `i + 1`.
pub open spec fn pair_at(s: Seq<char>, i: int, a: char, b: char) -> bool {
    0 <= i && i + 1 < s.len() && s[i] == a && s[i + 1] == b
}

/// A bare word that reaches `j` stops there.
pub open spec fn word_stops_at(s: Seq<char>, j: int) -> bool {
    j >= s.len() || is_meta_char(s[j]) || pair_at(s, j, '$', '(')
}

/// Where the bare word that starts at `i` ends.
pub open spec fn word_end(s: Seq<char>, i: int) -> int
    decreases s.len() - i,
{
    if i < 0 || word_stops_at(s, i) {
        i
    } else {
        word_end(s, i + 1)
    }
}

/// The index of the first `'` at or after `i`, or the length of `s`.
pub open spec fn quote_close(s: Seq<char>, i: int) -> int
    decreases s.len() - i,
{
    if i < 0 || i >= s.len() || s[i] == '\'' {
        i
    } else {
        quote_close(s, i + 1)
    }
}

/// What the escape `\c` stands for inside double quotes.
pub open spec fn escape_of(c: char) -> Seq<char> {
    if c == '\\' || c == '"' || c == '$' {
        seq![c]
    } else if c == 'n' {
        seq!['\n']
    } else if c == 't' {
        seq!['\t']
    } else {
        seq!['\\', c]
    }
}

/// `p` put in front of the text of a scan result.
pub open spec fn prefix_text(p: Seq<char>, r: Option<(Seq<char>, int)>) -> Option<(Seq<char>, int)> {
    match r {
        Some((t, j)) => Some((p + t, j)),
        None => None,
    }
}

/// The text of a double-quoted string whose body starts at `i`, and the
/// index just after its closing quote; `None` where the quote is never closed.
pub open spec fn dq_body(s: Seq<char>, i: int) -> Option<(Seq<char>, int)>
    decreases s.len() - i,
{
    if i < 0 || i >= s.len() {
        None
    } else if s[i] == '"' {
        Some((Seq::empty(), i + 1))
    } else if s[i] == '\\' && i + 1 < s.len() {
        prefix_text(escape_of(s[i + 1]), dq_body(s, i + 2))
    } else {
        prefix_text(seq![s[i]], dq_body(s, i + 1))
    }
}

/// The operator at `i`, longest first, and the index after it.
pub open spec fn operator_at(s: Seq<char>, i: int) -> Option<(TokenView, int)> {
    if pair_at(s, i, '&', '&') {
        Some((TokenView::And, i + 2))
    } else if pair_at(s, i, '|', '|') {
        Some((TokenView::Or, i + 2))
    } else if pair_at(s, i, '>', '>') {
        Some((TokenView::RedirectAppend, i + 2))
    } else if pair_at(s, i, '$', '(') {
        Some((TokenView::SubstStart, i + 2))
    } else if 0 <= i < s.len() && s[i] == '|' {
        Some((TokenView::Pipe, i + 1))
    } else if 0 <= i < s.len() && s[i] == '>' {
        Some((TokenView::RedirectOut, i + 1))
    } else if 0 <= i < s.len() && s[i] == '<' {
        Some((TokenView::RedirectIn, i + 1))
    } else if 0 <= i < s.len() && s[i] == ')' {
        Some((TokenView::ParenClose, i + 1))
    } else {
        None
    }
}

/// The token that starts at `i` (an operator, a quoted string or a bare
/// word, tried in that order) and the index after it; `None` where no rule
/// matches.
pub open spec fn token_at(s: Seq<char>, i: int) -> Option<(TokenView, int)> {
    if !(0 <= i < s.len()) {
        None
    } else if operator_at(s, i) is Some {
        operator_at(s, i)
    } else if s[i] == '\'' {
        let j = quote_close(s, i + 1);
        if j < s.len() {
            Some((TokenView::SingleQuoted(s.subrange(i + 1, j)), j + 1))
        } else {
            None
        }
    } else if s[i] == '"' {
        match dq_body(s, i + 1) {
            Some((t, j)) => Some((TokenView::DoubleQuoted(t), j)),
            None => None,
        }
    } else if word_end(s, i) > i {
        Some((TokenView::Word(s.subrange(i, word_end(s, i))), word_end(s, i)))
    } else {
        None
    }
}

/// `p` put in front of the tokens of a lexing result.
pub open spec fn prefix_tokens(p: Seq<TokenView>, r: Result<Seq<TokenView>, int>) -> Result<
    Seq<TokenView>,
    int,
> {
    match r {
        Ok(ts) => Ok(p + ts),
        Err(e) => Err(e),
    }
}

/// The tokens of `s` from index `i` on, or the index of the character at
/// which lexing fails.
pub open spec fn lex_from(s: Seq<char>, i: int) -> Result<Seq<TokenView>, int>
    decreases s.len() - i,
{
    if i < 0 || i >= s.len() {
        Ok(Seq::empty())
    } else if is_blank(s[i]) {
        lex_from(s, i + 1)
    } else if s[i] == '\n' {
        prefix_tokens(seq![TokenView::Newline], lex_from(s, i + 1))
    } else {
        match token_at(s, i) {
            Some((t, j)) => if i < j <= s.len() {
                prefix_tokens(seq![t], lex_from(s, j))
            } else {
                Err(i)
            },
            None => Err(i),
        }
    }
}

/// The tokens of `s`, or the index of the character at which lexing fails.
pub open spec fn lex(s: Seq<char>) -> Result<Seq<TokenView>, int> {
    lex_from(s, 0)
}

/// The message of a lexing error at a character `c`.
pub open spec fn lex_error_message(c: char) -> Seq<char> {
    if c == '\'' {
        "unterminated single-quoted string"@
    } else if c == '"' {
        "unterminated double-quoted string"@
    } else {
        "unexpected character"@
    }
}

// ---------------------------------------------------------------------------
// Lemmas

pub(crate) proof fn lemma_word_end_bounds(s: Seq<char>, i: int)
    requires
        0 <= i <= s.len(),
    ensures
        i <= word_end(s, i) <= s.len(),
        forall|k: int| i <= k < word_end(s, i) ==> !word_stops_at(s, k),
    decreases s.len() - i,
{
    if !word_stops_at(s, i) {
        lemma_word_end_bounds(s, i + 1);
    }
}

pub(crate) proof fn lemma_quote_close_bounds(s: Seq<char>, i: int)
    requires
        0 <= i <= s.len(),
    ensures
        i <= quote_close(s, i) <= s.len(),
        quote_close(s, i) < s.len() ==> s[quote_close(s, i)] == '\'',
        forall|k: int| i <= k < quote_close(s, i) ==> s[k] != '\'',
    decreases s.len() - i,
{
    if i < s.len() && s[i] != '\'' {
        lemma_quote_close_bounds(s, i + 1);
    }
}

pub(crate) proof fn lemma_dq_body_bounds(s: Seq<char>, i: int)
    requires
        0 <= i,
    ensures
        dq_body(s, i) matches Some((t, j)) ==> i < j <= s.len(),
    decreases s.len() - i,
{
    if 0 <= i < s.len() && s[i] != '"' {
        if s[i] == '\\' && i + 1 < s.len() {
            lemma_dq_body_bounds(s, i + 2);
        } else {
            lemma_dq_body_bounds(s, i + 1);
        }
    }
}

pub(crate) proof fn lemma_token_at_bounds(s: Seq<char>, i: int)
    requires
        0 <= i < s.len(),
    ensures
        token_at(s, i) matches Some((t, j)) ==> i < j <= s.len(),
{
    lemma_quote_close_bounds(s, i + 1);
    lemma_dq_body_bounds(s, i + 1);
    lemma_word_end_bounds(s, i);
}

// ---------------------------------------------------------------------------
// Executable lexer

/// Whether `c` ends a bare word.
fn is_meta(c: char) -> (r: bool)
    ensures
        r == is_meta_char(c),
{
    c == '|' || c == '&' || c == '<' || c == '>' || c == '(' || c == ')' || c == ';' || c
        == '\n' || c == ' ' || c == '\t' || c == '"' || c == '\''
}

/// Whether `s` holds `a` at `i` and `b` just after it.
pub(crate) fn has_pair(s: &Vec<char>, i: usize, a: char, b: char) -> (r: bool)
    ensures
        r == pair_at(s@, i as int, a, b),
{
    i < s.len() && s.len() - i > 1 && s[i] == a && s[i + 1] == b
}

/// The index of the first character at or after `i` that is not a space or
/// a tab.
pub fn skip_whitespace(s: &Vec<char>, i: usize) -> (r: usize)
    requires
        i <= s.len(),
    ensures
        i <= r <= s.len(),
        r == s.len() || !is_blank(s@[r as int]),
        forall|k: int| i <= k < r ==> is_blank(#[trigger] s@[k]),
        lex_from(s@, i as int) == lex_from(s@, r as int),
        token_starts_from(s@, i as int) == token_starts_from(s@, r as int),
{
    let mut j = i;
    while j < s.len() && (s[j] == ' ' || s[j] == '\t')
        invariant
            i <= j <= s.len(),
            forall|k: int| i <= k < j ==> is_blank(#[trigger] s@[k]),
            lex_from(s@, i as int) == lex_from(s@, j as int),
            token_starts_from(s@, i as int) == token_starts_from(s@, j as int),
        decreases s.len() - j,
    {
        j = j + 1;
    }
    j
}

/// The operator at `i`, if one starts there.
fn operator(s: &Vec<char>, i: usize) -> (r: Option<(Token, usize)>)
    requires
        i < s.len(),
    ensures
        match r {
            Some((t, j)) => operator_at(s@, i as int) == Some((t@, j as int)),
            None => operator_at(s@, i as int) is None,
        },
{
    if has_pair(s, i, '&', '&') {
        Some((Token::And, i + 2))
    } else if has_pair(s, i, '|', '|') {
        Some((Token::Or, i + 2))
    } else if has_pair(s, i, '>', '>') {
        Some((Token::RedirectAppend, i + 2))
    } else if has_pair(s, i, '$', '(') {
        Some((Token::SubstStart, i + 2))
    } else if s[i] == '|' {
        Some((Token::Pipe, i + 1))
    } else if s[i] == '>' {
        Some((Token::RedirectOut, i + 1))
    } else if s[i] == '<' {
        Some((Token::RedirectIn, i + 1))
    } else if s[i] == ')' {
        Some((Token::ParenClose, i + 1))
    } else {
        None
    }
}

/// The single-quoted string whose opening quote is at `i`.
fn single_quoted(s: &Vec<char>, i: usize) -> (r: Option<(Token, usize)>)
    requires
        i < s.len(),
        s@[i as int] == '\'',
    ensures
        match r {
            Some((t, j)) => token_at(s@, i as int) == Some((t@, j as int)),
            None => token_at(s@, i as int) is None,
        },
{
    let mut j = i + 1;
    while j < s.len() && s[j] != '\''
        invariant
            i < j <= s.len(),
            quote_close(s@, i + 1) == quote_close(s@, j as int),
        decreases s.len() - j,
    {
        j = j + 1;
    }
    if j < s.len() {
        let body = string_from_range(s, i + 1, j);
        Some((Token::SingleQuoted(body), j + 1))
    } else {
        None
    }
}

/// The double-quoted string whose opening quote is at `i`, with its escapes
/// resolved.
fn double_quoted(s: &Vec<char>, i: usize) -> (r: Option<(Token, usize)>)
    requires
        i < s.len(),
        s@[i as int] == '"',
    ensures
        match r {
            Some((t, j)) => token_at(s@, i as int) == Some((t@, j as int)),
            None => token_at(s@, i as int) is None,
        },
{
    let mut text: Vec<char> = Vec::new();
    let mut j = i + 1;
    while j < s.len() && s[j] != '"'
        invariant
            i < j <= s.len(),
            dq_body(s@, i + 1) == prefix_text(text@, dq_body(s@, j as int)),
        decreases s.len() - j,
    {
        let ghost before = text@;
        if s[j] == '\\' && s.len() - j > 1 {
            let c = s[j + 1];
            if c == '\\' || c == '"' || c == '$' {
                text.push(c);
            } else if c == 'n' {
                text.push('\n');
            } else if c == 't' {
                text.push('\t');
            } else {
                text.push('\\');
                text.push(c);
            }
            proof {
                assert(text@ =~= before + escape_of(c));
                match dq_body(s@, j + 2) {
                    Some((t, k)) => {
                        assert(before + (escape_of(c) + t) =~= text@ + t);
                    },
                    None => {},
                }
            }
            j = j + 2;
        } else {
            text.push(s[j]);
            proof {
                match dq_body(s@, j + 1) {
                    Some((t, k)) => {
                        assert(before + (seq![s@[j as int]] + t) =~= text@ + t);
                    },
                    None => {},
                }
            }
            j = j + 1;
        }
    }
    if j < s.len() {
        proof {
            assert(text@ + Seq::<char>::empty() =~= text@);
        }
        Some((Token::DoubleQuoted(crate::text::string_from_chars(&text)), j + 1))
    } else {
        None
    }
}

/// The bare word that starts at `i`: a run of non-meta characters that
/// stops before `$(`.
fn word_with_vars(s: &Vec<char>, i: usize) -> (r: Option<(Token, usize)>)
    requires
        i < s.len(),
        operator_at(s@, i as int) is None,
        s@[i as int] != '\'',
        s@[i as int] != '"',
    ensures
        match r {
            Some((t, j)) => token_at(s@, i as int) == Some((t@, j as int)),
            None => token_at(s@, i as int) is None,
        },
{
    let mut j = i;
    while j < s.len() && !is_meta(s[j]) && !has_pair(s, j, '$', '(')
        invariant
            i <= j <= s.len(),
            word_end(s@, i as int) == word_end(s@, j as int),
        decreases s.len() - j,
    {
        j = j + 1;
    }
    if j > i {
        Some((Token::Word(string_from_range(s, i, j)), j))
    } else {
        None
    }
}

/// The token that starts at `i`, and the index after it.
pub fn token(s: &Vec<char>, i: usize) -> (r: Option<(Token, usize)>)
    requires
        i < s.len(),
    ensures
        match r {
            Some((t, j)) => token_at(s@, i as int) == Some((t@, j as int)),
            None => token_at(s@, i as int) is None,
        },
{
    match operator(s, i) {
        Some(op) => Some(op),
        None => {
            if s[i] == '\'' {
                single_quoted(s, i)
            } else if s[i] == '"' {
                double_quoted(s, i)
            } else {
                word_with_vars(s, i)
            }
        },
    }
}

fn lex_error(s: &Vec<char>, i: usize) -> (e: ParseError)
    requires
        i < s.len(),
    ensures
        e.message@ == lex_error_message(s@[i as int]),
        e.position == clamp_to_u32(byte_offset(s@, i as int)),
{
    let position = clamp_u32(utf8_offset(s, i));
    if s[i] == '\'' {
        ParseError::new("unterminated single-quoted string", position)
    } else if s[i] == '"' {
        ParseError::new("unterminated double-quoted string", position)
    } else {
        ParseError::new("unexpected character", position)
    }
}

/// The index at which each token of `s` from index `i` on starts.
pub open spec fn token_starts_from(s: Seq<char>, i: int) -> Seq<int>
    decreases s.len() - i,
{
    if i < 0 || i >= s.len() {
        Seq::empty()
    } else if is_blank(s[i]) {
        token_starts_from(s, i + 1)
    } else if s[i] == '\n' {
        seq![i] + token_starts_from(s, i + 1)
    } else {
        match token_at(s, i) {
            Some((t, j)) => if i < j <= s.len() {
                seq![i] + token_starts_from(s, j)
            } else {
                Seq::empty()
            },
            None => Seq::empty(),
        }
    }
}

/// The index at which each token of `s` starts.
pub open spec fn token_starts(s: Seq<char>) -> Seq<int> {
    token_starts_from(s, 0)
}

/// Where lexing succeeds there is one start for each token, each an index
/// of `s`.
pub proof fn lemma_token_starts(s: Seq<char>, i: int)
    requires
        0 <= i,
    ensures
        lex_from(s, i) matches Ok(ts) ==> token_starts_from(s, i).len() == ts.len() && forall|
            k: int,
        | 0 <= k < ts.len() ==> i <= #[trigger] token_starts_from(s, i)[k] < s.len(),
    decreases s.len() - i,
{
    if 0 <= i < s.len() {
        if is_blank(s[i]) {
            lemma_token_starts(s, i + 1);
        } else if s[i] == '\n' {
            lemma_token_starts(s, i + 1);
            let rest = token_starts_from(s, i + 1);
            assert forall|k: int| 0 < k < rest.len() + 1 implies (seq![i] + rest)[k] == rest[k - 1] by {}
        } else {
            if let Some((t, j)) = token_at(s, i) {
                if i < j <= s.len() {
                    lemma_token_starts(s, j);
                    let rest = token_starts_from(s, j);
                    assert forall|k: int| 0 < k < rest.len() + 1 implies (seq![i] + rest)[k] == rest[k - 1] by {}
                }
            }
        }
    }
}

pub open spec fn starts_view(v: Seq<usize>) -> Seq<int> {
    v.map_values(|k: usize| k as int)
}

/// The tokens of the characters `s`, with the index at which each starts.
pub fn lex_chars(s: &Vec<char>) -> (r: Result<(Vec<Token>, Vec<usize>), ParseError>)
    ensures
        match lex(s@) {
            Ok(ts) => r matches Ok((v, st)) && tokens_view(v@) == ts && starts_view(st@)
                == token_starts(s@),
            Err(i) => r matches Err(e) && 0 <= i < s@.len() && e.message@ == lex_error_message(
                s@[i],
            ) && e.position == clamp_to_u32(byte_offset(s@, i)),
        },
{
    let mut tokens: Vec<Token> = Vec::new();
    let mut starts: Vec<usize> = Vec::new();
    let mut i: usize = 0;
    proof {
        assert(starts_view(starts@) + token_starts(s@) =~= token_starts(s@));
    }
    while i < s.len()
        invariant
            i <= s.len(),
            lex(s@) == prefix_tokens(tokens_view(tokens@), lex_from(s@, i as int)),
            lex(s@) is Ok ==> token_starts(s@) == starts_view(starts@) + token_starts_from(
                s@,
                i as int,
            ),
        ensures
            i == s.len(),
            lex(s@) == prefix_tokens(tokens_view(tokens@), lex_from(s@, i as int)),
            lex(s@) is Ok ==> token_starts(s@) == starts_view(starts@) + token_starts_from(
                s@,
                i as int,
            ),
        decreases s.len() - i,
    {
        let ghost before = tokens_view(tokens@);
        let ghost sb = starts_view(starts@);
        i = skip_whitespace(s, i);
        if i >= s.len() {
            break;
        }
        if s[i] == '\n' {
            tokens.push(Token::Newline);
            starts.push(i);
            proof {
                assert(tokens_view(tokens@) =~= before + seq![TokenView::Newline]);
                assert(starts_view(starts@) =~= sb + seq![i as int]);
                assert(sb + (seq![i as int] + token_starts_from(s@, i + 1)) =~= starts_view(starts@)
                    + token_starts_from(s@, i + 1));
                match lex_from(s@, i + 1) {
                    Ok(ts) => {
                        assert(before + (seq![TokenView::Newline] + ts) =~= tokens_view(tokens@)
                            + ts);
                    },
                    Err(_) => {},
                }
            }
            i = i + 1;
        } else {
            proof {
                lemma_token_at_bounds(s@, i as int);
            }
            match token(s, i) {
                Some((t, j)) => {
                    let ghost tv = t@;
                    tokens.push(t);
                    starts.push(i);
                    proof {
                        assert(tokens_view(tokens@) =~= before + seq![tv]);
                        assert(starts_view(starts@) =~= sb + seq![i as int]);
                        assert(sb + (seq![i as int] + token_starts_from(s@, j as int)) =~= starts_view(
                            starts@,
                        ) + token_starts_from(s@, j as int));
                        match lex_from(s@, j as int) {
                            Ok(ts) => {
                                assert(before + (seq![tv] + ts) =~= tokens_view(tokens@) + ts);
                            },
                            Err(_) => {},
                        }
                    }
                    i = j;
                },
                None => {
                    return Err(lex_error(s, i));
                },
            }
        }
    }
    proof {
        assert(tokens_view(tokens@) + Seq::<TokenView>::empty() =~= tokens_view(tokens@));
        assert(starts_view(starts@) + Seq::<int>::empty() =~= starts_view(starts@));
    }
    Ok((tokens, starts))
}

/// The tokens of `input`. Spaces and tabs between tokens are dropped; a line
/// break is a token of its own. Fails at an unterminated quoted string or a
/// character that no rule accepts, with the byte offset of that character
/// (at most `u32::MAX`).
pub fn tokenize(input: &str) -> (r: Result<Vec<Token>, ParseError>)
    ensures
        match lex(input@) {
            Ok(ts) => r matches Ok(v) && tokens_view(v@) == ts,
            Err(i) => r matches Err(e) && 0 <= i < input@.len() && e.message@ == lex_error_message(
                input@[i],
            ) && e.position == clamp_to_u32(byte_offset(input@, i)),
        },
{
    let s = chars_of(input);
    match lex_chars(&s) {
        Ok((tokens, _)) => Ok(tokens),
        Err(e) => Err(e),
    }
}

} // verus!
