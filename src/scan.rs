//! Character-level scanners that the parser uses inside a word, each proved
//! against its rule in the grammar.
use vstd::prelude::*;

use crate::grammar::{
    brace_close, is_name_char, is_space, literal_end, name_end, paren_close, trim, trim_end,
    trim_start, Form,
};
use crate::lexer::has_pair;

verus! {

/// What starts at an index of a word; the executable form of [`Form`].
pub enum Found {
    Subst(usize, usize, usize),
    Unterminated,
    Var(usize, usize, Option<(usize, usize)>, usize),
    Malformed,
    Plain,
}

pub open spec fn range_view(d: Option<(usize, usize)>) -> Option<(int, int)> {
    match d {
        Some((a, b)) => Some((a as int, b as int)),
        None => None,
    }
}

impl View for Found {
    type V = Form;

    open spec fn view(&self) -> Form {
        match *self {
            Found::Subst(a, b, j) => Form::Subst(a as int, b as int, j as int),
            Found::Unterminated => Form::Unterminated,
            Found::Var(a, b, d, j) => Form::Var(a as int, b as int, range_view(d), j as int),
            Found::Malformed => Form::Malformed,
            Found::Plain => Form::Plain,
        }
    }
}

fn name_char(c: char) -> (r: bool)
    ensures
        r == is_name_char(c),
{
    ('a' <= c && c <= 'z') || ('A' <= c && c <= 'Z') || ('0' <= c && c <= '9') || c == '_'
}

proof fn lemma_name_end_bounds(s: Seq<char>, k: int)
    requires
        0 <= k <= s.len(),
    ensures
        k <= name_end(s, k) <= s.len(),
    decreases s.len() - k,
{
    if k < s.len() && is_name_char(s[k]) {
        lemma_name_end_bounds(s, k + 1);
    }
}

proof fn lemma_brace_close_bounds(s: Seq<char>, k: int)
    requires
        0 <= k <= s.len(),
    ensures
        k <= brace_close(s, k) <= s.len(),
    decreases s.len() - k,
{
    if k < s.len() && s[k] != '}' {
        lemma_brace_close_bounds(s, k + 1);
    }
}

proof fn lemma_paren_close_bounds(s: Seq<char>, k: int, depth: nat)
    requires
        0 <= k,
    ensures
        paren_close(s, k, depth) matches Some(c) ==> k <= c < s.len(),
    decreases s.len() - k,
{
    if 0 <= k < s.len() {
        if s[k] == '(' {
            lemma_paren_close_bounds(s, k + 1, depth + 1);
        } else if s[k] == ')' {
            if depth > 1 {
                lemma_paren_close_bounds(s, k + 1, (depth - 1) as nat);
            }
        } else {
            lemma_paren_close_bounds(s, k + 1, depth);
        }
    }
}

/// The end of the run of name characters that starts at `k`.
fn scan_name_end(s: &Vec<char>, k: usize) -> (r: usize)
    requires
        k <= s.len(),
    ensures
        r == name_end(s@, k as int),
        k <= r <= s.len(),
{
    let mut j = k;
    while j < s.len() && name_char(s[j])
        invariant
            k <= j <= s.len(),
            name_end(s@, k as int) == name_end(s@, j as int),
        decreases s.len() - j,
    {
        j = j + 1;
    }
    j
}

/// The index of the first `}` at or after `k`, or the length of `s`.
fn scan_brace_close(s: &Vec<char>, k: usize) -> (r: usize)
    requires
        k <= s.len(),
    ensures
        r == brace_close(s@, k as int),
        k <= r <= s.len(),
{
    let mut j = k;
    while j < s.len() && s[j] != '}'
        invariant
            k <= j <= s.len(),
            brace_close(s@, k as int) == brace_close(s@, j as int),
        decreases s.len() - j,
    {
        j = j + 1;
    }
    j
}

/// The index of the `)` that closes a `$(` whose body starts at `k`,
/// counting the parentheses in between.
fn scan_paren_close(s: &Vec<char>, k: usize) -> (r: Option<usize>)
    requires
        1 <= k <= s.len(),
    ensures
        match r {
            Some(c) => paren_close(s@, k as int, 1) == Some(c as int) && k <= c < s.len(),
            None => paren_close(s@, k as int, 1) is None,
        },
{
    let mut j = k;
    let mut depth: usize = 1;
    while j < s.len()
        invariant
            1 <= k <= j <= s.len(),
            1 <= depth <= j - k + 1,
            paren_close(s@, k as int, 1) == paren_close(s@, j as int, depth as nat),
        decreases s.len() - j,
    {
        if s[j] == '(' {
            depth = depth + 1;
        } else if s[j] == ')' {
            if depth == 1 {
                return Some(j);
            }
            depth = depth - 1;
        }
        j = j + 1;
    }
    None
}

/// What starts at index `i` of the word text `s`.
pub fn dollar_form(s: &Vec<char>, i: usize) -> (r: Found)
    requires
        i < s.len(),
    ensures
        r@ == crate::grammar::form_at(s@, i as int),
        match r {
            Found::Subst(a, b, j) => i < a <= b < j <= s.len(),
            Found::Var(a, b, d, j) => i < a <= b <= j <= s.len() && i < j && match d {
                Some((x, y)) => x <= y <= s.len(),
                None => true,
            },
            _ => true,
        },
{
    reveal(crate::grammar::form_at);
    if s.len() - i < 2 || s[i] != '$' {
        return Found::Plain;
    }
    if s[i + 1] == '(' {
        proof {
            lemma_paren_close_bounds(s@, i + 2, 1);
        }
        match scan_paren_close(s, i + 2) {
            Some(c) => Found::Subst(i + 2, c, c + 1),
            None => Found::Unterminated,
        }
    } else if s[i + 1] == '{' {
        let e = scan_name_end(s, i + 2);
        if e == i + 2 {
            Found::Malformed
        } else if e < s.len() && s[e] == '}' {
            Found::Var(i + 2, e, None, e + 1)
        } else if has_pair(s, e, ':', '-') {
            let c = scan_brace_close(s, e + 2);
            if c < s.len() {
                Found::Var(i + 2, e, Some((e + 2, c)), c + 1)
            } else {
                Found::Malformed
            }
        } else {
            Found::Malformed
        }
    } else if name_char(s[i + 1]) {
        let e = scan_name_end(s, i + 1);
        Found::Var(i + 1, e, None, e)
    } else {
        Found::Plain
    }
}

/// Where a run of literal text that reaches `k` ends.
pub fn scan_literal_end(s: &Vec<char>, k: usize) -> (r: usize)
    requires
        k <= s.len(),
    ensures
        r == literal_end(s@, k as int),
        k <= r <= s.len(),
{
    reveal(literal_end);
    let mut j = k;
    while j < s.len()
        invariant
            k <= j <= s.len(),
            literal_end(s@, k as int) == literal_end(s@, j as int),
        decreases s.len() - j,
    {
        proof {
            reveal(literal_end);
        }
        match dollar_form(s, j) {
            Found::Plain => {},
            Found::Malformed => {
                return s.len();
            },
            _ => {
                return j;
            },
        }
        j = j + 1;
    }
    j
}

/// A space or a line break: what a rebuilt body may carry at its ends.
fn space(c: char) -> (r: bool)
    ensures
        r == is_space(c),
{
    c == ' ' || c == '\n'
}

proof fn lemma_trim_start(s: Seq<char>, a: int)
    requires
        0 <= a <= s.len(),
        forall|k: int| 0 <= k < a ==> is_space(#[trigger] s[k]),
        a == s.len() || !is_space(s[a]),
    ensures
        trim_start(s) == s.subrange(a, s.len() as int),
    decreases a,
{
    if a > 0 {
        let t = s.drop_first();
        assert forall|k: int| 0 <= k < a - 1 implies is_space(#[trigger] t[k]) by {
            assert(t[k] == s[k + 1]);
        }
        lemma_trim_start(t, a - 1);
        assert(t.subrange(a - 1, t.len() as int) =~= s.subrange(a, s.len() as int));
    } else {
        assert(s.subrange(0, s.len() as int) =~= s);
    }
}

proof fn lemma_trim_end(s: Seq<char>, b: int)
    requires
        0 <= b <= s.len(),
        forall|k: int| b <= k < s.len() ==> is_space(#[trigger] s[k]),
        b == 0 || !is_space(s[b - 1]),
    ensures
        trim_end(s) == s.subrange(0, b),
    decreases s.len() - b,
{
    if b < s.len() {
        let t = s.drop_last();
        assert forall|k: int| b <= k < t.len() implies is_space(#[trigger] t[k]) by {
            assert(t[k] == s[k]);
        }
        lemma_trim_end(t, b);
        assert(t.subrange(0, b) =~= s.subrange(0, b));
    } else {
        assert(s.subrange(0, b) =~= s);
    }
}

/// `s` without leading and trailing spaces and line breaks.
pub fn trim_chars(s: &Vec<char>) -> (r: Vec<char>)
    ensures
        r@ == trim(s@),
{
    let mut a: usize = 0;
    while a < s.len() && space(s[a])
        invariant
            a <= s.len(),
            forall|k: int| 0 <= k < a ==> is_space(#[trigger] s@[k]),
        decreases s.len() - a,
    {
        a = a + 1;
    }
    let mut b: usize = s.len();
    while b > a && space(s[b - 1])
        invariant
            a <= b <= s.len(),
            forall|k: int| b <= k < s.len() ==> is_space(#[trigger] s@[k]),
        decreases b,
    {
        b = b - 1;
    }
    let mut r: Vec<char> = Vec::new();
    let mut k = a;
    while k < b
        invariant
            a <= k <= b <= s.len(),
            r@ == s@.subrange(a as int, k as int),
        decreases b - k,
    {
        r.push(s[k]);
        proof {
            assert(r@ =~= s@.subrange(a as int, k + 1));
        }
        k = k + 1;
    }
    proof {
        lemma_trim_start(s@, a as int);
        let t = s@.subrange(a as int, s@.len() as int);
        let bb = b - a;
        assert forall|k: int| bb <= k < t.len() implies is_space(#[trigger] t[k]) by {
            assert(t[k] == s@[k + a]);
        }
        if bb > 0 {
            assert(t[bb - 1] == s@[b - 1]);
        }
        lemma_trim_end(t, bb);
        assert(t.subrange(0, bb) =~= s@.subrange(a as int, b as int));
    }
    r
}

} // verus!
