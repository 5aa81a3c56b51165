//! Properties that hold of every parse result.
use vstd::multiset::Multiset;
use vstd::prelude::*;

use crate::ast::{CommandView, Connector, ElementView, RedirectView, SegmentView, WordView};
use crate::grammar::{
    command_from, elements_from, is_blank_command, parse_tokens, pipeline_from, rescan,
    rescan_from, word_of, Form,
};
use crate::grammar::{escape_char, escape_dq, token_text};
use crate::lexer::{
    dq_body, escape_of, is_blank, is_meta_char, lemma_quote_close_bounds, lemma_token_at_bounds,
    lemma_word_end_bounds, lex, lex_from, operator_at, quote_close, token_at, word_end,
    word_stops_at, TokenView,
};

verus! {

broadcast use vstd::multiset::group_multiset_axioms;

// ---------------------------------------------------------------------------
// Substitution ids occurring in a result

/// The ids of `f` over the items of `s`, all together.
pub open spec fn sum_ids<T>(s: Seq<T>, f: spec_fn(T) -> Multiset<nat>) -> Multiset<nat>
    decreases s.len(),
{
    if s.len() == 0 {
        Multiset::empty()
    } else {
        f(s[0]).add(sum_ids(s.drop_first(), f))
    }
}

pub open spec fn segment_ids(s: SegmentView) -> Multiset<nat> {
    match s {
        SegmentView::CommandSubst(id) => Multiset::singleton(id),
        _ => Multiset::empty(),
    }
}

/// The ids of the command substitutions in a word.
pub open spec fn word_ids(w: WordView) -> Multiset<nat> {
    sum_ids(w, |s: SegmentView| segment_ids(s))
}

/// The ids in a command's arguments and redirection targets.
pub open spec fn command_ids(c: CommandView) -> Multiset<nat> {
    sum_ids(c.args, |w: WordView| word_ids(w)).add(
        sum_ids(c.redirects, |r: RedirectView| word_ids(r.target)),
    )
}

pub open spec fn pipeline_ids(cs: Seq<CommandView>) -> Multiset<nat> {
    sum_ids(cs, |c: CommandView| command_ids(c))
}

/// The ids of all command substitutions in a sequence of elements.
pub open spec fn result_ids(es: Seq<ElementView>) -> Multiset<nat> {
    sum_ids(es, |e: ElementView| pipeline_ids(e.pipeline))
}

/// Each of `lo`, ..., `hi - 1` once.
pub open spec fn id_range(lo: nat, hi: nat) -> Multiset<nat>
    decreases hi,
{
    if hi <= lo {
        Multiset::empty()
    } else {
        id_range(lo, (hi - 1) as nat).insert((hi - 1) as nat)
    }
}

proof fn lemma_sum_ids_concat<T>(a: Seq<T>, b: Seq<T>, f: spec_fn(T) -> Multiset<nat>)
    ensures
        sum_ids(a + b, f) == sum_ids(a, f).add(sum_ids(b, f)),
    decreases a.len(),
{
    if a.len() == 0 {
        assert(a + b =~= b);
        assert(sum_ids(a + b, f) =~= sum_ids(a, f).add(sum_ids(b, f)));
    } else {
        assert((a + b).drop_first() =~= a.drop_first() + b);
        lemma_sum_ids_concat(a.drop_first(), b, f);
        assert(sum_ids(a + b, f) =~= sum_ids(a, f).add(sum_ids(b, f)));
    }
}

proof fn lemma_sum_ids_one<T>(x: T, f: spec_fn(T) -> Multiset<nat>)
    ensures
        sum_ids(seq![x], f) == f(x),
{
    assert(seq![x].drop_first() =~= Seq::<T>::empty());
    assert(sum_ids(seq![x].drop_first(), f) == Multiset::<nat>::empty());
    assert(f(x).add(Multiset::<nat>::empty()) =~= f(x));
}

proof fn lemma_sum_ids_part<T>(s: Seq<T>, j: int, f: spec_fn(T) -> Multiset<nat>, y: nat)
    requires
        0 <= j < s.len(),
    ensures
        f(s[j]).count(y) <= sum_ids(s, f).count(y),
    decreases s.len(),
{
    if j > 0 {
        lemma_sum_ids_part(s.drop_first(), j - 1, f, y);
        assert(s.drop_first()[j - 1] == s[j]);
    }
}

proof fn lemma_id_range_split(lo: nat, mid: nat, hi: nat)
    requires
        lo <= mid <= hi,
    ensures
        id_range(lo, mid).add(id_range(mid, hi)) == id_range(lo, hi),
    decreases hi,
{
    if hi == mid {
        assert(id_range(lo, mid).add(id_range(mid, hi)) =~= id_range(lo, hi));
    } else {
        lemma_id_range_split(lo, mid, (hi - 1) as nat);
        assert(id_range(lo, mid).add(id_range(mid, hi)) =~= id_range(lo, hi));
    }
}

proof fn lemma_id_range_count(lo: nat, hi: nat, k: nat)
    ensures
        id_range(lo, hi).count(k) == (if lo <= k < hi {
            1nat
        } else {
            0nat
        }),
        id_range(lo, hi).len() == if hi >= lo {
            hi - lo
        } else {
            0
        },
    decreases hi,
{
    if hi > lo {
        lemma_id_range_count(lo, (hi - 1) as nat, k);
    }
}

/// The ids in the items of `s` increase from item to item: every id in an
/// item is below every id in a later item.
pub open spec fn ids_increase<T>(s: Seq<T>, f: spec_fn(T) -> Multiset<nat>) -> bool {
    forall|i: int, j: int, x: nat, y: nat|
        0 <= i < j < s.len() && #[trigger] f(s[i]).count(x) > 0 && #[trigger] f(s[j]).count(y) > 0
            ==> x < y
}

/// The substitution ids of a word increase from segment to segment.
pub open spec fn word_in_order(w: WordView) -> bool {
    ids_increase(w, |x: SegmentView| segment_ids(x))
}

/// The substitution ids of a command increase from argument to argument,
/// and from redirection to redirection.
pub open spec fn command_in_order(c: CommandView) -> bool {
    &&& ids_increase(c.args, |w: WordView| word_ids(w))
    &&& ids_increase(c.redirects, |r: RedirectView| word_ids(r.target))
}

proof fn lemma_range_bounds(lo: nat, hi: nat)
    ensures
        forall|y: nat| #[trigger] id_range(lo, hi).count(y) > 0 ==> lo <= y < hi,
{
    assert forall|y: nat| #[trigger] id_range(lo, hi).count(y) > 0 implies lo <= y < hi by {
        lemma_id_range_count(lo, hi, y);
    }
}

proof fn lemma_increase_prepend<T>(x: T, rest: Seq<T>, f: spec_fn(T) -> Multiset<nat>, mid: nat)
    requires
        forall|y: nat| #[trigger] f(x).count(y) > 0 ==> y < mid,
        forall|y: nat| #[trigger] sum_ids(rest, f).count(y) > 0 ==> y >= mid,
        ids_increase(rest, f),
    ensures
        ids_increase(seq![x] + rest, f),
{
    let s = seq![x] + rest;
    assert forall|i: int, j: int, a: nat, b: nat|
        0 <= i < j < s.len() && #[trigger] f(s[i]).count(a) > 0 && #[trigger] f(s[j]).count(b) > 0
            implies a < b by {
        assert(s[j] == rest[j - 1]);
        lemma_sum_ids_part(rest, j - 1, f, b);
        if i == 0 {
            assert(s[0] == x);
        } else {
            assert(s[i] == rest[i - 1]);
        }
    }
}

// ---------------------------------------------------------------------------
// Ids, function by function

proof fn lemma_rescan_from_order(s: Seq<char>, i: int, base: nat)
    ensures
        rescan_from(s, i, base) matches Ok((w, b)) ==> word_in_order(w),
    decreases s.len() - i,
{
    reveal(rescan_from);
    let f = |x: SegmentView| segment_ids(x);
    if 0 <= i < s.len() {
        let form = crate::grammar::form_at(s, i);
        let next = match form {
            Form::Subst(_, _, j) => j,
            Form::Var(_, _, _, j) => j,
            Form::Plain => crate::grammar::literal_end(s, i + 1),
            _ => i,
        };
        let nb: nat = match form {
            Form::Subst(_, _, _) => base + 1,
            _ => base,
        };
        if i < next <= s.len() {
            lemma_rescan_from_order(s, next, nb);
            lemma_rescan_from_ids(s, next, nb);
            if let Ok((w, bs)) = rescan_from(s, i, base) {
                if let Ok((w2, b2)) = rescan_from(s, next, nb) {
                    lemma_range_bounds(nb, nb + b2.len());
                    let seg = w[0];
                    assert(w =~= seq![seg] + w2);
                    if seg is CommandSubst {
                        assert(seg == SegmentView::CommandSubst(base));
                    }
                    lemma_increase_prepend(seg, w2, f, nb);
                }
            }
        }
    }
}


proof fn lemma_rescan_from_ids(s: Seq<char>, i: int, base: nat)
    ensures
        rescan_from(s, i, base) matches Ok((w, b)) ==> word_ids(w) == id_range(base, base + b.len()),
    decreases s.len() - i,
{
    reveal(rescan_from);
    if 0 <= i < s.len() {
        match crate::grammar::form_at(s, i) {
            Form::Subst(a, b, j) => {
                if base < u32::MAX && i < j <= s.len() {
                    lemma_rescan_from_ids(s, j, base + 1);
                    let seg = seq![SegmentView::CommandSubst(base)];
                    if let Ok((w2, b2)) = rescan_from(s, j, base + 1) {
                        lemma_sum_ids_concat(seg, w2, |x: SegmentView| segment_ids(x));
                        lemma_sum_ids_one(SegmentView::CommandSubst(base), |x: SegmentView| segment_ids(x));
                        lemma_id_range_split(base, base + 1, base + 1 + b2.len());
                        assert(id_range(base, base) == Multiset::<nat>::empty());
                        assert(id_range(base, base + 1) =~= Multiset::singleton(base));
                        assert((seq![s.subrange(a, b)] + b2).len() == 1 + b2.len());
                    }
                }
            },
            Form::Var(a, b, d, j) => {
                if i < j <= s.len() {
                    lemma_rescan_from_ids(s, j, base);
                    let seg = seq![SegmentView::EnvVar(s.subrange(a, b), crate::grammar::default_view(s, d))];
                    if let Ok((w2, b2)) = rescan_from(s, j, base) {
                        lemma_sum_ids_concat(seg, w2, |x: SegmentView| segment_ids(x));
                        lemma_sum_ids_one(seg[0], |x: SegmentView| segment_ids(x));
                        assert(Seq::<Seq<char>>::empty() + b2 =~= b2);
                        assert(word_ids(seg + w2) =~= word_ids(w2));
                    }
                }
            },
            Form::Malformed => {
                let seg = seq![SegmentView::Literal(s.subrange(i, s.len() as int))];
                lemma_sum_ids_one(seg[0], |x: SegmentView| segment_ids(x));
                assert(id_range(base, base) =~= Multiset::empty());
            },
            Form::Plain => {
                let k = crate::grammar::literal_end(s, i + 1);
                if i < k <= s.len() {
                    lemma_rescan_from_ids(s, k, base);
                    let seg = seq![SegmentView::Literal(s.subrange(i, k))];
                    if let Ok((w2, b2)) = rescan_from(s, k, base) {
                        lemma_sum_ids_concat(seg, w2, |x: SegmentView| segment_ids(x));
                        lemma_sum_ids_one(seg[0], |x: SegmentView| segment_ids(x));
                        assert(Seq::<Seq<char>>::empty() + b2 =~= b2);
                        assert(word_ids(seg + w2) =~= word_ids(w2));
                    }
                }
            },
            Form::Unterminated => {},
        }
    } else {
        assert(id_range(base, base) =~= Multiset::empty());
    }
}

proof fn lemma_name_end_chars(s: Seq<char>, k: int)
    requires
        0 <= k <= s.len(),
    ensures
        k <= crate::grammar::name_end(s, k) <= s.len(),
        forall|j: int| k <= j < crate::grammar::name_end(s, k) ==> crate::grammar::is_name_char(#[trigger] s[j]),
    decreases s.len() - k,
{
    if k < s.len() && crate::grammar::is_name_char(s[k]) {
        lemma_name_end_chars(s, k + 1);
    }
}

proof fn lemma_rescan_from_names(s: Seq<char>, i: int, base: nat)
    ensures
        rescan_from(s, i, base) matches Ok((w, b)) ==> forall|k: int|
            0 <= k < w.len() && (#[trigger] w[k]) is EnvVar ==> valid_name(w[k]->EnvVar_0),
    decreases s.len() - i,
{
    reveal(rescan_from);
    if 0 <= i < s.len() {
        let f = crate::grammar::form_at(s, i);
        let next = match f {
            Form::Subst(_, _, j) => j,
            Form::Var(_, _, _, j) => j,
            Form::Plain => crate::grammar::literal_end(s, i + 1),
            _ => i,
        };
        let nb = match f {
            Form::Subst(_, _, _) => base + 1,
            _ => base,
        };
        if i < next <= s.len() {
            lemma_rescan_from_names(s, next, nb);
        }
        if let Form::Var(a, b, d, j) = f {
            reveal(crate::grammar::form_at);
            lemma_name_end_chars(s, a);
            if s[i + 1] != '{' {
                assert(crate::grammar::name_end(s, i + 1) == crate::grammar::name_end(s, i + 2));
                lemma_name_end_chars(s, i + 2);
            }
            assert(b == crate::grammar::name_end(s, a));
            assert(a < b);
            let n = s.subrange(a, b);
            assert forall|k: int| 0 <= k < n.len() implies crate::grammar::is_name_char(
                #[trigger] n[k],
            ) by {
                assert(n[k] == s[a + k]);
            }
        }
        if let Ok((w, bs)) = rescan_from(s, i, base) {
            if let Ok((w2, b2)) = rescan_from(s, next, nb) {
                assert forall|k: int| 0 < k < w.len() implies w[k] == w2[k - 1] by {}
            }
        }
    }
}

proof fn lemma_word_of_ids(t: TokenView, subs: Seq<Seq<char>>, p: int)
    ensures
        word_of(t, subs, p) matches Ok((w, s1)) ==> subs.len() <= s1.len() && word_ids(w)
            == id_range(subs.len(), s1.len()) && word_ok(w),
{
    reveal(word_of);
    reveal(rescan);
    lemma_rescan_from_names(t->Word_0, 0, subs.len());
    lemma_rescan_from_names(t->DoubleQuoted_0, 0, subs.len());
    lemma_rescan_from_order(t->Word_0, 0, subs.len());
    lemma_rescan_from_order(t->DoubleQuoted_0, 0, subs.len());
    lemma_rescan_from_ids(t->Word_0, 0, subs.len());
    lemma_rescan_from_ids(t->DoubleQuoted_0, 0, subs.len());
    let lit = seq![SegmentView::Literal(Seq::<char>::empty())];
    lemma_sum_ids_one(lit[0], |x: SegmentView| segment_ids(x));
    assert(id_range(subs.len(), subs.len()) =~= Multiset::empty());
    lemma_id_range_count(subs.len(), subs.len(), 0);
    match t {
        TokenView::Word(s) => {
            if let Ok((segs, b)) = rescan_from(s, 0, subs.len()) {
                lemma_id_range_count(subs.len(), subs.len() + b.len(), 0);
            }
        },
        TokenView::DoubleQuoted(s) => {
            if let Ok((segs, b)) = rescan_from(s, 0, subs.len()) {
                lemma_id_range_count(subs.len(), subs.len() + b.len(), 0);
            }
        },
        TokenView::SingleQuoted(s) => {
            lemma_sum_ids_one(SegmentView::Literal(s), |x: SegmentView| segment_ids(x));
        },
        _ => {},
    }
}

/// A non-empty run of `[A-Za-z0-9_]`.
pub open spec fn valid_name(n: Seq<char>) -> bool {
    n.len() > 0 && forall|k: int| 0 <= k < n.len() ==> crate::grammar::is_name_char(#[trigger] n[k])
}

/// A word has a segment, its substitution ids increase from segment to
/// segment, and each variable in it has a valid name.
pub open spec fn word_ok(w: WordView) -> bool {
    &&& w.len() >= 1
    &&& word_in_order(w)
    &&& forall|k: int| 0 <= k < w.len() && (#[trigger] w[k]) is EnvVar ==> valid_name(w[k]->EnvVar_0)
}

/// Every word of the command is well formed.
pub open spec fn command_words_ok(c: CommandView) -> bool {
    &&& forall|k: int| 0 <= k < c.args.len() ==> word_ok(#[trigger] c.args[k])
    &&& forall|k: int| 0 <= k < c.redirects.len() ==> word_ok((#[trigger] c.redirects[k]).target)
}

pub open spec fn join_commands(a: CommandView, b: CommandView) -> CommandView {
    CommandView { args: a.args + b.args, redirects: a.redirects + b.redirects }
}

proof fn lemma_join(a: CommandView, b: CommandView)
    ensures
        command_ids(join_commands(a, b)) == command_ids(a).add(command_ids(b)),
        command_words_ok(a) && command_words_ok(b) ==> command_words_ok(join_commands(a, b)),
        is_blank_command(join_commands(a, b)) == (is_blank_command(a) && is_blank_command(b)),
{
    let j = join_commands(a, b);
    lemma_sum_ids_concat(a.args, b.args, |w: WordView| word_ids(w));
    lemma_sum_ids_concat(a.redirects, b.redirects, |r: RedirectView| word_ids(r.target));
    assert(command_ids(j) =~= command_ids(a).add(command_ids(b)));
    if command_words_ok(a) && command_words_ok(b) {
        assert forall|k: int| 0 <= k < j.args.len() implies word_ok(#[trigger] j.args[k]) by {
            if k < a.args.len() {
                assert(j.args[k] == a.args[k]);
            } else {
                assert(j.args[k] == b.args[k - a.args.len()]);
            }
        }
        assert forall|k: int| 0 <= k < j.redirects.len() implies word_ok(
            (#[trigger] j.redirects[k]).target,
        ) by {
            if k < a.redirects.len() {
                assert(j.redirects[k] == a.redirects[k]);
            } else {
                assert(j.redirects[k] == b.redirects[k - a.redirects.len()]);
            }
        }
    }
}

proof fn lemma_command_order_arg(w: WordView, c2: CommandView, lo: nat, mid: nat, hi: nat)
    requires
        word_ids(w) == id_range(lo, mid),
        command_ids(c2) == id_range(mid, hi),
        command_in_order(c2),
    ensures
        command_in_order(
            join_commands(CommandView { args: seq![w], redirects: Seq::empty() }, c2),
        ),
{
    let j = join_commands(CommandView { args: seq![w], redirects: Seq::empty() }, c2);
    lemma_range_bounds(lo, mid);
    lemma_range_bounds(mid, hi);
    let f = |x: WordView| word_ids(x);
    assert forall|y: nat| #[trigger] sum_ids(c2.args, f).count(y) > 0 implies y >= mid by {
        assert(command_ids(c2).count(y) > 0);
    }
    lemma_increase_prepend(w, c2.args, f, mid);
    assert(j.args =~= seq![w] + c2.args);
    assert(j.redirects =~= c2.redirects);
}

proof fn lemma_command_order_redirect(rv: RedirectView, c2: CommandView, lo: nat, mid: nat, hi: nat)
    requires
        word_ids(rv.target) == id_range(lo, mid),
        command_ids(c2) == id_range(mid, hi),
        command_in_order(c2),
    ensures
        command_in_order(
            join_commands(CommandView { args: Seq::empty(), redirects: seq![rv] }, c2),
        ),
{
    let j = join_commands(CommandView { args: Seq::empty(), redirects: seq![rv] }, c2);
    lemma_range_bounds(lo, mid);
    lemma_range_bounds(mid, hi);
    let f = |r: RedirectView| word_ids(r.target);
    assert forall|y: nat| #[trigger] sum_ids(c2.redirects, f).count(y) > 0 implies y >= mid by {
        assert(command_ids(c2).count(y) > 0);
    }
    lemma_increase_prepend(rv, c2.redirects, f, mid);
    assert(j.redirects =~= seq![rv] + c2.redirects);
    assert(j.args =~= c2.args);
}

proof fn lemma_command_from(t: Seq<TokenView>, p: int, subs: Seq<Seq<char>>)
    ensures
        command_from(t, p, subs) matches Ok((c, q, s1)) ==> {
            &&& subs.len() <= s1.len()
            &&& command_ids(c) == id_range(subs.len(), s1.len())
            &&& command_words_ok(c)
            &&& command_in_order(c)
            &&& (q == p ==> is_blank_command(c))
            &&& (p <= q ==> (q == p || !is_blank_command(c)))
            &&& (0 <= p ==> p <= q)
        },
    decreases t.len() - p,
{
    reveal(command_from);
    let n = subs.len();
    let e = crate::grammar::empty_command();
    assert(command_ids(e) =~= Multiset::empty()) by {
        assert(sum_ids(e.args, |w: WordView| word_ids(w)) == Multiset::<nat>::empty());
        assert(sum_ids(e.redirects, |r: RedirectView| word_ids(r.target)) == Multiset::<nat>::empty());
    }
    assert(id_range(n, n) == Multiset::<nat>::empty());
    if 0 <= p < t.len() {
        if crate::grammar::is_word_token(t[p]) {
            lemma_word_of_ids(t[p], subs, p);
            if let Ok((w, s1)) = word_of(t[p], subs, p) {
                lemma_command_from(t, p + 1, s1);
                let one = CommandView { args: seq![w], redirects: Seq::empty() };
                if let Ok((c2, q2, s2)) = command_from(t, p + 1, s1) {
                    lemma_join(one, c2);
                    lemma_sum_ids_one(w, |x: WordView| word_ids(x));
                    assert(sum_ids(one.redirects, |r: RedirectView| word_ids(r.target)) == Multiset::<nat>::empty());
                    assert(command_ids(one) =~= word_ids(w));
                    lemma_id_range_split(n, s1.len(), s2.len());
                    assert(one.args[0] == w);
                    lemma_command_order_arg(w, c2, n, s1.len(), s2.len());
                }
            }
        } else if crate::grammar::is_redirect_token(t[p]) {
            if p + 1 < t.len() && crate::grammar::is_word_token(t[p + 1]) {
                lemma_word_of_ids(t[p + 1], subs, p + 1);
                if let Ok((w, s1)) = word_of(t[p + 1], subs, p + 1) {
                    lemma_command_from(t, p + 2, s1);
                    let rv = RedirectView { kind: crate::grammar::redirect_kind_of(t[p]), target: w };
                    let one = CommandView { args: Seq::empty(), redirects: seq![rv] };
                    if let Ok((c2, q2, s2)) = command_from(t, p + 2, s1) {
                        lemma_join(one, c2);
                        lemma_sum_ids_one(rv, |r: RedirectView| word_ids(r.target));
                        assert(sum_ids(one.args, |x: WordView| word_ids(x)) == Multiset::<nat>::empty());
                        assert(command_ids(one) =~= word_ids(w));
                        lemma_id_range_split(n, s1.len(), s2.len());
                        assert(one.redirects[0] == rv);
                        lemma_command_order_redirect(rv, c2, n, s1.len(), s2.len());
                    }
                }
            }
        } else if t[p] is SubstStart {
            if let Some((text, q)) = crate::grammar::subst_text(t, p + 1, 1) {
                if n < u32::MAX && p < q <= t.len() {
                    let s1 = subs.push(crate::grammar::trim(text));
                    lemma_command_from(t, q, s1);
                    let w = seq![SegmentView::CommandSubst(n)];
                    let one = CommandView { args: seq![w], redirects: Seq::empty() };
                    if let Ok((c2, q2, s2)) = command_from(t, q, s1) {
                        lemma_join(one, c2);
                        lemma_sum_ids_one(w, |x: WordView| word_ids(x));
                        lemma_sum_ids_one(SegmentView::CommandSubst(n), |x: SegmentView| segment_ids(x));
                        assert(sum_ids(one.redirects, |r: RedirectView| word_ids(r.target)) == Multiset::<nat>::empty());
                        assert(command_ids(one) =~= Multiset::singleton(n));
                        assert(id_range(n, n + 1) =~= Multiset::singleton(n));
                        lemma_id_range_split(n, n + 1, s2.len());
                        assert(one.args[0] == w);
                        assert(word_ids(w) == id_range(n, n + 1));
                        lemma_command_order_arg(w, c2, n, n + 1, s2.len());
                    }
                }
            }
        }
    }
}

/// The pipeline's commands all have words with segments, and none is blank
/// unless it stands alone.
pub open spec fn pipeline_shape(cs: Seq<CommandView>, after_pipe: bool) -> bool {
    &&& cs.len() >= 1
    &&& forall|k: int| 0 <= k < cs.len() ==> command_words_ok(#[trigger] cs[k])
    &&& forall|k: int|
        0 <= k < cs.len() ==> (cs.len() > 1 || after_pipe) ==> !is_blank_command(#[trigger] cs[k])
}

proof fn lemma_pipeline_from(t: Seq<TokenView>, p: int, subs: Seq<Seq<char>>, after_pipe: bool)
    requires
        0 <= p,
    ensures
        pipeline_from(t, p, subs, after_pipe) matches Ok((cs, q, s1)) ==> {
            &&& subs.len() <= s1.len()
            &&& pipeline_ids(cs) == id_range(subs.len(), s1.len())
            &&& pipeline_shape(cs, after_pipe)
            &&& commands_in_order(cs)
            &&& forall|k: int| 0 <= k < cs.len() ==> command_in_order(#[trigger] cs[k])
            &&& (q > p ==> !is_blank_command(cs[0]) || cs.len() > 1)
            &&& p <= q
        },
    decreases t.len() - p,
{
    reveal(pipeline_from);
    lemma_command_from(t, p, subs);
    if let Ok((c, q, s1)) = command_from(t, p, subs) {
        lemma_sum_ids_one(c, |x: CommandView| command_ids(x));
        if !(after_pipe && is_blank_command(c)) {
            if 0 <= q < t.len() && t[q] is Pipe {
                if !is_blank_command(c) && p <= q {
                    lemma_pipeline_from(t, q + 1, s1, true);
                    if let Ok((ds, q2, s2)) = pipeline_from(t, q + 1, s1, true) {
                        let cs = seq![c] + ds;
                        lemma_sum_ids_concat(seq![c], ds, |x: CommandView| command_ids(x));
                        lemma_id_range_split(subs.len(), s1.len(), s2.len());
                        assert forall|k: int| 0 <= k < cs.len() implies command_words_ok(#[trigger] cs[k]) && !is_blank_command(cs[k]) by {
                            if k > 0 {
                                assert(cs[k] == ds[k - 1]);
                            }
                        }
                        assert forall|i: int, j: int, x: nat, y: nat|
                            0 <= i < j < cs.len() && #[trigger] command_ids(cs[i]).count(x) > 0
                                && #[trigger] command_ids(cs[j]).count(y) > 0 implies x < y by {
                            assert(cs[j] == ds[j - 1]);
                            lemma_sum_ids_part(ds, j - 1, |x: CommandView| command_ids(x), y);
                            lemma_id_range_count(s1.len(), s2.len(), y);
                            if i == 0 {
                                assert(cs[0] == c);
                                lemma_id_range_count(subs.len(), s1.len(), x);
                            } else {
                                assert(cs[i] == ds[i - 1]);
                            }
                        }
                    }
                }
            } else {
                let cs = seq![c];
                assert forall|k: int| 0 <= k < cs.len() implies command_words_ok(#[trigger] cs[k]) by {
                    assert(cs[k] == c);
                }
            }
        }
    }
}

/// The ids in each command of a pipeline are all below those of every
/// later command.
pub open spec fn commands_in_order(cs: Seq<CommandView>) -> bool {
    forall|i: int, j: int, x: nat, y: nat|
        0 <= i < j < cs.len() && #[trigger] command_ids(cs[i]).count(x) > 0 && #[trigger] command_ids(
            cs[j],
        ).count(y) > 0 ==> x < y
}

/// The ids in each element are all below those of every later element.
pub open spec fn elements_in_order(es: Seq<ElementView>) -> bool {
    forall|i: int, j: int, x: nat, y: nat|
        0 <= i < j < es.len() && #[trigger] pipeline_ids(es[i].pipeline).count(x) > 0
            && #[trigger] pipeline_ids(es[j].pipeline).count(y) > 0 ==> x < y
}

/// A pipeline as it may stand in a result: at least one command, each with
/// an argument or a redirection, and each word well formed.
pub open spec fn pipeline_emitted_ok(cs: Seq<CommandView>) -> bool {
    &&& cs.len() >= 1
    &&& forall|k: int|
        0 <= k < cs.len() ==> command_words_ok(#[trigger] cs[k]) && !is_blank_command(cs[k])
}

proof fn lemma_elements_from(t: Seq<TokenView>, p: int, subs: Seq<Seq<char>>, conn: Connector)
    requires
        0 <= p,
    ensures
        elements_from(t, p, subs, conn) matches Ok((es, s1)) ==> {
            &&& subs.len() <= s1.len()
            &&& result_ids(es) == id_range(subs.len(), s1.len())
            &&& forall|k: int| 0 <= k < es.len() ==> pipeline_emitted_ok(#[trigger] es[k].pipeline)
            &&& elements_in_order(es)
            &&& forall|k: int| 0 <= k < es.len() ==> commands_in_order(#[trigger] es[k].pipeline)
            &&& forall|k: int, m: int|
                0 <= k < es.len() && 0 <= m < es[k].pipeline.len() ==> command_in_order(
                    #[trigger] es[k].pipeline[m],
                )
            &&& es.len() > 0 ==> es[0].connector == conn
        },
    decreases t.len() - p,
{
    reveal(elements_from);
    let n = subs.len();
    assert(id_range(n, n) == Multiset::<nat>::empty());
    assert(result_ids(Seq::<ElementView>::empty()) == Multiset::<nat>::empty());
    let first = crate::grammar::skip_newlines(t, p);
    if p <= first && first < t.len() {
        lemma_pipeline_from(t, first, subs, false);
        if let Ok((cs, q, s1)) = pipeline_from(t, first, subs, false) {
            if first < q <= t.len() {
                lemma_command_from(t, first, subs);
                reveal(pipeline_from);
                let e = ElementView { connector: conn, pipeline: cs };
                lemma_sum_ids_one(e, |x: ElementView| pipeline_ids(x.pipeline));
                assert(pipeline_emitted_ok(cs));
                let rest_conn = if q < t.len() && t[q] is And {
                    Connector::And
                } else if q < t.len() && t[q] is Or {
                    Connector::Or
                } else {
                    Connector::Unconditional
                };
                let next = if q < t.len() && (t[q] is And || t[q] is Or) {
                    q + 1
                } else {
                    q
                };
                if q >= t.len() {
                    assert(seq![e][0] == e);
                    assert(commands_in_order(seq![e][0].pipeline));
                    assert(result_ids(seq![e]) == pipeline_ids(cs));
                } else if t[q] is And || t[q] is Or || t[q] is Newline {
                    lemma_elements_from(t, next, s1, rest_conn);
                    if let Ok((ds, s2)) = elements_from(t, next, s1, rest_conn) {
                        let es = seq![e] + ds;
                        lemma_sum_ids_concat(seq![e], ds, |x: ElementView| pipeline_ids(x.pipeline));
                        lemma_id_range_split(n, s1.len(), s2.len());
                        assert forall|k: int| 0 <= k < es.len() implies pipeline_emitted_ok(#[trigger] es[k].pipeline) && commands_in_order(es[k].pipeline) by {
                            if k > 0 {
                                assert(es[k] == ds[k - 1]);
                            }
                        }
                        assert forall|i: int, j: int, x: nat, y: nat|
                            0 <= i < j < es.len() && #[trigger] pipeline_ids(es[i].pipeline).count(x)
                                > 0 && #[trigger] pipeline_ids(es[j].pipeline).count(y) > 0 implies x
                            < y by {
                            assert(es[j] == ds[j - 1]);
                            lemma_sum_ids_part(ds, j - 1, |x: ElementView| pipeline_ids(x.pipeline), y);
                            lemma_id_range_count(s1.len(), s2.len(), y);
                            if i == 0 {
                                assert(es[0] == e);
                                lemma_id_range_count(n, s1.len(), x);
                            } else {
                                assert(es[i] == ds[i - 1]);
                            }
                        }
                    }
                }
            }
        }
    }
}

// ---------------------------------------------------------------------------
// Laws

/// Every command substitution id that occurs in the result of parsing
/// tokens occurs exactly once and is below the number of table entries;
/// every entry's id occurs. (The table holds each body at the index that is
/// its id.)
pub proof fn lemma_substitution_ids(t: Seq<TokenView>)
    ensures
        parse_tokens(t) matches Ok((es, subs)) ==> forall|k: nat|
            #[trigger] result_ids(es).count(k) == (if k < subs.len() {
                1nat
            } else {
                0nat
            }),
{
    lemma_elements_from(t, 0, Seq::empty(), Connector::Unconditional);
    if let Ok((es, subs)) = parse_tokens(t) {
        assert forall|k: nat| #[trigger] result_ids(es).count(k) == (if k < subs.len() {
            1nat
        } else {
            0nat
        }) by {
            lemma_id_range_count(0, subs.len(), k);
        }
    }
}

/// Command substitutions are numbered in the order they appear: every id in
/// an element is below every id in a later element; within a pipeline, every
/// id in a command is below every id in a later command; within a command,
/// ids increase from argument to argument and from redirection to
/// redirection; within a word, from segment to segment.
pub proof fn lemma_substitution_order(t: Seq<TokenView>)
    ensures
        parse_tokens(t) matches Ok((es, subs)) ==> {
            &&& elements_in_order(es)
            &&& forall|k: int| 0 <= k < es.len() ==> commands_in_order(#[trigger] es[k].pipeline)
            &&& forall|k: int, m: int|
                0 <= k < es.len() && 0 <= m < es[k].pipeline.len() ==> {
                    &&& command_in_order(#[trigger] es[k].pipeline[m])
                    &&& forall|a: int|
                        0 <= a < es[k].pipeline[m].args.len() ==> word_in_order(
                            #[trigger] es[k].pipeline[m].args[a],
                        )
                    &&& forall|a: int|
                        0 <= a < es[k].pipeline[m].redirects.len() ==> word_in_order(
                            (#[trigger] es[k].pipeline[m].redirects[a]).target,
                        )
                }
        },
{
    lemma_elements_from(t, 0, Seq::empty(), Connector::Unconditional);
}

/// The number of command substitution segments in the result of parsing
/// tokens equals the number of entries in its substitution table.
pub proof fn lemma_substitution_count(t: Seq<TokenView>)
    ensures
        parse_tokens(t) matches Ok((es, subs)) ==> result_ids(es).len() == subs.len(),
{
    lemma_elements_from(t, 0, Seq::empty(), Connector::Unconditional);
    if let Ok((es, subs)) = parse_tokens(t) {
        lemma_id_range_count(0, subs.len(), 0);
    }
}

/// Every pipeline in the result of parsing tokens has a command, no
/// command is without both arguments and redirections, every word has a
/// segment, and every variable a non-empty name of `[A-Za-z0-9_]`.
pub proof fn lemma_no_empty_command(t: Seq<TokenView>)
    ensures
        parse_tokens(t) matches Ok((es, subs)) ==> forall|k: int|
            0 <= k < es.len() ==> pipeline_emitted_ok(#[trigger] es[k].pipeline),
{
    lemma_elements_from(t, 0, Seq::empty(), Connector::Unconditional);
}

/// The first element of a non-empty parse result runs unconditionally.
pub proof fn lemma_first_connector(t: Seq<TokenView>)
    ensures
        parse_tokens(t) matches Ok((es, subs)) ==> es.len() > 0 ==> es[0].connector
            == Connector::Unconditional,
{
    lemma_elements_from(t, 0, Seq::empty(), Connector::Unconditional);
}

} // verus!

verus! {

// ---------------------------------------------------------------------------
// Tokens written back as text lex to themselves

proof fn lemma_escape_concat(a: Seq<char>, b: Seq<char>)
    ensures
        escape_dq(a + b) == escape_dq(a) + escape_dq(b),
    decreases b.len(),
{
    if b.len() == 0 {
        assert(a + b =~= a);
        assert(escape_dq(a) + escape_dq(b) =~= escape_dq(a));
    } else {
        assert((a + b).drop_last() =~= a + b.drop_last());
        assert((a + b).last() == b.last());
        lemma_escape_concat(a, b.drop_last());
        assert(escape_dq(a + b) =~= escape_dq(a) + escape_dq(b));
    }
}

proof fn lemma_escape_front(c: char, r: Seq<char>)
    ensures
        escape_dq(seq![c] + r) == escape_char(c) + escape_dq(r),
{
    lemma_escape_concat(seq![c], r);
    assert(seq![c].drop_last() =~= Seq::<char>::empty());
    assert(seq![c].last() == c);
    assert(escape_dq(Seq::<char>::empty()) == Seq::<char>::empty());
    assert(Seq::<char>::empty() + escape_char(c) =~= escape_char(c));
    assert(escape_dq(seq![c]) == escape_dq(seq![c].drop_last()) + escape_char(c));
}

/// Where `x` from `i` on holds `p` escaped and a closing quote, the
/// double-quoted body read from `i` is `p`.
proof fn lemma_dq_body_escaped(x: Seq<char>, i: int, p: Seq<char>)
    requires
        0 <= i <= x.len(),
        x.subrange(i, x.len() as int) == escape_dq(p) + seq!['"'],
    ensures
        dq_body(x, i) == Some((p, x.len() as int)),
    decreases p.len(),
{
    let tail = x.subrange(i, x.len() as int);
    if p.len() == 0 {
        assert(escape_dq(p) + seq!['"'] =~= seq!['"']);
        assert(x[i] == tail[0]);
    } else {
        let c = p[0];
        let r = p.drop_first();
        assert(p =~= seq![c] + r);
        lemma_escape_front(c, r);
        let e = escape_char(c);
        assert(tail =~= e + (escape_dq(r) + seq!['"']));
        assert(x[i] == tail[0]);
        if c == '\\' || c == '"' {
            assert(x[i + 1] == tail[1]);
            assert(x.subrange(i + 2, x.len() as int) =~= tail.subrange(2, tail.len() as int));
            assert(tail.subrange(2, tail.len() as int) =~= escape_dq(r) + seq!['"']);
            lemma_dq_body_escaped(x, i + 2, r);
            assert(escape_of(c) =~= seq![c]);
        } else {
            assert(x.subrange(i + 1, x.len() as int) =~= tail.subrange(1, tail.len() as int));
            assert(tail.subrange(1, tail.len() as int) =~= escape_dq(r) + seq!['"']);
            lemma_dq_body_escaped(x, i + 1, r);
        }
        assert(seq![c] + r =~= p);
    }
}

proof fn lemma_quote_close_at(x: Seq<char>, i: int, c: int)
    requires
        0 <= i <= c < x.len(),
        x[c] == '\'',
        forall|k: int| i <= k < c ==> x[k] != '\'',
    ensures
        quote_close(x, i) == c,
    decreases c - i,
{
    if i < c {
        lemma_quote_close_at(x, i + 1, c);
    }
}

proof fn lemma_word_end_at_end(x: Seq<char>, j: int)
    requires
        0 <= j <= x.len(),
        forall|k: int| j <= k < x.len() ==> !is_meta_char(#[trigger] x[k]),
    ensures
        word_end(x, j) == x.len(),
    decreases x.len() - j,
{
    if j < x.len() {
        assert(!is_meta_char(x[j]));
        if j + 1 < x.len() {
            assert(!is_meta_char(x[j + 1]));
        }
        lemma_word_end_at_end(x, j + 1);
    }
}

/// A token read from `s` at `i`, written back as text, lexes to itself.
proof fn lemma_token_round_trip(s: Seq<char>, i: int)
    requires
        0 <= i < s.len(),
        !is_blank(s[i]),
        s[i] != '\n',
    ensures
        token_at(s, i) matches Some((t, j)) ==> lex(token_text(t)) == Ok::<Seq<TokenView>, int>(
            seq![t],
        ),
{
    lemma_quote_close_bounds(s, i + 1);
    lemma_word_end_bounds(s, i);
    if let Some((t, j)) = token_at(s, i) {
        let x = token_text(t);
        if operator_at(s, i) is Some {
            assert(lex_from(x, x.len() as int) == Ok::<Seq<TokenView>, int>(Seq::empty()));
            assert(seq![t] + Seq::<TokenView>::empty() =~= seq![t]);
        } else if s[i] == '\'' {
            let c = quote_close(s, i + 1);
            let p = s.subrange(i + 1, c);
            assert(x =~= seq!['\''] + p + seq!['\'']);
            assert forall|k: int| 1 <= k < x.len() - 1 implies x[k] != '\'' by {
                assert(x[k] == s[i + k]);
            }
            lemma_quote_close_at(x, 1, x.len() - 1);
            assert(x.subrange(1, x.len() - 1) =~= p);
            assert(lex_from(x, x.len() as int) == Ok::<Seq<TokenView>, int>(Seq::empty()));
            assert(seq![t] + Seq::<TokenView>::empty() =~= seq![t]);
        } else if s[i] == '"' {
            let p = t->DoubleQuoted_0;
            assert(x.subrange(1, x.len() as int) =~= escape_dq(p) + seq!['"']);
            lemma_dq_body_escaped(x, 1, p);
            assert(lex_from(x, x.len() as int) == Ok::<Seq<TokenView>, int>(Seq::empty()));
            assert(seq![t] + Seq::<TokenView>::empty() =~= seq![t]);
        } else {
            let e = word_end(s, i);
            assert(x =~= s.subrange(i, e));
            assert forall|k: int| 0 <= k < x.len() implies !is_meta_char(#[trigger] x[k]) by {
                assert(x[k] == s[i + k]);
                assert(!word_stops_at(s, i + k));
            }
            lemma_word_end_at_end(x, 0);
            assert(x.subrange(0, x.len() as int) =~= x);
            assert(!is_meta_char(x[0]));
            if x.len() > 1 {
                assert(!is_meta_char(x[1]));
            }
            assert(lex_from(x, x.len() as int) == Ok::<Seq<TokenView>, int>(Seq::empty()));
            assert(seq![t] + Seq::<TokenView>::empty() =~= seq![t]);
        }
    }
}

proof fn lemma_lex_from_round_trip(s: Seq<char>, i: int)
    requires
        0 <= i,
    ensures
        lex_from(s, i) matches Ok(ts) ==> forall|k: int|
            0 <= k < ts.len() ==> lex(token_text(#[trigger] ts[k])) == Ok::<Seq<TokenView>, int>(
                seq![ts[k]],
            ),
    decreases s.len() - i,
{
    if 0 <= i < s.len() {
        if is_blank(s[i]) {
            lemma_lex_from_round_trip(s, i + 1);
        } else if s[i] == '\n' {
            lemma_lex_from_round_trip(s, i + 1);
            let x = seq!['\n'];
            assert(lex_from(x, 1) == Ok::<Seq<TokenView>, int>(Seq::empty()));
            assert(seq![TokenView::Newline] + Seq::<TokenView>::empty() =~= seq![TokenView::Newline]);
            assert(token_text(TokenView::Newline) == x);
            if let Ok(ts) = lex_from(s, i) {
                if let Ok(rest) = lex_from(s, i + 1) {
                    assert forall|k: int| 0 < k < ts.len() implies ts[k] == rest[k - 1] by {}
                }
            }
        } else {
            lemma_token_round_trip(s, i);
            lemma_token_at_bounds(s, i);
            if let Some((t, j)) = token_at(s, i) {
                lemma_lex_from_round_trip(s, j);
                if let Ok(ts) = lex_from(s, i) {
                    if let Ok(rest) = lex_from(s, j) {
                        assert forall|k: int| 0 < k < ts.len() implies ts[k] == rest[k - 1] by {}
                    }
                }
            }
        }
    }
}

/// Every token that lexing gives, written back as source text, lexes to
/// that same token.
pub proof fn lemma_token_text_round_trip(s: Seq<char>)
    ensures
        lex(s) matches Ok(ts) ==> forall|k: int|
            0 <= k < ts.len() ==> lex(token_text(#[trigger] ts[k])) == Ok::<Seq<TokenView>, int>(
                seq![ts[k]],
            ),
{
    lemma_lex_from_round_trip(s, 0);
}

} // verus!

verus! {

// ---------------------------------------------------------------------------
// Substitution bodies in the order of the source

/// The bodies of the `$(...)` that the word text `s` holds from index `i`
/// on, in the order they are written.
pub open spec fn word_bodies_from(s: Seq<char>, i: int) -> Seq<Seq<char>>
    decreases s.len() - i,
{
    if i < 0 || i >= s.len() {
        Seq::empty()
    } else {
        match crate::grammar::form_at(s, i) {
            Form::Subst(a, b, j) => if i < j <= s.len() {
                seq![s.subrange(a, b)] + word_bodies_from(s, j)
            } else {
                Seq::empty()
            },
            Form::Var(_, _, _, j) => if i < j <= s.len() {
                word_bodies_from(s, j)
            } else {
                Seq::empty()
            },
            Form::Plain => {
                let k = crate::grammar::literal_end(s, i + 1);
                if i < k <= s.len() {
                    word_bodies_from(s, k)
                } else {
                    Seq::empty()
                }
            },
            _ => Seq::empty(),
        }
    }
}

/// The bodies of the `$(...)` that a token holds, in the order written.
pub open spec fn token_bodies(t: TokenView) -> Seq<Seq<char>> {
    match t {
        TokenView::Word(s) => word_bodies_from(s, 0),
        TokenView::DoubleQuoted(s) => word_bodies_from(s, 0),
        _ => Seq::empty(),
    }
}

/// The bodies of all command substitutions from token `p` on, in the order
/// they appear in the source: a `$(` token gives the text up to its `)`,
/// and a word or double-quoted token gives those written inside it.
pub open spec fn source_bodies(t: Seq<TokenView>, p: int) -> Seq<Seq<char>>
    decreases t.len() - p,
{
    if p < 0 || p >= t.len() {
        Seq::empty()
    } else if t[p] is SubstStart {
        match crate::grammar::subst_text(t, p + 1, 1) {
            Some((text, q)) => if p < q <= t.len() {
                seq![crate::grammar::trim(text)] + source_bodies(t, q)
            } else {
                Seq::empty()
            },
            None => Seq::empty(),
        }
    } else {
        token_bodies(t[p]) + source_bodies(t, p + 1)
    }
}

proof fn lemma_word_bodies(s: Seq<char>, i: int, base: nat)
    ensures
        rescan_from(s, i, base) matches Ok((w, b)) ==> b == word_bodies_from(s, i),
    decreases s.len() - i,
{
    reveal(rescan_from);
    if 0 <= i < s.len() {
        match crate::grammar::form_at(s, i) {
            Form::Subst(a, b, j) => {
                if i < j <= s.len() {
                    lemma_word_bodies(s, j, base + 1);
                }
            },
            Form::Var(_, _, _, j) => {
                if i < j <= s.len() {
                    lemma_word_bodies(s, j, base);
                    if let Ok((w2, b2)) = rescan_from(s, j, base) {
                        assert(Seq::<Seq<char>>::empty() + b2 =~= b2);
                    }
                }
            },
            Form::Plain => {
                let k = crate::grammar::literal_end(s, i + 1);
                if i < k <= s.len() {
                    lemma_word_bodies(s, k, base);
                    if let Ok((w2, b2)) = rescan_from(s, k, base) {
                        assert(Seq::<Seq<char>>::empty() + b2 =~= b2);
                    }
                }
            },
            _ => {},
        }
    }
}

proof fn lemma_word_of_bodies(t: TokenView, subs: Seq<Seq<char>>, p: int)
    ensures
        word_of(t, subs, p) matches Ok((w, s1)) ==> s1 == subs + token_bodies(t),
{
    reveal(word_of);
    reveal(rescan);
    lemma_word_bodies(t->Word_0, 0, subs.len());
    lemma_word_bodies(t->DoubleQuoted_0, 0, subs.len());
    assert(subs + Seq::<Seq<char>>::empty() =~= subs);
}

proof fn lemma_command_bodies(t: Seq<TokenView>, p: int, subs: Seq<Seq<char>>)
    requires
        0 <= p,
    ensures
        command_from(t, p, subs) matches Ok((c, q, s1)) ==> s1 + source_bodies(t, q) == subs
            + source_bodies(t, p),
    decreases t.len() - p,
{
    reveal(command_from);
    if 0 <= p < t.len() {
        if crate::grammar::is_word_token(t[p]) {
            lemma_word_of_bodies(t[p], subs, p);
            if let Ok((w, s1)) = word_of(t[p], subs, p) {
                lemma_command_bodies(t, p + 1, s1);
                if let Ok((c2, q2, s2)) = command_from(t, p + 1, s1) {
                    assert((subs + token_bodies(t[p])) + source_bodies(t, p + 1) =~= subs + (
                    token_bodies(t[p]) + source_bodies(t, p + 1)));
                }
            }
        } else if crate::grammar::is_redirect_token(t[p]) {
            if p + 1 < t.len() && crate::grammar::is_word_token(t[p + 1]) {
                lemma_word_of_bodies(t[p + 1], subs, p + 1);
                if let Ok((w, s1)) = word_of(t[p + 1], subs, p + 1) {
                    lemma_command_bodies(t, p + 2, s1);
                    if let Ok((c2, q2, s2)) = command_from(t, p + 2, s1) {
                        assert(token_bodies(t[p]) =~= Seq::<Seq<char>>::empty());
                        assert(source_bodies(t, p) =~= source_bodies(t, p + 1));
                        assert((subs + token_bodies(t[p + 1])) + source_bodies(t, p + 2) =~= subs
                            + (token_bodies(t[p + 1]) + source_bodies(t, p + 2)));
                    }
                }
            }
        } else if t[p] is SubstStart {
            if let Some((text, q)) = crate::grammar::subst_text(t, p + 1, 1) {
                if subs.len() < u32::MAX && p < q <= t.len() {
                    let s1 = subs.push(crate::grammar::trim(text));
                    lemma_command_bodies(t, q, s1);
                    if let Ok((c2, q2, s2)) = command_from(t, q, s1) {
                        assert(s1 + source_bodies(t, q) =~= subs + (seq![
                            crate::grammar::trim(text),
                        ] + source_bodies(t, q)));
                    }
                }
            }
        }
    }
}

proof fn lemma_pipeline_bodies(t: Seq<TokenView>, p: int, subs: Seq<Seq<char>>, after_pipe: bool)
    requires
        0 <= p,
    ensures
        pipeline_from(t, p, subs, after_pipe) matches Ok((cs, q, s1)) ==> s1 + source_bodies(t, q)
            == subs + source_bodies(t, p),
    decreases t.len() - p,
{
    reveal(pipeline_from);
    lemma_command_bodies(t, p, subs);
    lemma_command_from(t, p, subs);
    if let Ok((c, q, s1)) = command_from(t, p, subs) {
        if 0 <= q < t.len() && t[q] is Pipe && p <= q {
            lemma_pipeline_bodies(t, q + 1, s1, true);
            assert(token_bodies(t[q]) =~= Seq::<Seq<char>>::empty());
            assert(source_bodies(t, q) =~= source_bodies(t, q + 1));
        }
    }
}

proof fn lemma_skip_newlines_bodies(t: Seq<TokenView>, p: int)
    requires
        0 <= p,
    ensures
        p <= crate::grammar::skip_newlines(t, p),
        source_bodies(t, p) == source_bodies(t, crate::grammar::skip_newlines(t, p)),
    decreases t.len() - p,
{
    if 0 <= p < t.len() && t[p] is Newline {
        lemma_skip_newlines_bodies(t, p + 1);
        assert(token_bodies(t[p]) =~= Seq::<Seq<char>>::empty());
        assert(source_bodies(t, p) =~= source_bodies(t, p + 1));
    }
}

proof fn lemma_elements_bodies(t: Seq<TokenView>, p: int, subs: Seq<Seq<char>>, conn: Connector)
    requires
        0 <= p,
    ensures
        elements_from(t, p, subs, conn) matches Ok((es, s1)) ==> s1 == subs + source_bodies(t, p),
    decreases t.len() - p,
{
    reveal(elements_from);
    lemma_skip_newlines_bodies(t, p);
    let first = crate::grammar::skip_newlines(t, p);
    if first < p || first >= t.len() {
        assert(subs + Seq::<Seq<char>>::empty() =~= subs);
        if first >= t.len() && first >= p {
            assert(source_bodies(t, first) == Seq::<Seq<char>>::empty());
        }
    } else {
        lemma_pipeline_bodies(t, first, subs, false);
        if let Ok((cs, q, s1)) = pipeline_from(t, first, subs, false) {
            if first < q <= t.len() {
                if q >= t.len() {
                    assert(source_bodies(t, q) == Seq::<Seq<char>>::empty());
                    assert(s1 + Seq::<Seq<char>>::empty() =~= s1);
                } else if t[q] is And || t[q] is Or {
                    lemma_elements_bodies(t, q + 1, s1, if t[q] is And {
                        Connector::And
                    } else {
                        Connector::Or
                    });
                    assert(token_bodies(t[q]) =~= Seq::<Seq<char>>::empty());
                    assert(source_bodies(t, q) =~= source_bodies(t, q + 1));
                    assert((s1 + source_bodies(t, q + 1)) =~= subs + source_bodies(t, first));
                } else if t[q] is Newline {
                    lemma_elements_bodies(t, q, s1, Connector::Unconditional);
                    assert(s1 + source_bodies(t, q) == subs + source_bodies(t, first));
                }
            }
        }
    }
}

/// The substitution table of a parse holds the bodies of the command
/// substitutions in the order they appear in the source: the `k`-th `$(`
/// met, scanning tokens in order and each word's text left to right, has
/// its body at index `k`, which is its id.
pub proof fn lemma_substitutions_in_source_order(t: Seq<TokenView>)
    ensures
        parse_tokens(t) matches Ok((es, subs)) ==> subs == source_bodies(t, 0),
{
    lemma_elements_bodies(t, 0, Seq::empty(), Connector::Unconditional);
    assert(Seq::<Seq<char>>::empty() + source_bodies(t, 0) =~= source_bodies(t, 0));
}

} // verus!
