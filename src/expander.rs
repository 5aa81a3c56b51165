//! Expansion of parsed words against an environment.
use vstd::prelude::*;

use crate::ast::{ParsedWord, SegmentView, WordSegment, WordView};
use crate::text::{chars_of, string_from_chars};

verus! {

/// The environment: a mapping from variable names to values.
pub struct EnvMap {
    entries: Vec<(String, String)>,
}

/// The mapping that a list of pairs gives, a later pair for a name
/// replacing an earlier one.
pub open spec fn map_of_pairs(ps: Seq<(Seq<char>, Seq<char>)>) -> Map<Seq<char>, Seq<char>>
    decreases ps.len(),
{
    if ps.len() == 0 {
        Map::empty()
    } else {
        map_of_pairs(ps.drop_last()).insert(ps.last().0, ps.last().1)
    }
}

pub open spec fn pairs_view(ps: Seq<(String, String)>) -> Seq<(Seq<char>, Seq<char>)> {
    ps.map_values(|p: (String, String)| (p.0@, p.1@))
}

impl View for EnvMap {
    type V = Map<Seq<char>, Seq<char>>;

    closed spec fn view(&self) -> Map<Seq<char>, Seq<char>> {
        map_of_pairs(pairs_view(self.entries@))
    }
}

/// Where no pair after index `k` has the name `n`, the mapping of the pairs
/// with the `k`-th value replaced by `v` is the old mapping with `n` set to `v`.
proof fn lemma_replace_last(ps: Seq<(Seq<char>, Seq<char>)>, k: int, n: Seq<char>, v: Seq<char>)
    requires
        0 <= k < ps.len(),
        ps[k].0 == n,
        forall|j: int| k < j < ps.len() ==> (#[trigger] ps[j]).0 != n,
    ensures
        map_of_pairs(ps.update(k, (n, v))) == map_of_pairs(ps).insert(n, v),
    decreases ps.len(),
{
    let qs = ps.update(k, (n, v));
    if k == ps.len() - 1 {
        assert(qs.drop_last() =~= ps.drop_last());
        assert(map_of_pairs(qs) =~= map_of_pairs(ps).insert(n, v));
    } else {
        let l = ps.last();
        assert(l.0 != n);
        assert(qs.drop_last() =~= ps.drop_last().update(k, (n, v)));
        lemma_replace_last(ps.drop_last(), k, n, v);
        assert(map_of_pairs(qs) =~= map_of_pairs(ps).insert(n, v));
    }
}

/// The lookup of `n` in the pairs is decided by the last pair with that name.
proof fn lemma_lookup_last(ps: Seq<(Seq<char>, Seq<char>)>, k: int, n: Seq<char>)
    requires
        0 <= k < ps.len(),
        ps[k].0 == n,
        forall|j: int| k < j < ps.len() ==> (#[trigger] ps[j]).0 != n,
    ensures
        map_of_pairs(ps).contains_key(n),
        map_of_pairs(ps)[n] == ps[k].1,
    decreases ps.len(),
{
    if k < ps.len() - 1 {
        lemma_lookup_last(ps.drop_last(), k, n);
    }
}

/// Where no pair has the name `n`, the mapping has no entry for it.
proof fn lemma_lookup_absent(ps: Seq<(Seq<char>, Seq<char>)>, n: Seq<char>)
    requires
        forall|j: int| 0 <= j < ps.len() ==> (#[trigger] ps[j]).0 != n,
    ensures
        !map_of_pairs(ps).contains_key(n),
    decreases ps.len(),
{
    if ps.len() > 0 {
        lemma_lookup_absent(ps.drop_last(), n);
    }
}

impl EnvMap {
    /// An environment with no variable.
    pub fn new() -> (r: EnvMap)
        ensures
            r@ == Map::<Seq<char>, Seq<char>>::empty(),
    {
        let r = EnvMap { entries: Vec::new() };
        assert(pairs_view(r.entries@) =~= Seq::empty());
        r
    }

    /// The index of the last entry named `name`, if any.
    fn find(&self, name: &String) -> (r: Option<usize>)
        ensures
            match r {
                Some(k) => k < self.entries.len() && self.entries@[k as int].0@ == name@ && forall|
                    j: int,
                | k < j < self.entries.len() ==> (#[trigger] self.entries@[j]).0@ != name@,
                None => forall|j: int|
                    0 <= j < self.entries.len() ==> (#[trigger] self.entries@[j]).0@ != name@,
            },
    {
        let mut k = self.entries.len();
        while k > 0
            invariant
                k <= self.entries.len(),
                forall|j: int| k <= j < self.entries.len() ==> (#[trigger] self.entries@[j]).0@
                    != name@,
            decreases k,
        {
            if self.entries[k - 1].0 == *name {
                return Some(k - 1);
            }
            k = k - 1;
        }
        None
    }

    /// Sets `name` to `value`, replacing any earlier value.
    pub fn insert(&mut self, name: String, value: String)
        ensures
            final(self)@ == old(self)@.insert(name@, value@),
    {
        let ghost n = name@;
        let ghost v = value@;
        match self.find(&name) {
            Some(k) => {
                let ghost ps = pairs_view(self.entries@);
                self.entries.set(k, (name, value));
                proof {
                    assert(pairs_view(self.entries@) =~= ps.update(k as int, (n, v)));
                    lemma_replace_last(ps, k as int, n, v);
                }
            },
            None => {
                let ghost ps = pairs_view(self.entries@);
                self.entries.push((name, value));
                proof {
                    assert(pairs_view(self.entries@).drop_last() =~= ps);
                }
            },
        }
    }

    /// The value of `name`, if it is set.
    pub fn get(&self, name: &String) -> (r: Option<&String>)
        ensures
            match r {
                Some(v) => self@.contains_key(name@) && self@[name@] == v@,
                None => !self@.contains_key(name@),
            },
    {
        let ghost ps = pairs_view(self.entries@);
        match self.find(name) {
            Some(k) => {
                proof {
                    lemma_lookup_last(ps, k as int, name@);
                }
                Some(&self.entries[k].1)
            },
            None => {
                proof {
                    lemma_lookup_absent(ps, name@);
                }
                None
            },
        }
    }
}

/// The text that one segment expands to.
pub open spec fn expand_segment(seg: SegmentView, env: Map<Seq<char>, Seq<char>>) -> Seq<char> {
    match seg {
        SegmentView::Literal(s) => s,
        SegmentView::EnvVar(name, default) => if env.contains_key(name) {
            env[name]
        } else {
            match default {
                Some(d) => d,
                None => Seq::empty(),
            }
        },
        SegmentView::CommandSubst(_) => Seq::empty(),
    }
}

/// The text that a word expands to: its segments' expansions, joined in order.
pub open spec fn expand(w: WordView, env: Map<Seq<char>, Seq<char>>) -> Seq<char>
    decreases w.len(),
{
    if w.len() == 0 {
        Seq::empty()
    } else {
        expand(w.drop_last(), env) + expand_segment(w.last(), env)
    }
}

/// The texts of a word's literal segments, joined in order.
pub open spec fn literal_text(w: WordView) -> Seq<char>
    decreases w.len(),
{
    if w.len() == 0 {
        Seq::empty()
    } else {
        literal_text(w.drop_last()) + match w.last() {
            SegmentView::Literal(s) => s,
            _ => Seq::empty(),
        }
    }
}

/// Expands `word` against `env`: a literal gives its text, a variable its
/// value (else its default, else nothing), a command substitution nothing.
pub fn expand_word(word: &ParsedWord, env: &EnvMap) -> (r: String)
    ensures
        r@ == expand(word@, env@),
{
    let mut out: Vec<char> = Vec::new();
    let mut k: usize = 0;
    while k < word.segments.len()
        invariant
            k <= word.segments.len(),
            out@ == expand(word@.take(k as int), env@),
        decreases word.segments.len() - k,
    {
        let mut piece: Vec<char> = match &word.segments[k] {
            WordSegment::Literal(s) => chars_of(s.as_str()),
            WordSegment::EnvVar(r) => match env.get(&r.name) {
                Some(v) => chars_of(v.as_str()),
                None => match &r.default {
                    Some(d) => chars_of(d.as_str()),
                    None => Vec::new(),
                },
            },
            WordSegment::CommandSubst(_) => Vec::new(),
        };
        proof {
            assert(word@.take(k + 1).drop_last() =~= word@.take(k as int));
            assert(piece@ == expand_segment(word@[k as int], env@));
        }
        out.append(&mut piece);
        k = k + 1;
    }
    proof {
        assert(word@.take(k as int) =~= word@);
    }
    string_from_chars(&out)
}

/// The environment that a list of `(name, value)` pairs gives; where a name
/// occurs twice the later value wins.
pub fn env_list_to_map(env: &[(String, String)]) -> (r: EnvMap)
    ensures
        r@ == map_of_pairs(pairs_view(env@)),
{
    let mut m = EnvMap::new();
    let mut k: usize = 0;
    while k < env.len()
        invariant
            k <= env.len(),
            m@ == map_of_pairs(pairs_view(env@.take(k as int))),
        decreases env.len() - k,
    {
        let (name, value) = (env[k].0.clone(), env[k].1.clone());
        m.insert(name, value);
        proof {
            assert(pairs_view(env@.take(k + 1)).drop_last() =~= pairs_view(env@.take(k as int)));
        }
        k = k + 1;
    }
    proof {
        assert(env@.take(k as int) =~= env@);
    }
    m
}

// ---------------------------------------------------------------------------
// Laws

/// A word made of literals alone expands to its literals joined, whatever
/// the environment.
pub proof fn lemma_expand_literals(w: WordView, env: Map<Seq<char>, Seq<char>>)
    requires
        forall|k: int| 0 <= k < w.len() ==> (#[trigger] w[k]) is Literal,
    ensures
        expand(w, env) == literal_text(w),
    decreases w.len(),
{
    if w.len() > 0 {
        lemma_expand_literals(w.drop_last(), env);
        assert(w.last() is Literal);
    }
}

/// A variable reference expands to the variable's value where the
/// environment sets it, else to its default, else to the empty text.
pub proof fn lemma_expand_env_var(
    name: Seq<char>,
    default: Option<Seq<char>>,
    env: Map<Seq<char>, Seq<char>>,
)
    ensures
        env.contains_key(name) ==> expand(seq![SegmentView::EnvVar(name, default)], env)
            == env[name],
        !env.contains_key(name) && default is Some ==> expand(
            seq![SegmentView::EnvVar(name, default)],
            env,
        ) == default->Some_0,
        !env.contains_key(name) && default is None ==> expand(
            seq![SegmentView::EnvVar(name, default)],
            env,
        ) == Seq::<char>::empty(),
{
    let w = seq![SegmentView::EnvVar(name, default)];
    assert(w.drop_last() =~= Seq::<SegmentView>::empty());
    assert(w.last() == SegmentView::EnvVar(name, default));
    assert(expand(w.drop_last(), env) == Seq::<char>::empty());
    let e = expand_segment(w.last(), env);
    assert(expand(w, env) == Seq::<char>::empty() + e);
    assert(Seq::<char>::empty() + e =~= e);
}

} // verus!
