use vstd::prelude::*;

verus! {

/// A regular grammar, built from literals, ranges and the usual operators.
#[derive(Debug)]
pub enum Grammar {
    /// Match any single character
    Wild,
    /// Match exactly the given character
    Literal(char),
    /// Match any single character in the inclusive range `start..=end`
    Range(char, char),
    /// Match a sequence of grammars in order
    Concatenation(Vec<Grammar>),
    /// Match on any of the given grammars
    Alternation(Vec<Grammar>),
    /// `?` Match the grammar zero or one times
    ZeroOrOne(Box<Grammar>),
    /// `*` Match the grammar zero or more times
    ZeroOrMany(Box<Grammar>),
    /// `+` Match the grammar one or more times
    OneOrMany(Box<Grammar>),
}

/// Whether the grammar `g` matches the whole of `s`.
pub open spec fn in_language(g: Grammar, s: Seq<char>) -> bool
    decreases g, 0nat, 0nat,
{
    match g {
        Grammar::Wild => s.len() == 1,
        Grammar::Literal(c) => s.len() == 1 && s[0] == c,
        Grammar::Range(lo, hi) => s.len() == 1 && lo <= s[0] && s[0] <= hi,
        Grammar::Concatenation(gs) => concat_language(gs@, s),
        Grammar::Alternation(gs) => any_language(gs@, s),
        Grammar::ZeroOrOne(h) => s.len() == 0 || in_language(*h, s),
        Grammar::ZeroOrMany(h) => star_language(*h, s),
        Grammar::OneOrMany(h) => exists|k: int|
            0 <= k <= s.len() && in_language(*h, s.take(k)) && star_language(*h, s.skip(k)),
    }
}

/// `s` splits into consecutive pieces, the i-th matched by `gs[i]`.
pub open spec fn concat_language(gs: Seq<Grammar>, s: Seq<char>) -> bool
    decreases gs, 0nat, 0nat,
{
    if gs.len() == 0 {
        s.len() == 0
    } else {
        exists|k: int|
            0 <= k <= s.len() && concat_language(gs.drop_last(), s.take(k)) && in_language(
                gs.last(),
                s.skip(k),
            )
    }
}

/// Some grammar of `gs` matches `s`.
pub open spec fn any_language(gs: Seq<Grammar>, s: Seq<char>) -> bool
    decreases gs, 0nat, 0nat,
{
    exists|i: int| 0 <= i < gs.len() && in_language(gs[i], s)
}

/// `s` splits into zero or more non-empty pieces, each matched by `g`.
pub open spec fn star_language(g: Grammar, s: Seq<char>) -> bool
    decreases g, 1nat, s.len(),
{
    s.len() == 0 || exists|k: int|
        1 <= k <= s.len() && in_language(g, s.take(k)) && star_language(g, s.skip(k))
}


/// Some non-empty prefix of `s` is matched by `g`.
pub open spec fn some_prefix_in_language(g: Grammar, s: Seq<char>) -> bool {
    exists|k: int| 1 <= k <= s.len() && #[trigger] in_language(g, s.take(k))
}

/// Whether `p` holds of `g` and of every grammar nested in it.
pub open spec fn every_node(g: Grammar, p: spec_fn(Grammar) -> bool) -> bool
    decreases g,
{
    p(g) && match g {
        Grammar::Concatenation(gs) => forall|i: int| 0 <= i < gs.len() ==> every_node(#[trigger] gs@[i], p),
        Grammar::Alternation(gs) => forall|i: int| 0 <= i < gs.len() ==> every_node(#[trigger] gs@[i], p),
        Grammar::ZeroOrOne(h) => every_node(*h, p),
        Grammar::ZeroOrMany(h) => every_node(*h, p),
        Grammar::OneOrMany(h) => every_node(*h, p),
        _ => true,
    }
}

/// An alternation needs at least one branch to be sized.
pub open spec fn alternation_has_branches(g: Grammar) -> bool {
    match g {
        Grammar::Alternation(gs) => gs.len() > 0,
        _ => true,
    }
}

/// The nodes that can be expanded into states: sequences are non-empty and
/// ranges are not inverted.
pub open spec fn node_expandable(g: Grammar) -> bool {
    match g {
        Grammar::Concatenation(gs) => gs.len() > 0,
        Grammar::Alternation(gs) => gs.len() > 0,
        Grammar::Range(lo, hi) => lo <= hi,
        _ => true,
    }
}

/// Every alternation in `g` has a branch, so that `g` has a size.
pub open spec fn sizable(g: Grammar) -> bool {
    every_node(g, |h: Grammar| alternation_has_branches(h))
}

/// `g` can be expanded into an automaton.
pub open spec fn well_formed(g: Grammar) -> bool {
    every_node(g, |h: Grammar| node_expandable(h))
}

/// The number of automaton states that the expansion of `g` takes, not
/// counting the final match state.
pub open spec fn states_needed(g: Grammar) -> nat
    decreases g, 1nat,
{
    match g {
        Grammar::Wild | Grammar::Literal(_) | Grammar::Range(_, _) => 1,
        Grammar::Concatenation(gs) => states_needed_all(gs@),
        Grammar::Alternation(gs) => if gs.len() == 0 {
            0
        } else {
            (states_needed_all(gs@) + gs.len() - 1) as nat
        },
        Grammar::ZeroOrOne(h) => states_needed(*h) + 1,
        Grammar::ZeroOrMany(h) => states_needed(*h) + 1,
        Grammar::OneOrMany(h) => states_needed(*h) + 1,
    }
}

/// The states that the grammars of `gs` take together.
pub open spec fn states_needed_all(gs: Seq<Grammar>) -> nat
    decreases gs, 0nat,
{
    if gs.len() == 0 {
        0
    } else {
        states_needed_all(gs.drop_last()) + states_needed(gs.last())
    }
}

pub(crate) proof fn lemma_states_needed_all_take(gs: Seq<Grammar>, i: int)
    requires
        0 <= i < gs.len(),
    ensures
        states_needed_all(gs.take(i + 1)) == states_needed_all(gs.take(i)) + states_needed(gs[i]),
        states_needed_all(gs.take(i)) <= states_needed_all(gs),
    decreases gs.len(),
{
    assert(gs.take(i + 1).drop_last() =~= gs.take(i));
    if i + 1 < gs.len() {
        lemma_states_needed_all_take(gs.drop_last(), i);
        assert(gs.drop_last().take(i) =~= gs.take(i));
        assert(gs.drop_last().take(i + 1) =~= gs.take(i + 1));
        if i + 2 <= gs.drop_last().len() {
            lemma_states_needed_all_take(gs.drop_last(), i + 1);
        } else {
            assert(gs.drop_last().take(i + 1) =~= gs.drop_last());
        }
    } else {
        assert(gs.take(i + 1) =~= gs);
    }
}

/// An expandable grammar takes at least one state.
pub(crate) proof fn lemma_states_needed_positive(g: Grammar)
    requires
        well_formed(g),
    ensures
        states_needed(g) >= 1,
    decreases g, 1nat,
{
    match g {
        Grammar::Concatenation(gs) => {
            lemma_states_needed_all_at_least(gs@);
        },
        Grammar::Alternation(gs) => {
            lemma_states_needed_all_at_least(gs@);
        },
        _ => {},
    }
}

/// Expandable grammars take at least one state each.
pub(crate) proof fn lemma_states_needed_all_at_least(gs: Seq<Grammar>)
    requires
        forall|i: int| 0 <= i < gs.len() ==> well_formed(#[trigger] gs[i]),
    ensures
        states_needed_all(gs) >= gs.len(),
    decreases gs, 0nat,
{
    if gs.len() > 0 {
        lemma_states_needed_all_at_least(gs.drop_last());
        lemma_states_needed_positive(gs.last());
    }
}

impl Grammar {
    /// The number of states a `RegularExpression` needs for this grammar:
    /// one per state of the expansion, and one for the final match state.
    #[must_use]
    pub fn grammar_size(&self) -> (r: usize)
        requires
            sizable(*self),
            states_needed(*self) + 1 <= usize::MAX,
        ensures
            r == states_needed(*self) + 1,
    {
        rec_calculate_size(self) + 1
    }
}

/// Recursively calculate the number of states that `input` expands into.
fn rec_calculate_size(input: &Grammar) -> (r: usize)
    requires
        sizable(*input),
        states_needed(*input) <= usize::MAX,
    ensures
        r == states_needed(*input),
    decreases input,
{
    match input {
        Grammar::Wild | Grammar::Literal(_) | Grammar::Range(_, _) => 1,
        Grammar::Concatenation(grammars) => sum_sizes(grammars),
        Grammar::Alternation(grammars) => {
            let acc = sum_sizes(grammars);
            acc + (grammars.len() - 1)
        },
        Grammar::ZeroOrOne(grammar) | Grammar::ZeroOrMany(grammar) | Grammar::OneOrMany(grammar) => {
            rec_calculate_size(grammar) + 1
        },
    }
}

/// The states that the grammars of `grammars` take together.
fn sum_sizes(grammars: &Vec<Grammar>) -> (r: usize)
    requires
        forall|i: int| 0 <= i < grammars.len() ==> sizable(#[trigger] grammars@[i]),
        states_needed_all(grammars@) <= usize::MAX,
    ensures
        r == states_needed_all(grammars@),
    decreases grammars,
{
    let mut i: usize = 0;
    let mut acc: usize = 0;
    while i < grammars.len()
        invariant
            i <= grammars.len(),
            acc == states_needed_all(grammars@.take(i as int)),
            forall|j: int| 0 <= j < grammars.len() ==> sizable(#[trigger] grammars@[j]),
            states_needed_all(grammars@) <= usize::MAX,
        decreases grammars.len() - i,
    {
        proof {
            lemma_states_needed_all_take(grammars@, i as int);
            if i + 1 < grammars.len() {
                lemma_states_needed_all_take(grammars@, i as int + 1);
            } else {
                assert(grammars@.take(i + 1) =~= grammars@);
            }
        }
        acc += rec_calculate_size(&grammars[i]);
        i += 1;
    }
    assert(grammars@.take(i as int) =~= grammars@);
    acc
}

/// A wildcard, a literal or a range is expanded into exactly one state, so
/// its `grammar_size` is two: that state and the match state.
pub proof fn lemma_size_of_leaf(c: char, lo: char, hi: char)
    ensures
        states_needed(Grammar::Wild) == 1,
        states_needed(Grammar::Literal(c)) == 1,
        states_needed(Grammar::Range(lo, hi)) == 1,
{
}

/// Each repetition (`?`, `*`, `+`) takes exactly one state more than what
/// it repeats: the one split that enters, skips or loops it.
pub proof fn lemma_size_of_repetition(h: Box<Grammar>)
    ensures
        states_needed(Grammar::ZeroOrOne(h)) == states_needed(*h) + 1,
        states_needed(Grammar::ZeroOrMany(h)) == states_needed(*h) + 1,
        states_needed(Grammar::OneOrMany(h)) == states_needed(*h) + 1,
{
}

/// A concatenation takes exactly the states of its parts and no other: none
/// for no parts, and each part appended adds exactly that part's states.
pub proof fn lemma_size_of_concatenation(gs: Vec<Grammar>, hs: Vec<Grammar>, g: Grammar)
    requires
        hs@ == gs@.push(g),
    ensures
        gs@.len() == 0 ==> states_needed(Grammar::Concatenation(gs)) == 0,
        states_needed(Grammar::Concatenation(hs)) == states_needed(Grammar::Concatenation(gs))
            + states_needed(g),
{
    assert(states_needed(Grammar::Concatenation(gs)) == states_needed_all(gs@));
    assert(states_needed(Grammar::Concatenation(hs)) == states_needed_all(hs@));
    assert(hs@.drop_last() =~= gs@);
    assert(states_needed_all(hs@) == states_needed_all(hs@.drop_last()) + states_needed(hs@.last()));
}

/// An alternation of one branch takes exactly that branch's states, and
/// each branch added to an alternation adds exactly that branch's states
/// and one split: `n` branches take their own states and `n - 1` splits.
pub proof fn lemma_size_of_alternation(gs: Vec<Grammar>, hs: Vec<Grammar>, g: Grammar)
    requires
        hs@ == gs@.push(g),
    ensures
        gs@.len() == 0 ==> states_needed(Grammar::Alternation(hs)) == states_needed(g),
        gs@.len() > 0 ==> states_needed(Grammar::Alternation(hs)) == states_needed(
            Grammar::Alternation(gs),
        ) + states_needed(g) + 1,
{
    assert(hs@.drop_last() =~= gs@);
    assert(states_needed_all(hs@) == states_needed_all(hs@.drop_last()) + states_needed(hs@.last()));
    assert(states_needed(Grammar::Alternation(hs)) == (states_needed_all(hs@) + hs@.len() - 1) as nat);
    if gs@.len() == 0 {
        assert(states_needed_all(gs@) == 0);
    } else {
        assert(states_needed(Grammar::Alternation(gs)) == (states_needed_all(gs@) + gs@.len() - 1) as nat);
    }
}

/// A range of a single character matches what that character's literal
/// matches.
pub proof fn lemma_single_range_is_literal(c: char, s: Seq<char>)
    ensures
        in_language(Grammar::Range(c, c), s) == in_language(Grammar::Literal(c), s),
{
}

/// A concatenation of one grammar matches what that grammar matches.
pub proof fn lemma_concatenation_of_one(gs: Vec<Grammar>, s: Seq<char>)
    requires
        gs@.len() == 1,
    ensures
        in_language(Grammar::Concatenation(gs), s) == in_language(gs@[0], s),
{
    assert(gs@.drop_last() =~= Seq::<Grammar>::empty());
    if in_language(gs@[0], s) {
        assert(s.take(0) =~= Seq::<char>::empty());
        assert(s.skip(0) =~= s);
        assert(concat_language(gs@.drop_last(), s.take(0)));
    }
    if concat_language(gs@, s) {
        let k = choose|k: int|
            0 <= k <= s.len() && concat_language(gs@.drop_last(), s.take(k)) && in_language(gs@.last(), s.skip(k));
        assert(s.skip(k) =~= s);
    }
}

/// An alternation of one grammar matches what that grammar matches.
pub proof fn lemma_alternation_of_one(gs: Vec<Grammar>, s: Seq<char>)
    requires
        gs@.len() == 1,
    ensures
        in_language(Grammar::Alternation(gs), s) == in_language(gs@[0], s),
{
    assert(in_language(Grammar::Alternation(gs), s) == any_language(gs@, s));
    if in_language(gs@[0], s) {
        assert(any_language(gs@, s));
    }
}

/// Any number of wildcards matches every string.
pub proof fn lemma_star_of_wild_matches_everything(g: Box<Grammar>, s: Seq<char>)
    requires
        *g == Grammar::Wild,
    ensures
        in_language(Grammar::ZeroOrMany(g), s),
    decreases s.len(),
{
    assert(in_language(Grammar::ZeroOrMany(g), s) == star_language(*g, s));
    if s.len() > 0 {
        lemma_star_of_wild_matches_everything(g, s.skip(1));
        assert(in_language(*g, s.take(1)));
        assert(star_language(*g, s.skip(1)));
        assert(star_language(*g, s));
    }
}

} // verus!
