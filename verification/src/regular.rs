use vstd::prelude::*;

use crate::automaton::{
    accepts_as, arrows_within, closed, closes, count_false, eps, feeds, has_arrow_to, is_split,
    lemma_active_step, lemma_closes_is_reach, lemma_concat_step,
    lemma_count_false_update, lemma_dead_prefix, lemma_distinct_bound, lemma_eps_concat,
    lemma_eps_first_mark, lemma_eps_fewer_marks, lemma_eps_split, saturated,
    lemma_frame_reaches, lemma_patch_reaches, lemma_reaches_match, lemma_reaches_outside,
    lemma_single, lemma_split_reaches, lemma_star, no_marks, patched_block, reaches, retarget,
    settled, step_target,
};
use crate::description::{
    any_language, concat_language, in_language, lemma_states_needed_all_at_least,
    lemma_states_needed_all_take, lemma_states_needed_positive, some_prefix_in_language,
    star_language, states_needed, states_needed_all, well_formed, Grammar,
};
use crate::list::ConstList;

verus! {

/// Two lists of states over the same slots: `clist` holds the states alive
/// before the current character, `nlist` collects those alive after it.
struct Matcher<const MAX_SIZE: usize> {
    list_1: [bool; MAX_SIZE],
    list_2: [bool; MAX_SIZE],
    list_switch: bool,
}

impl<const MAX_SIZE: usize> Matcher<MAX_SIZE> {
    spec fn clist(&self) -> Seq<bool> {
        if self.list_switch {
            self.list_1@
        } else {
            self.list_2@
        }
    }

    spec fn nlist(&self) -> Seq<bool> {
        if self.list_switch {
            self.list_2@
        } else {
            self.list_1@
        }
    }

    fn new() -> (r: Self)
        ensures
            r.clist() == no_marks(MAX_SIZE as nat),
            r.nlist() == no_marks(MAX_SIZE as nat),
    {
        let r = Self { list_1: [false;MAX_SIZE], list_2: [false;MAX_SIZE], list_switch: true };
        assert(r.clist() =~= no_marks(MAX_SIZE as nat));
        assert(r.nlist() =~= no_marks(MAX_SIZE as nat));
        r
    }

    fn switch(&mut self)
        ensures
            final(self).clist() == old(self).nlist(),
            final(self).nlist() == old(self).clist(),
    {
        self.list_switch = !self.list_switch;
    }

    fn set_clist(&mut self, i: usize, v: bool)
        requires
            i < MAX_SIZE,
        ensures
            final(self).clist() == old(self).clist().update(i as int, v),
            final(self).nlist() == old(self).nlist(),
    {
        if self.list_switch {
            self.list_1[i] = v;
        } else {
            self.list_2[i] = v;
        }
    }

    fn set_nlist(&mut self, i: usize, v: bool)
        requires
            i < MAX_SIZE,
        ensures
            final(self).nlist() == old(self).nlist().update(i as int, v),
            final(self).clist() == old(self).clist(),
    {
        if self.list_switch {
            self.list_2[i] = v;
        } else {
            self.list_1[i] = v;
        }
    }

    fn get_clist(&self, i: usize) -> (r: bool)
        requires
            i < MAX_SIZE,
        ensures
            r == self.clist()[i as int],
    {
        if self.list_switch {
            self.list_1[i]
        } else {
            self.list_2[i]
        }
    }

    fn get_nlist(&self, i: usize) -> (r: bool)
        requires
            i < MAX_SIZE,
        ensures
            r == self.nlist()[i as int],
    {
        if self.list_switch {
            self.list_2[i]
        } else {
            self.list_1[i]
        }
    }
}

/// One state of the automaton.
#[derive(Clone, Copy, Debug)]
pub enum Nfa {
    Wild { out: usize },
    Literal {
        value: char,
        /// Index of the next state to transition to on a match,
        /// within the fully assembled `states` array.
        out: usize,
    },
    Range {
        /// Bounds of the character range, both ends included.
        start: char,
        end: char,
        out: usize,
    },
    Split { left: usize, right: usize },
    Match,
}

/// Every arrow leaving `n` points below `bound`.
pub open spec fn arrows_below(n: Nfa, bound: int) -> bool {
    match n {
        Nfa::Wild { out } => out < bound,
        Nfa::Literal { out, .. } => out < bound,
        Nfa::Range { out, .. } => out < bound,
        Nfa::Split { left, right } => left < bound && right < bound,
        Nfa::Match => true,
    }
}

/// The states of a finished automaton, each present.
pub open spec fn present(states: Seq<Nfa>) -> Seq<Option<Nfa>> {
    Seq::new(states.len(), |i: int| Some(states[i]))
}

/// A compiled regular expression: a Thompson NFA of `MAX_SIZE` states that
/// accepts exactly the strings its grammar matches.
pub struct RegularExpression<const MAX_SIZE: usize> {
    start: usize,
    /// Index of the sole `Nfa::Match` state. `from_grammar` creates exactly
    /// one, so reaching it is the whole of the accept test.
    match_state: usize,
    states: [Nfa; MAX_SIZE],
    /// The grammar this expression was compiled from.
    grammar: Ghost<Grammar>,
}

impl<const MAX_SIZE: usize> View for RegularExpression<MAX_SIZE> {
    type V = Grammar;

    /// The grammar the expression was compiled from.
    closed spec fn view(&self) -> Grammar {
        self.grammar@
    }
}

impl<const MAX_SIZE: usize> RegularExpression<MAX_SIZE> {
    spec fn table(&self) -> Seq<Option<Nfa>> {
        present(self.states@)
    }

    /// The automaton is well formed and accepts what its grammar matches.
    #[verifier::type_invariant]
    spec fn inv(&self) -> bool {
        &&& self.start < MAX_SIZE
        &&& self.match_state < MAX_SIZE
        &&& self.states@[self.match_state as int] == Nfa::Match
        &&& forall|i: int|
            0 <= i < MAX_SIZE && i != self.match_state ==> #[trigger] self.states@[i] != Nfa::Match
        &&& forall|i: int| 0 <= i < MAX_SIZE ==> arrows_below(#[trigger] self.states@[i], MAX_SIZE as int)
        &&& forall|s: Seq<char>|
            #![trigger in_language(self.grammar@, s)]
            #![trigger reaches(present(self.states@), self.start as int, s, self.match_state as int)]
            in_language(self.grammar@, s) == reaches(present(self.states@), self.start as int, s, self.match_state as int)
    }

    /// Compiles `input` into an automaton of exactly `MAX_SIZE` states,
    /// which must be `input.grammar_size()`.
    pub fn from_grammar(input: &Grammar) -> (r: Self)
        requires
            well_formed(*input),
            MAX_SIZE == states_needed(*input) + 1,
            MAX_SIZE < usize::MAX,
        ensures
            r@ == *input,
    {
        let mut temp_states: TempStates<MAX_SIZE> = [None;MAX_SIZE];
        let ghost sz: int = states_needed(*input) as int;
        let ghost d: int = MAX_SIZE + 1;
        proof {
            assert forall|i: int| 0 <= i < MAX_SIZE implies (#[trigger] temp_states@[i] is Some <==> i < 0) by {}
        }

        // Expand the grammar, then hang a single `Match` state off every
        // arrow the expansion left dangling.
        let frag = expand_grammar(input, &mut temp_states, Ghost(0));

        assert(temp_states@[sz] is None);
        let match_state = next_slot(&temp_states);
        let ghost p1 = temp_states@;
        temp_states[match_state] = Some(Nfa::Match);
        let ghost p2 = temp_states@;
        proof {
            assert(match_state == sz);
            lemma_fragment_frame(p1, p2, frag, 0, sz);
        }

        let final_fragment = patch(
            frag,
            Fragment::<MAX_SIZE> { start: match_state, out_arrows: ConstList::new() },
            &mut temp_states,
        );
        let ghost q = temp_states@;
        proof {
            lemma_patch_effect(p2, q, frag, 0, sz, match_state);
        }

        let mut states: [Nfa; MAX_SIZE] = [Nfa::Match;MAX_SIZE];
        let mut i: usize = 0;

        while i < MAX_SIZE
            invariant
                i <= MAX_SIZE,
                temp_states@ == q,
                forall|j: int| 0 <= j < MAX_SIZE ==> #[trigger] q[j] is Some,
                forall|j: int| 0 <= j < i ==> Some(#[trigger] states@[j]) == q[j],
            decreases MAX_SIZE - i,
        {
            // Every slot is filled: `grammar_size` counts exactly the states
            // the expansion takes, and every pointer is wired to a real state.
            let s = temp_states[i].expect("None state in returned array");
            states[i] = s;

            i += 1;
        }

        proof {
            assert(present(states@) =~= q);
            assert(states@[sz] == Nfa::Match);
            assert forall|j: int| 0 <= j < MAX_SIZE implies arrows_below(#[trigger] states@[j], MAX_SIZE as int)
                && (j != sz ==> states@[j] != Nfa::Match) by {
                assert(Some(states@[j]) == q[j]);
                if j < sz {
                    assert(p2[j] is Some);
                }
            }
            assert forall|s: Seq<char>| in_language(*input, s) == reaches(q, frag.start as int, s, sz) by {
                lemma_patch_reaches(p2, q, 0, sz, d, match_state, frag.start as int, s, sz);
                if in_language(*input, s) {
                    assert(reaches(p2, frag.start as int, s, d));
                    assert(s.take(s.len() as int) =~= s);
                    assert(s.skip(s.len() as int) =~= Seq::<char>::empty());
                    lemma_reaches_match(q, sz, s.skip(s.len() as int));
                }
                if reaches(q, frag.start as int, s, sz) {
                    let k = choose|k: int|
                        0 <= k <= s.len() && #[trigger] reaches(p2, frag.start as int, s.take(k), d) && reaches(
                            q,
                            match_state as int,
                            s.skip(k),
                            sz,
                        );
                    lemma_reaches_match(q, sz, s.skip(k));
                    assert(s.take(k) =~= s);
                }
            }
        }
        Self { start: final_fragment.start, match_state, states, grammar: Ghost(*input) }
    }

    /// Add `state` to nlist, following `Split` states as we go so that the
    /// states that consume a character, or `Match`, reached from it are all
    /// in nlist. A split followed is left marked in nlist for the rest of
    /// the step, so no split is followed twice in one step.
    fn add_nlist(&self, state: usize, m: &mut Matcher<MAX_SIZE>)
        requires
            state < MAX_SIZE,
        ensures
            final(m).clist() == old(m).clist(),
            forall|i: int| 0 <= i < MAX_SIZE ==> #[trigger] final(m).nlist()[i] == (old(m).nlist()[i]
                || closes(self.table(), state as int, i, old(m).nlist())),
            count_false(final(m).nlist()) <= count_false(old(m).nlist()),
        decreases count_false(old(m).nlist()),
    {
        proof {
            use_type_invariant(self);
        }
        let ghost p = self.table();
        match self.states[state] {
            Nfa::Split { left, right } => {
                // A split never belongs in the list itself, so its slot is
                // free to double as a "followed in this step" mark. That
                // keeps a loop of splits (e.g. nested `ZeroOrMany`) from
                // recursing forever, and splits that paths share from being
                // walked once per path.
                if m.get_nlist(state) {
                    proof {
                        assert forall|i: int| 0 <= i < MAX_SIZE implies #[trigger] m.nlist()[i] == (old(m).nlist()[i]
                            || closes(p, state as int, i, old(m).nlist())) by {
                            if i != state {
                                assert forall|f: nat| !eps(p, state as int, i, old(m).nlist(), f) by {}
                            }
                        }
                    }
                    return;
                }
                let ghost n0 = m.nlist();
                m.set_nlist(state, true);
                proof {
                    lemma_count_false_update(n0, state as int, true);
                }
                let ghost n1 = m.nlist();
                self.add_nlist(left, m);
                let ghost n2 = m.nlist();
                self.add_nlist(right, m);
                proof {
                    let n3 = m.nlist();
                    assert forall|i: int| 0 <= i < MAX_SIZE implies #[trigger] n3[i] == (n0[i]
                        || closes(p, state as int, i, n0)) by {
                        if i == state {
                            assert(eps(p, state as int, i, n0, 0));
                        } else {
                            lemma_eps_split(p, state as int, i, n0);
                            assert(n1[i] == n0[i]);
                            if closes(p, right as int, i, n2) {
                                let f = choose|f: nat| eps(p, right as int, i, n2, f);
                                assert forall|j: int| is_split(p, j) && #[trigger] n1[j] implies n2[j] by {}
                                lemma_eps_fewer_marks(p, right as int, i, n1, n2, f);
                            }
                            if closes(p, right as int, i, n1) && !closes(p, right as int, i, n2) {
                                let f = choose|f: nat| eps(p, right as int, i, n1, f);
                                let z = lemma_eps_first_mark(p, right as int, i, n1, n2, f);
                                assert(n2[z]);
                                assert(closes(p, left as int, z, n1));
                                let g = choose|g: nat| eps(p, left as int, z, n1, g);
                                lemma_eps_concat(p, left as int, z, i, n1, g, f);
                            }
                        }
                    }
                }
            },
            _ => {
                m.set_nlist(state, true);
                proof {
                    lemma_count_false_update(old(m).nlist(), state as int, true);
                    assert forall|i: int| 0 <= i < MAX_SIZE implies #[trigger] m.nlist()[i] == (old(m).nlist()[i]
                        || closes(p, state as int, i, old(m).nlist())) by {
                        if closes(p, state as int, i, old(m).nlist()) {
                            let f = choose|f: nat| eps(p, state as int, i, old(m).nlist(), f);
                            assert(i == state);
                        }
                        assert(eps(p, state as int, state as int, old(m).nlist(), 0));
                    }
                }
            },
        };
    }

    /// Clear the marks that following splits left on nlist.
    fn clear_splits(&self, m: &mut Matcher<MAX_SIZE>)
        ensures
            final(m).clist() == old(m).clist(),
            forall|i: int| is_split(self.table(), i) ==> !#[trigger] final(m).nlist()[i],
            forall|t: int| settled(self.table(), t) ==> #[trigger] final(m).nlist()[t] == old(m).nlist()[t],
    {
        let ghost p = self.table();
        let mut j: usize = 0;
        while j < MAX_SIZE
            invariant
                j <= MAX_SIZE,
                p == self.table(),
                p.len() == MAX_SIZE,
                m.clist() == old(m).clist(),
                forall|i: int| is_split(p, i) && i < j ==> !#[trigger] m.nlist()[i],
                forall|t: int| settled(p, t) ==> #[trigger] m.nlist()[t] == old(m).nlist()[t],
            decreases MAX_SIZE - j,
        {
            match self.states[j] {
                Nfa::Split { .. } => m.set_nlist(j, false),
                _ => {},
            }
            j += 1;
        }
    }

    /// Add every state reachable from `state` by consuming `input` to nlist
    fn next_state(&self, state: usize, input: char, m: &mut Matcher<MAX_SIZE>)
        requires
            settled(self.table(), state as int),
            saturated(self.table(), old(m).nlist()),
        ensures
            final(m).clist() == old(m).clist(),
            saturated(self.table(), final(m).nlist()),
            forall|t: int| settled(self.table(), t) ==> #[trigger] final(m).nlist()[t] == (old(m).nlist()[t]
                || feeds(self.table(), state as int, input, t)),
    {
        proof {
            use_type_invariant(self);
        }
        let ghost p = self.table();
        let ghost n0 = m.nlist();
        let ghost none = no_marks(p.len());
        match self.states[state] {
            Nfa::Wild { out } => self.add_nlist(out, m),
            Nfa::Literal { value, out } => {
                if input == value {
                    self.add_nlist(out, m)
                }
            },
            Nfa::Range { start, end, out } => {
                if start <= input && input <= end {
                    self.add_nlist(out, m)
                }
            },
            // A literal or range that did not match is a dead end, `Match` has nowhere
            // to go, and splits are resolved as states are added to a list, so
            // an active state is never a split.
            _ => {},
        };
        proof {
            let n1 = m.nlist();
            match step_target(p[state as int]->0, input) {
                Some(z) => {
                    assert forall|i: int| is_split(p, i) && #[trigger] none[i] implies n0[i] by {}
                    assert forall|t: int| settled(p, t) implies #[trigger] n1[t] == (n0[t]
                        || feeds(p, state as int, input, t)) by {
                        lemma_closes_is_reach(p, z, t, none);
                        if closes(p, z, t, n0) {
                            let f = choose|f: nat| eps(p, z, t, n0, f);
                            lemma_eps_fewer_marks(p, z, t, none, n0, f);
                        }
                        if closes(p, z, t, none) && !closes(p, z, t, n0) {
                            let f = choose|f: nat| eps(p, z, t, none, f);
                            let y = lemma_eps_first_mark(p, z, t, none, n0, f);
                            assert(closes(p, y, t, none));
                        }
                    }
                    assert forall|y: int, t: int|
                        is_split(p, y) && n1[y] && settled(p, t) && #[trigger] closes(p, y, t, no_marks(p.len()))
                        implies n1[t] by {
                        if !n0[y] {
                            assert(closes(p, z, y, n0));
                            let g = choose|g: nat| eps(p, z, y, n0, g);
                            let f = choose|f: nat| eps(p, y, t, none, f);
                            if eps(p, y, t, n0, f) {
                                lemma_eps_concat(p, z, y, t, n0, g, f);
                            } else {
                                let w = lemma_eps_first_mark(p, y, t, none, n0, f);
                                assert(closes(p, w, t, none));
                            }
                        }
                    }
                },
                None => {},
            }
        }
    }

    /// Advance state of NFA by one step, consuming `c`. Returns whether any
    /// state was active to consume it.
    fn step(&self, c: char, m: &mut Matcher<MAX_SIZE>) -> (r: bool)
        requires
            forall|i: int| is_split(self.table(), i) ==> !#[trigger] old(m).nlist()[i],
            forall|i: int| #![trigger old(m).clist()[i]] 0 <= i < MAX_SIZE && old(m).clist()[i] ==> settled(self.table(), i),
        ensures
            forall|i: int| 0 <= i < MAX_SIZE ==> !#[trigger] final(m).clist()[i],
            forall|i: int| is_split(self.table(), i) ==> !#[trigger] final(m).nlist()[i],
            forall|t: int| settled(self.table(), t) ==> #[trigger] final(m).nlist()[t] == (old(m).nlist()[t]
                || exists|i: int| 0 <= i < MAX_SIZE && old(m).clist()[i] && #[trigger] feeds(self.table(), i, c, t)),
            r == exists|i: int| 0 <= i < MAX_SIZE && #[trigger] old(m).clist()[i],
    {
        let ghost p = self.table();
        let mut did_process_any_state = false;
        proof {
            assert forall|y: int, t: int|
                is_split(p, y) && m.nlist()[y] && settled(p, t) && #[trigger] closes(p, y, t, no_marks(p.len()))
                implies m.nlist()[t] by {}
        }

        // Process each active state from clist
        let mut i: usize = 0;
        while i < MAX_SIZE
            invariant
                i <= MAX_SIZE,
                p == self.table(),
                p.len() == MAX_SIZE,
                forall|j: int| 0 <= j < i ==> !#[trigger] m.clist()[j],
                forall|j: int| i <= j < MAX_SIZE ==> #[trigger] m.clist()[j] == old(m).clist()[j],
                forall|j: int| #![trigger old(m).clist()[j]] 0 <= j < MAX_SIZE && old(m).clist()[j] ==> settled(p, j),
                saturated(p, m.nlist()),
                forall|t: int| settled(p, t) ==> #[trigger] m.nlist()[t] == (old(m).nlist()[t] || exists|j: int|
                    0 <= j < i && old(m).clist()[j] && #[trigger] feeds(p, j, c, t)),
                did_process_any_state == exists|j: int| 0 <= j < i && #[trigger] old(m).clist()[j],
            decreases MAX_SIZE - i,
        {
            if !m.get_clist(i) {
                i += 1;
                continue;
            }
            let ghost n0 = m.nlist();
            self.next_state(i, c, m);
            did_process_any_state = true;
            m.set_clist(i, false);
            proof {
                assert forall|t: int| settled(p, t) implies #[trigger] m.nlist()[t] == (old(m).nlist()[t] || exists|j: int|
                    0 <= j < i + 1 && old(m).clist()[j] && #[trigger] feeds(p, j, c, t)) by {
                    if feeds(p, i as int, c, t) {
                        assert(old(m).clist()[i as int]);
                    }
                }
            }
            i += 1;
        }
        // The splits followed in this step are done with: clear their marks
        // so the list holds live states only.
        self.clear_splits(m);
        did_process_any_state
    }

    /// The live states after consuming `w` from the start state.
    spec fn live_after(&self, m: Matcher<MAX_SIZE>, w: Seq<char>) -> bool {
        &&& forall|t: int| 0 <= t < MAX_SIZE ==> #[trigger] m.clist()[t] == (settled(self.table(), t)
            && reaches(self.table(), self.start as int, w, t))
        &&& forall|t: int| 0 <= t < MAX_SIZE ==> !#[trigger] m.nlist()[t]
    }

    fn to_matcher(&self) -> (m: Matcher<MAX_SIZE>)
        ensures
            self.live_after(m, Seq::empty()),
    {
        proof {
            use_type_invariant(self);
        }
        let ghost p = self.table();
        let mut m = Matcher::new();
        // Seed nlist, then swap it into place so the start state gets the
        // same split-following treatment as every later state.
        self.add_nlist(self.start, &mut m);
        self.clear_splits(&mut m);
        m.switch();
        proof {
            assert forall|t: int| 0 <= t < MAX_SIZE implies #[trigger] m.clist()[t] == (settled(p, t)
                && reaches(p, self.start as int, Seq::empty(), t)) by {
                if settled(p, t) {
                    lemma_closes_is_reach(p, self.start as int, t, no_marks(MAX_SIZE as nat));
                } else {
                    assert(is_split(p, t));
                }
            }
        }
        m
    }

    /// Whether the NFA has arrived at its `Match` state.
    fn is_match(&self, matcher: &Matcher<MAX_SIZE>) -> (r: bool)
        ensures
            r == matcher.clist()[self.match_state as int],
    {
        proof {
            use_type_invariant(self);
        }
        matcher.get_clist(self.match_state)
    }

    /// Consumes `c`, the character after `w`: the live states are then those
    /// after `w.push(c)`. Returns whether any state was live to consume it.
    fn advance(&self, c: char, m: &mut Matcher<MAX_SIZE>, Ghost(w): Ghost<Seq<char>>) -> (r: bool)
        requires
            self.live_after(*old(m), w),
        ensures
            self.live_after(*final(m), w.push(c)),
            r == exists|t: int| settled(self.table(), t) && #[trigger] reaches(self.table(), self.start as int, w, t),
    {
        proof {
            use_type_invariant(self);
        }
        let ghost p = self.table();
        let ghost c0 = m.clist();
        let r = self.step(c, m);
        m.switch();
        proof {
            assert forall|t: int| 0 <= t < MAX_SIZE implies #[trigger] m.clist()[t] == (settled(p, t)
                && reaches(p, self.start as int, w.push(c), t)) by {
                if settled(p, t) {
                    lemma_active_step(p, self.start as int, w, c, t);
                    if reaches(p, self.start as int, w.push(c), t) {
                        let u = choose|u: int| settled(p, u) && reaches(p, self.start as int, w, u) && #[trigger] feeds(p, u, c, t);
                        assert(c0[u]);
                    }
                } else {
                    assert(is_split(p, t));
                }
            }
            if r {
                let i = choose|i: int| 0 <= i < MAX_SIZE && #[trigger] c0[i];
                assert(settled(p, i) && reaches(p, self.start as int, w, i));
            } else {
                assert forall|t: int| settled(p, t) implies !#[trigger] reaches(p, self.start as int, w, t) by {
                    assert(!c0[t]);
                }
            }
        }
        r
    }

    /// Whether the expression matches the whole of `input`.
    pub fn match_whole(&self, input: &str) -> (r: bool)
        ensures
            r == in_language(self@, input@),
    {
        proof {
            use_type_invariant(self);
        }
        let ghost p = self.table();
        let mut m = self.to_matcher();
        assert(input@.take(0) =~= Seq::<char>::empty());

        for c in it: input.chars()
            invariant
                it.seq() == input@,
                p == self.table(),
                self.live_after(m, input@.take(it.index() as int)),
        {
            let ghost idx = it.index();
            // If no states were processed in this pass, exit.
            // Every state in nlist is put there by a state that was active in
            // clist, so an empty clist can never refill and no amount of
            // remaining input can produce a match.
            if !self.advance(c, &mut m, Ghost(input@.take(idx as int))) {
                proof {
                    use_type_invariant(self);
                    lemma_dead_prefix(p, self.start as int, input@, self.match_state as int, idx as int);
                }
                return false;
            }
            proof {
                assert(input@.take(idx as int).push(c) =~= input@.take(idx + 1));
            }
        }
        proof {
            assert(input@.take(input@.len() as int) =~= input@);
        }
        self.is_match(&m)
    }

    /// Whether the expression matches a prefix of `input`. Accepts exactly
    /// what `split_prefix` splits on, so an empty match does not count: the
    /// prefix has to consume at least one character.
    pub fn match_prefix(&self, input: &str) -> (r: bool)
        ensures
            r == some_prefix_in_language(self@, input@),
    {
        proof {
            use_type_invariant(self);
        }
        let ghost p = self.table();
        let mut m = self.to_matcher();
        assert(input@.take(0) =~= Seq::<char>::empty());

        for c in it: input.chars()
            invariant
                it.seq() == input@,
                p == self.table(),
                self.live_after(m, input@.take(it.index() as int)),
                forall|k: int| 1 <= k <= it.index() ==> !#[trigger] in_language(self@, input@.take(k)),
        {
            let ghost idx = it.index();
            // No state was left alive to consume `c`, so no match can be
            // reached from here and none was reached before now.
            if !self.advance(c, &mut m, Ghost(input@.take(idx as int))) {
                proof {
                    use_type_invariant(self);
                    assert forall|k: int| 1 <= k <= input@.len() implies !#[trigger] in_language(self@, input@.take(k)) by {
                        if k > idx {
                            assert(input@.take(k).take(idx as int) =~= input@.take(idx as int));
                            lemma_dead_prefix(p, self.start as int, input@.take(k), self.match_state as int, idx as int);
                        }
                    }
                }
                return false;
            }
            proof {
                assert(input@.take(idx as int).push(c) =~= input@.take(idx + 1));
                use_type_invariant(self);
            }
            // `advance` has swapped the states this step produced into
            // clist, so `is_match` asks whether one of them is `Match`.
            // Unlike `split_prefix` there is no length to report, so the
            // shortest match answers the question and longer ones cannot
            // change it.
            if self.is_match(&m) {
                assert(reaches(p, self.start as int, input@.take(idx + 1), self.match_state as int));
                assert(in_language(self@, input@.take(idx + 1)));
                return true;
            }
        }
        false
    }

    /// Split string on the longest match of the expression at the start of
    /// `input`. The first half is everything the match consumed, the second
    /// is everything after it. A match has to consume at least one character.
    pub fn split_prefix<'a>(&self, input: &'a str) -> (r: Option<(&'a str, &'a str)>)
        ensures
            r is Some == some_prefix_in_language(self@, input@),
            match r {
                None => forall|k: int| 1 <= k <= input@.len() ==> !#[trigger] in_language(self@, input@.take(k)),
                Some((a, b)) => {
                    &&& a@ + b@ == input@
                    &&& 1 <= a@.len()
                    &&& a@ == input@.take(a@.len() as int)
                    &&& b@ == input@.skip(a@.len() as int)
                    &&& in_language(self@, a@)
                    &&& forall|k: int| a@.len() < k <= input@.len() ==> !#[trigger] in_language(self@, input@.take(k))
                },
            },
    {
        proof {
            use_type_invariant(self);
        }
        let ghost p = self.table();
        let total = input.unicode_len();
        let mut m = self.to_matcher();
        assert(input@.take(0) =~= Seq::<char>::empty());

        // Number of characters consumed by the match under consideration,
        // and by the longest match seen so far.
        let mut end: usize = 0;
        let mut longest: Option<usize> = None;

        for c in it: input.chars()
            invariant
                it.seq() == input@,
                p == self.table(),
                total == input@.len(),
                end == it.index(),
                self.live_after(m, input@.take(end as int)),
                match longest {
                    None => forall|k: int| 1 <= k <= end ==> !#[trigger] in_language(self@, input@.take(k)),
                    Some(n) => {
                        &&& 1 <= n <= end
                        &&& in_language(self@, input@.take(n as int))
                        &&& forall|k: int| n < k <= end ==> !#[trigger] in_language(self@, input@.take(k))
                    },
                },
        {
            // No state was left alive to consume `c`, so no longer match can
            // exist. Whatever was found before this point still stands.
            if !self.advance(c, &mut m, Ghost(input@.take(end as int))) {
                proof {
                    use_type_invariant(self);
                    assert forall|k: int| end < k <= input@.len() implies !#[trigger] in_language(self@, input@.take(k)) by {
                        assert(input@.take(k).take(end as int) =~= input@.take(end as int));
                        lemma_dead_prefix(p, self.start as int, input@.take(k), self.match_state as int, end as int);
                    }
                }
                return Self::split_at_char(input, total, longest);
            }
            proof {
                assert(input@.take(end as int).push(c) =~= input@.take(end + 1));
                use_type_invariant(self);
            }
            end += 1;

            if self.is_match(&m) {
                longest = Some(end);
            }
        }
        Self::split_at_char(input, total, longest)
    }

    /// Splits `input` after its first `n` characters, where `longest` is
    /// `Some(n)`.
    fn split_at_char<'a>(input: &'a str, total: usize, longest: Option<usize>) -> (r: Option<(&'a str, &'a str)>)
        requires
            total == input@.len(),
            longest matches Some(n) ==> n <= total,
        ensures
            match longest {
                None => r is None,
                Some(n) => r matches Some((a, b)) && a@ == input@.take(n as int) && b@ == input@.skip(n as int),
            },
    {
        match longest {
            Some(n) => Some((input.substring_char(0, n), input.substring_char(n, total))),
            None => None,
        }
    }
}


type TempStates<const MAX_SIZE: usize> = [Option<Nfa>; MAX_SIZE];

/// Placeholder for an `out` pointer that has not been wired to a real
/// state yet. Deliberately outside the `0..MAX_SIZE` range of valid state
/// indices so it can never be confused for one.
fn dangling<const MAX_SIZE: usize>() -> (r: usize)
    requires
        MAX_SIZE < usize::MAX,
    ensures
        r == MAX_SIZE + 1,
{
    MAX_SIZE + 1
}

/// Whether `out` is still waiting to be patched to a real state.
fn is_dangling<const MAX_SIZE: usize>(out: usize) -> (r: bool)
    ensures
        r == (out >= MAX_SIZE),
{
    out >= MAX_SIZE
}

/// The mark that `dangling` gives an arrow not wired yet, `MAX_SIZE + 1`,
/// is never a valid state index: `is_dangling` (true exactly from
/// `MAX_SIZE` on) holds of the mark and of no index `i` below `MAX_SIZE`.
pub proof fn lemma_dangling_is_no_state<const MAX_SIZE: usize>(mark: usize, i: usize)
    requires
        mark == MAX_SIZE + 1,
        i < MAX_SIZE,
    ensures
        mark >= MAX_SIZE,
        i != mark,
        !(i >= MAX_SIZE),
{
}

/// A partial NFA. Points to the starting index of the first in a chain,
/// and indexs of states which "out" properties are still dangling. Use
/// `dangling()` as the temporary value for those pointers.
#[derive(Clone, Copy)]
struct Fragment<const N: usize> {
    start: usize,
    out_arrows: ConstList<usize, N>,
}

/// The first `c` slots of `p` are filled and the rest are free.
spec fn filled(p: Seq<Option<Nfa>>, c: int) -> bool {
    forall|i: int| 0 <= i < p.len() ==> (#[trigger] p[i] is Some <==> i < c)
}

/// `i` is one of the indices in `outs`.
spec fn listed(outs: Seq<usize>, i: int) -> bool {
    exists|k: int| 0 <= k < outs.len() && outs[k] as int == i
}

/// `frag` is a fragment over the slots `[a, b)` of `p`: it starts inside
/// them, they only point among themselves or dangle, and its out arrows
/// list, once each, exactly the slots that dangle.
spec fn fragment_ok<const N: usize>(p: Seq<Option<Nfa>>, frag: Fragment<N>, a: int, b: int) -> bool {
    &&& frag.out_arrows.wf()
    &&& parts_ok(p, frag.start, frag.out_arrows@, a, b, N + 1)
}

/// The slots `[a, b)` of `p` hold a fragment that starts at `start` and
/// dangles, towards `d`, exactly from the slots that `outs` lists once each.
spec fn parts_ok(p: Seq<Option<Nfa>>, start: usize, outs: Seq<usize>, a: int, b: int, d: int) -> bool {
    &&& a <= start < b
    &&& closed(p, a, b, d)
    &&& outs.no_duplicates()
    &&& forall|k: int| 0 <= k < outs.len() ==> a <= #[trigger] outs[k] < b
    &&& forall|i: int| a <= i < b ==> (has_arrow_to(#[trigger] p[i]->0, d) <==> listed(outs, i))
}

/// The lists of `ls` one after the other.
spec fn joined(ls: Seq<Seq<usize>>) -> Seq<usize>
    decreases ls.len(),
{
    if ls.len() == 0 {
        Seq::empty()
    } else {
        joined(ls.drop_last()) + ls.last()
    }
}

/// A fragment's slots stay a fragment while slots outside them change.
proof fn lemma_parts_frame(
    p: Seq<Option<Nfa>>,
    q: Seq<Option<Nfa>>,
    start: usize,
    outs: Seq<usize>,
    a: int,
    b: int,
    d: int,
)
    requires
        parts_ok(p, start, outs, a, b, d),
        p.len() == q.len(),
        forall|i: int| a <= i < b ==> #[trigger] q[i] == p[i],
    ensures
        parts_ok(q, start, outs, a, b, d),
{
    assert forall|i: int| a <= i < b implies (has_arrow_to(#[trigger] q[i]->0, d) <==> listed(outs, i)) by {
        assert(q[i] == p[i]);
    }
}

/// Branch `g` of an alternation fills the slots `[a, b)` of `p` as a
/// fragment that starts at `start` and dangles from the slots `outs` lists;
/// a leaf is the one state it stands for, at `a`.
spec fn branch_ok(p: Seq<Option<Nfa>>, start: usize, outs: Seq<usize>, a: int, b: int, d: int, g: Grammar) -> bool {
    &&& parts_ok(p, start, outs, a, b, d)
    &&& leaf_state(g, d as usize) is Some ==> start == a && outs == seq![start] && p[a] == leaf_state(g, d as usize)
}

/// A branch's slots stay a branch while slots outside them change.
proof fn lemma_branch_frame(
    p: Seq<Option<Nfa>>,
    q: Seq<Option<Nfa>>,
    start: usize,
    outs: Seq<usize>,
    a: int,
    b: int,
    d: int,
    g: Grammar,
)
    requires
        branch_ok(p, start, outs, a, b, d, g),
        p.len() == q.len(),
        forall|i: int| a <= i < b ==> #[trigger] q[i] == p[i],
    ensures
        branch_ok(q, start, outs, a, b, d, g),
{
    lemma_parts_frame(p, q, start, outs, a, b, d);
    assert(q[a] == p[a]);
}

/// What `patch` makes of the state `n`: consuming states are pointed at
/// `t`, and split arms at or past `max` too.
spec fn patched(n: Nfa, t: usize, max: usize) -> Nfa {
    match n {
        Nfa::Wild { .. } => Nfa::Wild { out: t },
        Nfa::Literal { value, .. } => Nfa::Literal { value, out: t },
        Nfa::Range { start, end, .. } => Nfa::Range { start, end, out: t },
        Nfa::Split { left, right } => Nfa::Split {
            left: if left >= max { t } else { left },
            right: if right >= max { t } else { right },
        },
        Nfa::Match => Nfa::Match,
    }
}

/// Get index of next open slot in states array
fn next_slot<const MAX_SIZE: usize>(states: &TempStates<MAX_SIZE>) -> (r: usize)
    requires
        exists|i: int| 0 <= i < MAX_SIZE && states@[i] is None,
    ensures
        r < MAX_SIZE,
        states@[r as int] is None,
        forall|j: int| 0 <= j < r ==> states@[j] is Some,
{
    let mut i: usize = 0;
    let ghost w = choose|i: int| 0 <= i < MAX_SIZE && states@[i] is None;
    while states[i].is_some()
        invariant
            i <= w < MAX_SIZE,
            states@[w] is None,
            forall|j: int| 0 <= j < i ==> states@[j] is Some,
        decreases w - i,
    {
        i += 1;
    }
    i
}

/// `k` is the first free slot of `p`.
spec fn first_free(p: Seq<Option<Nfa>>, k: int) -> bool {
    &&& 0 <= k < p.len()
    &&& p[k] is None
    &&& forall|j: int| 0 <= j < k ==> #[trigger] p[j] is Some
}

/// The one state that the leaf `g` of a grammar is expanded into, its arrow
/// pointing at `out`; `None` when `g` is no leaf.
spec fn leaf_state(g: Grammar, out: usize) -> Option<Nfa> {
    match g {
        Grammar::Wild => Some(Nfa::Wild { out }),
        Grammar::Literal(value) => Some(Nfa::Literal { value, out }),
        Grammar::Range(start, end) => Some(Nfa::Range { start, end, out }),
        _ => None,
    }
}

/// Append a one-state fragment for `n` at the first free slot.
fn expand_single<const MAX_SIZE: usize>(n: Nfa, states: &mut TempStates<MAX_SIZE>) -> (r: Fragment<MAX_SIZE>)
    requires
        exists|i: int| 0 <= i < MAX_SIZE && old(states)@[i] is None,
    ensures
        first_free(old(states)@, r.start as int),
        final(states)@ == old(states)@.update(r.start as int, Some(n)),
        r.out_arrows.wf(),
        r.out_arrows@ == seq![r.start],
{
    let i = next_slot(states);
    states[i] = Some(n);

    let mut l: ConstList<usize, MAX_SIZE> = ConstList::new();

    l.push_back(i);

    let r = Fragment { start: i, out_arrows: l };
    proof {
        assert(r.out_arrows@ =~= seq![i]);
    }
    r
}

/// Append a wild NFA state to the states list and return a fragment
fn expand_wild<const MAX_SIZE: usize>(states: &mut TempStates<MAX_SIZE>) -> (r: Fragment<MAX_SIZE>)
    requires
        exists|i: int| 0 <= i < MAX_SIZE && old(states)@[i] is None,
        MAX_SIZE < usize::MAX,
    ensures
        first_free(old(states)@, r.start as int),
        final(states)@ == old(states)@.update(r.start as int, Some(Nfa::Wild { out: (MAX_SIZE + 1) as usize })),
        r.out_arrows.wf(),
        r.out_arrows@ == seq![r.start],
{
    expand_single(Nfa::Wild { out: dangling::<MAX_SIZE>() }, states)
}

/// Append a literal NFA state to the states list and return a fragment
fn expand_literal<const MAX_SIZE: usize>(input: char, states: &mut TempStates<MAX_SIZE>) -> (r: Fragment<MAX_SIZE>)
    requires
        exists|i: int| 0 <= i < MAX_SIZE && old(states)@[i] is None,
        MAX_SIZE < usize::MAX,
    ensures
        first_free(old(states)@, r.start as int),
        final(states)@ == old(states)@.update(
            r.start as int,
            Some(Nfa::Literal { value: input, out: (MAX_SIZE + 1) as usize }),
        ),
        r.out_arrows.wf(),
        r.out_arrows@ == seq![r.start],
{
    expand_single(Nfa::Literal { value: input, out: dangling::<MAX_SIZE>() }, states)
}

/// Append a range NFA state to the states list and return a fragment
fn expand_range<const MAX_SIZE: usize>(start: char, end: char, states: &mut TempStates<MAX_SIZE>) -> (r: Fragment<
    MAX_SIZE,
>)
    requires
        // An inverted range can never match, so it is always a mistake rather
        // than a deliberate "match nothing".
        start <= end,
        exists|i: int| 0 <= i < MAX_SIZE && old(states)@[i] is None,
        MAX_SIZE < usize::MAX,
    ensures
        first_free(old(states)@, r.start as int),
        final(states)@ == old(states)@.update(
            r.start as int,
            Some(Nfa::Range { start, end, out: (MAX_SIZE + 1) as usize }),
        ),
        r.out_arrows.wf(),
        r.out_arrows@ == seq![r.start],
{
    expand_single(Nfa::Range { start, end, out: dangling::<MAX_SIZE>() }, states)
}

/// A leaf written at the first free slot of a table filled up to `c0` lies
/// at `c0`, is a fragment of its own there and accepts what the leaf matches.
proof fn lemma_leaf_fragment<const N: usize>(
    p: Seq<Option<Nfa>>,
    q: Seq<Option<Nfa>>,
    r: Fragment<N>,
    c0: int,
    g: Grammar,
)
    requires
        p.len() == N,
        N < usize::MAX,
        filled(p, c0),
        0 <= c0 < N,
        leaf_state(g, (N + 1) as usize) is Some,
        first_free(p, r.start as int),
        q == p.update(r.start as int, leaf_state(g, (N + 1) as usize)),
        r.out_arrows.wf(),
        r.out_arrows@ == seq![r.start],
    ensures
        r.start == c0,
        filled(q, c0 + 1),
        fragment_ok(q, r, c0, c0 + 1),
        accepts_as(q, c0, N + 1, g),
{
    assert(p[c0] is None);
    if (r.start as int) < c0 {
        assert(p[r.start as int] is Some);
    }
    assert(r.out_arrows@[0] as int == c0);
    assert(listed(r.out_arrows@, c0));
    assert forall|s: Seq<char>| in_language(g, s) == reaches(q, c0, s, N + 1) by {
        lemma_single(q, c0, N + 1, s);
    }
}

/// Join the out arrows of fragment one to the start of fragment 2.
/// Return a fragment from fragment one start to out arrows of fragment 2.
fn patch<const MAX_SIZE: usize>(
    fragment_1: Fragment<MAX_SIZE>,
    fragment_2: Fragment<MAX_SIZE>,
    states: &mut TempStates<MAX_SIZE>,
) -> (r: Fragment<MAX_SIZE>)
    requires
        fragment_1.out_arrows.wf(),
        forall|k: int|
            0 <= k < fragment_1.out_arrows@.len() ==> #[trigger] fragment_1.out_arrows@[k] < MAX_SIZE
                && old(states)@[fragment_1.out_arrows@[k] as int] is Some
                && !(old(states)@[fragment_1.out_arrows@[k] as int]->0 is Match),
    ensures
        r.start == fragment_1.start,
        r.out_arrows == fragment_2.out_arrows,
        forall|j: int|
            0 <= j < MAX_SIZE ==> #[trigger] final(states)@[j] == if listed(fragment_1.out_arrows@, j) {
                Some(patched(old(states)@[j]->0, fragment_2.start, MAX_SIZE))
            } else {
                old(states)@[j]
            },
{
    let Fragment { start: frag_1_start, out_arrows: mut frag_1_out } = fragment_1;

    let Fragment { start: frag_2_start, out_arrows: frag_2_out } = fragment_2;

    let ghost outs = frag_1_out@;
    let ghost mut done: int = 0;

    loop
        invariant
            frag_1_out.wf(),
            0 <= done <= outs.len(),
            frag_1_out@ == outs.skip(done),
            outs == fragment_1.out_arrows@,
            forall|k: int|
                0 <= k < outs.len() ==> #[trigger] outs[k] < MAX_SIZE && old(states)@[outs[k] as int] is Some
                    && !(old(states)@[outs[k] as int]->0 is Match),
            forall|j: int|
                0 <= j < MAX_SIZE ==> #[trigger] states@[j] == if listed(outs.take(done), j) {
                    Some(patched(old(states)@[j]->0, frag_2_start, MAX_SIZE))
                } else {
                    old(states)@[j]
                },
        ensures
            done == outs.len(),
            forall|j: int|
                0 <= j < MAX_SIZE ==> #[trigger] states@[j] == if listed(outs.take(done), j) {
                    Some(patched(old(states)@[j]->0, frag_2_start, MAX_SIZE))
                } else {
                    old(states)@[j]
                },
        decreases outs.len() - done,
    {
        let i = match frag_1_out.pop_front() {
            Some(i) => i,
            None => break,
        };
        proof {
            assert(outs[done] == i);
        }
        let ghost before = states@[i as int];
        proof {
            // Patching an index listed twice patches it again, to the same
            // state.
            let n = old(states)@[i as int]->0;
            assert(patched(patched(n, frag_2_start, MAX_SIZE), frag_2_start, MAX_SIZE) == patched(
                n,
                frag_2_start,
                MAX_SIZE,
            ));
        }
        let mut s = states[i].expect("State given to patch does not exist");

        match s {
            Nfa::Wild { out: _ } => {
                s = Nfa::Wild { out: frag_2_start };
            },
            Nfa::Literal { value, out: _ } => {
                s = Nfa::Literal { value, out: frag_2_start };
            },
            Nfa::Range { start, end, out: _ } => {
                s = Nfa::Range { start, end, out: frag_2_start };
            },
            Nfa::Split { left: l, right: r } => {
                // Only the arms still holding the dangling sentinel get
                // repointed; the other arm is already wired to a real state.
                let new_l = if is_dangling::<MAX_SIZE>(l) {
                    frag_2_start
                } else {
                    l
                };
                let new_r = if is_dangling::<MAX_SIZE>(r) {
                    frag_2_start
                } else {
                    r
                };

                s = Nfa::Split { left: new_l, right: new_r }
            },
            // A fragment never lists the match state among its out arrows.
            Nfa::Match => {},
        };

        states[i] = Some(s);
        proof {
            assert forall|j: int| 0 <= j < MAX_SIZE implies #[trigger] states@[j] == if listed(outs.take(done + 1), j) {
                Some(patched(old(states)@[j]->0, frag_2_start, MAX_SIZE))
            } else {
                old(states)@[j]
            } by {
                let o1 = outs.take(done + 1);
                let o0 = outs.take(done);
                if listed(o1, j) && j != i {
                    let k = choose|k: int| 0 <= k < o1.len() && #[trigger] o1[k] as int == j;
                    assert(o0[k] as int == j);
                }
                if listed(o0, j) {
                    let k = choose|k: int| 0 <= k < o0.len() && #[trigger] o0[k] as int == j;
                    assert(o1[k] as int == j);
                }
                if j == i {
                    assert(outs.take(done + 1)[done] as int == j);
                }
            }
            done = done + 1;
            assert(frag_1_out@ =~= outs.skip(done));
        }
    }
    proof {
        assert(outs.take(done) =~= outs);
    }

    Fragment { start: frag_1_start, out_arrows: frag_2_out }
}


/// What `patch` does to a fragment over `[a, b)` is to point its dangling
/// arrows at `t`, and to leave every other slot alone.
proof fn lemma_patch_effect<const N: usize>(
    p: Seq<Option<Nfa>>,
    q: Seq<Option<Nfa>>,
    frag: Fragment<N>,
    a: int,
    b: int,
    t: usize,
)
    requires
        fragment_ok(p, frag, a, b),
        p.len() == N,
        q.len() == N,
        !(a <= t < b),
        t < N,
        forall|j: int|
            0 <= j < N ==> #[trigger] q[j] == if listed(frag.out_arrows@, j) {
                Some(patched(p[j]->0, t, N))
            } else {
                p[j]
            },
    ensures
        patched_block(p, q, a, b, N + 1, t),
        forall|j: int| 0 <= j < N && !(a <= j < b) ==> #[trigger] q[j] == p[j],
{
    let outs = frag.out_arrows@;
    assert forall|i: int| a <= i < b implies #[trigger] q[i] == Some(retarget(p[i]->0, N + 1, t)) by {
        assert(p[i] is Some);
    }
    assert forall|j: int| 0 <= j < N && !(a <= j < b) implies #[trigger] q[j] == p[j] by {
        if listed(outs, j) {
            let k = choose|k: int| 0 <= k < outs.len() && #[trigger] outs[k] as int == j;
        }
    }
}

/// A fragment stays a fragment, accepting the same strings, while slots
/// outside it change.
proof fn lemma_fragment_frame<const N: usize>(
    p: Seq<Option<Nfa>>,
    q: Seq<Option<Nfa>>,
    frag: Fragment<N>,
    a: int,
    b: int,
)
    requires
        fragment_ok(p, frag, a, b),
        p.len() == q.len(),
        forall|i: int| a <= i < b ==> #[trigger] q[i] == p[i],
    ensures
        fragment_ok(q, frag, a, b),
        forall|s: Seq<char>| #[trigger] reaches(q, frag.start as int, s, N + 1) == reaches(p, frag.start as int, s, N + 1),
{
    assert forall|i: int| a <= i < b implies (has_arrow_to(#[trigger] q[i]->0, N + 1) <==> listed(frag.out_arrows@, i)) by {
        assert(q[i] == p[i]);
    }
    assert forall|s: Seq<char>| #[trigger] reaches(q, frag.start as int, s, N + 1) == reaches(p, frag.start as int, s, N + 1) by {
        lemma_frame_reaches(p, q, a, b, N + 1, frag.start as int, s, N + 1);
    }
}

/// Patching a fragment over `[a, b)` into one over `[b, c)` makes a fragment
/// over `[a, c)` that starts where the first did and dangles where the
/// second did.
proof fn lemma_sequence_ok<const N: usize>(
    p: Seq<Option<Nfa>>,
    q: Seq<Option<Nfa>>,
    f1: Fragment<N>,
    f2: Fragment<N>,
    a: int,
    b: int,
    c: int,
)
    requires
        fragment_ok(p, f1, a, b),
        fragment_ok(p, f2, b, c),
        patched_block(p, q, a, b, N + 1, f2.start),
        forall|j: int| b <= j < c ==> #[trigger] q[j] == p[j],
    ensures
        fragment_ok(q, Fragment { start: f1.start, out_arrows: f2.out_arrows }, a, c),
{
    let r = Fragment { start: f1.start, out_arrows: f2.out_arrows };
    assert forall|i: int| a <= i < c implies q[i] is Some && !(q[i]->0 is Match) && arrows_within(
        #[trigger] q[i]->0,
        a,
        c,
        N + 1,
    ) by {
        assert(p[i] is Some);
    }
    assert forall|i: int| a <= i < c implies (has_arrow_to(#[trigger] q[i]->0, N + 1) <==> listed(r.out_arrows@, i)) by {
        if i < b {
            assert(p[i] is Some);
            if listed(r.out_arrows@, i) {
                let k = choose|k: int| 0 <= k < r.out_arrows@.len() && #[trigger] r.out_arrows@[k] as int == i;
            }
        } else {
            assert(q[i] == p[i]);
        }
    }
}


/// Route generic grammar to the appropriate function
fn expand_grammar<const MAX_SIZE: usize>(
    input: &Grammar,
    states: &mut TempStates<MAX_SIZE>,
    Ghost(c0): Ghost<int>,
) -> (r: Fragment<MAX_SIZE>)
    requires
        filled(old(states)@, c0),
        0 <= c0,
        c0 + states_needed(*input) <= MAX_SIZE < usize::MAX,
        well_formed(*input),
    ensures
        filled(final(states)@, c0 + states_needed(*input)),
        forall|j: int| 0 <= j < c0 ==> #[trigger] final(states)@[j] == old(states)@[j],
        fragment_ok(final(states)@, r, c0, c0 + states_needed(*input)),
        accepts_as(final(states)@, r.start as int, MAX_SIZE + 1, *input),
        // A leaf is the one state it stands for, at `c0`, left dangling.
        leaf_state(*input, (MAX_SIZE + 1) as usize) is Some ==> {
            &&& final(states)@ == old(states)@.update(c0, leaf_state(*input, (MAX_SIZE + 1) as usize))
            &&& r.start == c0
            &&& r.out_arrows@ == seq![c0 as usize]
        },
    decreases input, 0nat,
{
    proof {
        lemma_states_needed_positive(*input);
    }
    match input {
        Grammar::Wild => {
            assert(old(states)@[c0] is None);
            let r = expand_wild(states);
            proof {
                lemma_leaf_fragment(old(states)@, states@, r, c0, *input);
            }
            r
        },
        Grammar::Literal(i) => {
            assert(old(states)@[c0] is None);
            let r = expand_literal(*i, states);
            proof {
                lemma_leaf_fragment(old(states)@, states@, r, c0, *input);
            }
            r
        },
        Grammar::Range(start, end) => {
            assert(old(states)@[c0] is None);
            let r = expand_range(*start, *end, states);
            proof {
                lemma_leaf_fragment(old(states)@, states@, r, c0, *input);
            }
            r
        },
        Grammar::Concatenation(grammars) => {
            let r = expand_concatenation(grammars, states, Ghost(c0));
            assert forall|s: Seq<char>| in_language(*input, s) == reaches(states@, r.start as int, s, MAX_SIZE + 1) by {
                assert(concat_language(grammars@, s) == reaches(states@, r.start as int, s, MAX_SIZE + 1));
            }
            r
        },
        Grammar::Alternation(grammars) => {
            let r = expand_alternation(grammars, states, Ghost(c0));
            assert forall|s: Seq<char>| in_language(*input, s) == reaches(states@, r.start as int, s, MAX_SIZE + 1) by {
                assert(any_language(grammars@, s) == reaches(states@, r.start as int, s, MAX_SIZE + 1));
            }
            r
        },
        Grammar::ZeroOrOne(grammar) => {
            let r = expand_zero_or_one(grammar, states, Ghost(c0));
            assert(accepts_as(states@, r.start as int, MAX_SIZE + 1, *input));
            r
        },
        Grammar::ZeroOrMany(grammar) => {
            let r = expand_zero_or_many(grammar, states, Ghost(c0));
            assert(accepts_as(states@, r.start as int, MAX_SIZE + 1, *input));
            r
        },
        Grammar::OneOrMany(grammar) => {
            let r = expand_one_or_many(grammar, states, Ghost(c0));
            assert(accepts_as(states@, r.start as int, MAX_SIZE + 1, *input));
            r
        },
    }
}

/// Chain a series of grammar pieces together
fn expand_concatenation<const MAX_SIZE: usize>(
    input: &Vec<Grammar>,
    states: &mut TempStates<MAX_SIZE>,
    Ghost(c0): Ghost<int>,
) -> (r: Fragment<MAX_SIZE>)
    requires
        filled(old(states)@, c0),
        0 <= c0,
        c0 + states_needed_all(input@) <= MAX_SIZE < usize::MAX,
        input.len() > 0,
        forall|i: int| 0 <= i < input.len() ==> well_formed(#[trigger] input@[i]),
    ensures
        filled(final(states)@, c0 + states_needed_all(input@)),
        forall|j: int| 0 <= j < c0 ==> #[trigger] final(states)@[j] == old(states)@[j],
        fragment_ok(final(states)@, r, c0, c0 + states_needed_all(input@)),
        forall|s: Seq<char>|
            #[trigger] concat_language(input@, s) == reaches(final(states)@, r.start as int, s, MAX_SIZE + 1),
    decreases input, 1nat,
{
    let input_len = input.len();
    proof {
        lemma_states_needed_all_take(input@, 0);
        assert(input@.take(0) =~= Seq::<Grammar>::empty());
        if input_len > 1 {
            lemma_states_needed_all_take(input@, 1);
        } else {
            assert(input@.take(1) =~= input@);
        }
    }

    // Expand first grammar, returning fragment
    let mut fragment_1 = expand_grammar(&input[0], states, Ghost(c0));
    let mut fragment_2;
    proof {
        assert(input@.take(1).drop_last() =~= Seq::<Grammar>::empty());
        assert forall|s: Seq<char>| #[trigger] concat_language(input@.take(1), s) == reaches(
            states@,
            fragment_1.start as int,
            s,
            MAX_SIZE + 1,
        ) by {
            let t1 = input@.take(1);
            assert(t1.last() == input@[0]);
            assert(t1.drop_last() =~= Seq::<Grammar>::empty());
            if in_language(input@[0], s) {
                assert(s.take(0) =~= Seq::<char>::empty());
                assert(s.skip(0) =~= s);
                assert(concat_language(t1.drop_last(), s.take(0)));
                assert(in_language(t1.last(), s.skip(0)));
                assert(concat_language(t1, s));
            }
            if concat_language(t1, s) {
                let k = choose|k: int|
                    0 <= k <= s.len() && concat_language(t1.drop_last(), s.take(k))
                        && in_language(t1.last(), s.skip(k));
                assert(s.take(k).len() == 0);
                assert(s.skip(k) =~= s);
            }
        }
    }

    let mut i: usize = 1;

    // Repeatedly expand next grammar
    while i < input_len
        invariant
            1 <= i <= input_len,
            input_len == input.len(),
            c0 + states_needed_all(input@) <= MAX_SIZE < usize::MAX,
            0 <= c0,
            forall|j: int| 0 <= j < input.len() ==> well_formed(#[trigger] input@[j]),
            filled(states@, c0 + states_needed_all(input@.take(i as int))),
            forall|j: int| 0 <= j < c0 ==> #[trigger] states@[j] == old(states)@[j],
            fragment_ok(states@, fragment_1, c0, c0 + states_needed_all(input@.take(i as int))),
            forall|s: Seq<char>|
                #[trigger] concat_language(input@.take(i as int), s) == reaches(
                    states@,
                    fragment_1.start as int,
                    s,
                    MAX_SIZE + 1,
                ),
        decreases input_len - i,
    {
        let ghost b = c0 + states_needed_all(input@.take(i as int));
        let ghost p1 = states@;
        proof {
            lemma_states_needed_all_take(input@, i as int);
            if i + 1 < input_len {
                lemma_states_needed_all_take(input@, i + 1);
            } else {
                assert(input@.take(i + 1) =~= input@);
            }
        }
        // Expand next grammar
        fragment_2 = expand_grammar(&input[i], states, Ghost(b));
        let ghost p2 = states@;
        let ghost c = b + states_needed(input@[i as int]);
        proof {
            lemma_fragment_frame(p1, p2, fragment_1, c0, b);
        }

        // Point all remaining arrows from previous grammar at start of next
        let ghost f1 = fragment_1;
        fragment_1 = patch(fragment_1, fragment_2, states);
        proof {
            lemma_patch_effect(p2, states@, f1, c0, b, fragment_2.start);
            lemma_sequence_ok(p2, states@, f1, fragment_2, c0, b, c);
            lemma_concat_step(p2, states@, c0, b, c, MAX_SIZE + 1, f1.start as int, fragment_2.start, input@, i as int);
            assert forall|j: int| 0 <= j < MAX_SIZE implies (#[trigger] states@[j] is Some <==> j < c) by {
                if c0 <= j < b {
                    assert(p2[j] is Some);
                }
            }
        }

        i += 1;
    }
    proof {
        assert(input@.take(input_len as int) =~= input@);
    }

    // Return encapsulation of start to end of last outbound arrows
    fragment_1
}


/// The slots `[a, b)` of `p` are closed, and the slots `[b, c)` of `q` too:
/// together they are closed in `q`, when `q` keeps `[a, b)` as it was.
proof fn lemma_closed_join(p: Seq<Option<Nfa>>, q: Seq<Option<Nfa>>, a: int, b: int, c: int, d: int)
    requires
        closed(p, a, b, d),
        closed(q, b, c, d),
        p.len() == q.len(),
        forall|i: int| a <= i < b ==> #[trigger] q[i] == p[i],
    ensures
        closed(q, a, c, d),
{
    assert forall|i: int| a <= i < c implies q[i] is Some && !(q[i]->0 is Match) && arrows_within(#[trigger] q[i]->0, a, c, d) by {
        if i < b {
            assert(q[i] == p[i]);
        }
    }
}

/// Fewer leading branches need no more states.
proof fn lemma_needed_prefix_mono(gs: Seq<Grammar>, j: int, i: int)
    requires
        0 <= j <= i <= gs.len(),
    ensures
        states_needed_all(gs.take(j)) <= states_needed_all(gs.take(i)),
{
    if j < i {
        lemma_states_needed_all_take(gs.take(i), j);
        assert(gs.take(i).take(j) =~= gs.take(j));
    }
}

/// How the branches `gs` of an alternation lie in `p` from slot `c0` on.
/// Branch `i` fills its own run of slots, in order, starts at `sts[i]` and
/// dangles from the slots that `bouts[i]` lists. Past the branches, at `e`,
/// come the splits: the one at `e + m - 1` enters the one before it (the
/// first one: the first branch) and branch `m`. The whole starts at the last
/// split, or at the only branch, and dangles from the branches' lists one
/// after the other.
spec fn alternation_layout(
    p: Seq<Option<Nfa>>,
    gs: Seq<Grammar>,
    c0: int,
    d: int,
    sts: Seq<usize>,
    bouts: Seq<Seq<usize>>,
    start: usize,
    outs: Seq<usize>,
) -> bool {
    let n = gs.len();
    let e = c0 + states_needed_all(gs);
    &&& sts.len() == n
    &&& bouts.len() == n
    &&& forall|i: int|
        #![trigger sts[i], bouts[i]]
        0 <= i < n ==> branch_ok(
            p,
            sts[i],
            bouts[i],
            c0 + states_needed_all(gs.take(i)),
            c0 + states_needed_all(gs.take(i + 1)),
            d,
            gs[i],
        ) && accepts_as(p, sts[i] as int, d, gs[i])
    &&& forall|m: int|
        #![trigger sts[m]]
        1 <= m < n ==> p[e + m - 1] == Some(
            Nfa::Split { left: if m == 1 { sts[0] } else { (e + m - 2) as usize }, right: sts[m] },
        )
    &&& start == (if n == 1 { sts[0] } else { (e + n - 2) as usize })
    &&& outs == joined(bouts)
}

/// Expand every branch, then chain splits in front of them so entering the
/// fragment enters all of the branches at once
fn expand_alternation<const MAX_SIZE: usize>(
    input: &Vec<Grammar>,
    states: &mut TempStates<MAX_SIZE>,
    Ghost(c0): Ghost<int>,
) -> (r: Fragment<MAX_SIZE>)
    requires
        filled(old(states)@, c0),
        0 <= c0,
        c0 + states_needed_all(input@) + input.len() - 1 <= MAX_SIZE < usize::MAX,
        input.len() > 0,
        forall|i: int| 0 <= i < input.len() ==> well_formed(#[trigger] input@[i]),
    ensures
        filled(final(states)@, c0 + states_needed_all(input@) + input.len() - 1),
        forall|j: int| 0 <= j < c0 ==> #[trigger] final(states)@[j] == old(states)@[j],
        fragment_ok(final(states)@, r, c0, c0 + states_needed_all(input@) + input.len() - 1),
        forall|s: Seq<char>|
            #[trigger] any_language(input@, s) == reaches(final(states)@, r.start as int, s, MAX_SIZE + 1),
        exists|sts: Seq<usize>, bouts: Seq<Seq<usize>>|
            #[trigger] alternation_layout(
                final(states)@,
                input@,
                c0,
                MAX_SIZE + 1,
                sts,
                bouts,
                r.start,
                r.out_arrows@,
            ),
    decreases input, 1nat,
{
    let input_len = input.len();
    let ghost d = MAX_SIZE + 1;
    proof {
        lemma_states_needed_all_at_least(input@);
        lemma_states_needed_all_take(input@, 0);
        assert(input@.take(0) =~= Seq::<Grammar>::empty());
    }

    let mut starts: ConstList<usize, MAX_SIZE> = ConstList::new();
    let mut out_arrows: ConstList<usize, MAX_SIZE> = ConstList::new();
    let ghost mut branch_outs: Seq<Seq<usize>> = Seq::empty();

    // Expand each grammar in input
    let mut i: usize = 0;
    while i < input_len
        invariant
            i <= input_len,
            branch_outs.len() == i,
            out_arrows@ == joined(branch_outs),
            forall|j: int|
                #![trigger starts@[j], branch_outs[j]]
                0 <= j < i ==> branch_ok(
                    states@,
                    starts@[j],
                    branch_outs[j],
                    c0 + states_needed_all(input@.take(j)),
                    c0 + states_needed_all(input@.take(j + 1)),
                    d,
                    input@[j],
                ),
            input_len == input.len(),
            input_len <= states_needed_all(input@),
            c0 + states_needed_all(input@) + input.len() - 1 <= MAX_SIZE < usize::MAX,
            0 <= c0,
            d == MAX_SIZE + 1,
            forall|j: int| 0 <= j < input.len() ==> well_formed(#[trigger] input@[j]),
            filled(states@, c0 + states_needed_all(input@.take(i as int))),
            forall|j: int| 0 <= j < c0 ==> #[trigger] states@[j] == old(states)@[j],
            closed(states@, c0, c0 + states_needed_all(input@.take(i as int)), d),
            starts.wf(),
            starts@.len() == i,
            forall|j: int|
                0 <= j < i ==> c0 <= #[trigger] starts@[j] < c0 + states_needed_all(input@.take(i as int))
                    && accepts_as(states@, starts@[j] as int, d, input@[j]),
            out_arrows.wf(),
            out_arrows@.no_duplicates(),
            forall|k: int|
                0 <= k < out_arrows@.len() ==> c0 <= #[trigger] out_arrows@[k] < c0 + states_needed_all(
                    input@.take(i as int),
                ),
            forall|x: int|
                c0 <= x < c0 + states_needed_all(input@.take(i as int)) ==> (has_arrow_to(
                    #[trigger] states@[x]->0,
                    d,
                ) <==> listed(out_arrows@, x)),
        decreases input_len - i,
    {
        let ghost b = c0 + states_needed_all(input@.take(i as int));
        let ghost p1 = states@;
        let ghost starts0 = starts@;
        let ghost outs0 = out_arrows@;
        proof {
            lemma_states_needed_all_take(input@, i as int);
            if i + 1 < input_len {
                lemma_states_needed_all_take(input@, i + 1);
            } else {
                assert(input@.take(i + 1) =~= input@);
            }
        }
        let Fragment { start: s, out_arrows: o } = expand_grammar(&input[i], states, Ghost(b));
        let ghost c = b + states_needed(input@[i as int]);
        let ghost p2 = states@;
        proof {
            lemma_distinct_bound(outs0, c0, b);
            lemma_distinct_bound(o@, b, c);
        }

        starts.push_back(s);
        out_arrows.extend(o);

        proof {
            let bo0 = branch_outs;
            branch_outs = branch_outs.push(o@);
            assert(branch_outs.drop_last() =~= bo0);
            assert forall|j: int|
                #![trigger starts@[j], branch_outs[j]]
                0 <= j < i + 1 implies branch_ok(
                    p2,
                    starts@[j],
                    branch_outs[j],
                    c0 + states_needed_all(input@.take(j)),
                    c0 + states_needed_all(input@.take(j + 1)),
                    d,
                    input@[j],
                ) by {
                if j < i {
                    assert(starts@[j] == starts0[j]);
                    assert(branch_outs[j] == bo0[j]);
                    lemma_needed_prefix_mono(input@, j + 1, i as int);
                    lemma_branch_frame(
                        p1,
                        p2,
                        starts0[j],
                        bo0[j],
                        c0 + states_needed_all(input@.take(j)),
                        c0 + states_needed_all(input@.take(j + 1)),
                        d,
                        input@[j],
                    );
                } else {
                    assert(starts@[j] == s);
                    assert(branch_outs[j] == o@);
                }
            }
            lemma_closed_join(p1, p2, c0, b, c, d);
            assert forall|j: int|
                0 <= j < i + 1 implies c0 <= #[trigger] starts@[j] < c && accepts_as(p2, starts@[j] as int, d, input@[j]) by {
                if j < i {
                    assert(starts@[j] == starts0[j]);
                    assert forall|t: Seq<char>| in_language(input@[j], t) == reaches(p2, starts@[j] as int, t, d) by {
                        lemma_frame_reaches(p1, p2, c0, b, d, starts@[j] as int, t, d);
                    }
                }
            }
            assert forall|k1: int, k2: int|
                0 <= k1 < out_arrows@.len() && 0 <= k2 < out_arrows@.len() && k1 != k2 implies out_arrows@[k1]
                != out_arrows@[k2] by {
                if k1 < outs0.len() && k2 >= outs0.len() {
                    assert(out_arrows@[k2] == o@[k2 - outs0.len()]);
                } else if k2 < outs0.len() && k1 >= outs0.len() {
                    assert(out_arrows@[k1] == o@[k1 - outs0.len()]);
                } else if k1 >= outs0.len() {
                    assert(out_arrows@[k1] == o@[k1 - outs0.len()]);
                    assert(out_arrows@[k2] == o@[k2 - outs0.len()]);
                }
            }
            assert forall|k: int| 0 <= k < out_arrows@.len() implies c0 <= #[trigger] out_arrows@[k] < c by {
                if k >= outs0.len() {
                    assert(out_arrows@[k] == o@[k - outs0.len()]);
                }
            }
            assert forall|x: int| c0 <= x < c implies (has_arrow_to(#[trigger] p2[x]->0, d) <==> listed(
                out_arrows@,
                x,
            )) by {
                if x < b {
                    assert(p2[x] == p1[x]);
                    if listed(outs0, x) {
                        let k = choose|k: int| 0 <= k < outs0.len() && #[trigger] outs0[k] as int == x;
                        assert(out_arrows@[k] == outs0[k]);
                    }
                    if listed(out_arrows@, x) {
                        let k = choose|k: int| 0 <= k < out_arrows@.len() && #[trigger] out_arrows@[k] as int == x;
                        if k >= outs0.len() {
                            assert(out_arrows@[k] == o@[k - outs0.len()]);
                        }
                    }
                } else {
                    if listed(o@, x) {
                        let k = choose|k: int| 0 <= k < o@.len() && #[trigger] o@[k] as int == x;
                        assert(out_arrows@[k + outs0.len()] == o@[k]);
                    }
                    if listed(out_arrows@, x) {
                        let k = choose|k: int| 0 <= k < out_arrows@.len() && #[trigger] out_arrows@[k] as int == x;
                        if k >= outs0.len() {
                            assert(out_arrows@[k] == o@[k - outs0.len()]);
                        }
                    }
                }
            }
        }

        i += 1;
    }

    let ghost end0 = c0 + states_needed_all(input@);
    let ghost all_starts = starts@;
    proof {
        assert(input@.take(input_len as int) =~= input@);
        assert forall|k: int| 0 <= k <= input_len implies #[trigger] states_needed_all(input@.take(k)) <= states_needed_all(input@) by {
            lemma_needed_prefix_mono(input@, k, input_len as int);
        }
    }

    // Alternating between `n` branches takes `n - 1` splits: one branch needs
    // none, two need a single split, and each branch past that chains another
    // split onto the previous one.

    // Get first grammar pointer
    let g1 = starts.pop_front().unwrap();

    // Get second grammar pointer (or return)
    let g2 = match starts.pop_front() {
        Some(g2) => g2,
        None => {
            // Only single grammar fragment to return
            let r = Fragment { start: g1, out_arrows };
            proof {
                assert forall|t: Seq<char>| #[trigger] any_language(input@, t) == reaches(states@, g1 as int, t, d) by {
                    assert(in_language(input@[0], t) == reaches(states@, g1 as int, t, d));
                }
                assert(all_starts[0] == g1);
                assert(alternation_layout(states@, input@, c0, d, all_starts, branch_outs, r.start, r.out_arrows@));
            }
            return r;
        },
    };

    // Add split for first two grammars
    let ghost p3 = states@;
    assert(states@[end0] is None);
    let mut split = next_slot(states);
    states[split] = Some(Nfa::Split { left: g1, right: g2 });
    let ghost mut j: int = 2;
    proof {
        assert(split == end0);
        assert(g1 == all_starts[0] && g2 == all_starts[1]);
        assert forall|k: int|
            #![trigger all_starts[k], branch_outs[k]]
            0 <= k < input_len implies branch_ok(
                states@,
                all_starts[k],
                branch_outs[k],
                c0 + states_needed_all(input@.take(k)),
                c0 + states_needed_all(input@.take(k + 1)),
                d,
                input@[k],
            ) by {
            assert(c0 + states_needed_all(input@.take(k + 1)) <= end0);
            lemma_branch_frame(
                p3,
                states@,
                all_starts[k],
                branch_outs[k],
                c0 + states_needed_all(input@.take(k)),
                c0 + states_needed_all(input@.take(k + 1)),
                d,
                input@[k],
            );
        }
        lemma_closed_join(p3, states@, c0, end0, end0, d);
        assert forall|k: int|
            0 <= k < input_len implies c0 <= #[trigger] all_starts[k] < end0 && accepts_as(
                states@,
                all_starts[k] as int,
                d,
                input@[k],
            ) by {
            assert forall|t: Seq<char>| in_language(input@[k], t) == reaches(states@, all_starts[k] as int, t, d) by {
                lemma_frame_reaches(p3, states@, c0, end0, d, all_starts[k] as int, t, d);
            }
        }
        assert forall|t: Seq<char>| #[trigger] any_language(input@.take(2), t) == reaches(states@, split as int, t, d) by {
            lemma_split_reaches(states@, split as int, t, d);
            lemma_frame_reaches(p3, states@, c0, end0, d, g1 as int, t, d);
            lemma_frame_reaches(p3, states@, c0, end0, d, g2 as int, t, d);
            assert(input@.take(2)[0] == input@[0]);
            assert(input@.take(2)[1] == input@[1]);
            let t2 = input@.take(2);
            if any_language(t2, t) {
                let k = choose|k: int| 0 <= k < t2.len() && in_language(#[trigger] t2[k], t);
            }
        }
    }

    // Repeatedly add split and +1 grammar for remaining
    loop
        invariant
            2 <= j <= input_len,
            branch_outs.len() == input_len,
            out_arrows@ == joined(branch_outs),
            forall|k: int| 0 <= k <= input_len ==> #[trigger] states_needed_all(input@.take(k)) <= states_needed_all(input@),
            forall|k: int|
                #![trigger all_starts[k], branch_outs[k]]
                0 <= k < input_len ==> branch_ok(
                    states@,
                    all_starts[k],
                    branch_outs[k],
                    c0 + states_needed_all(input@.take(k)),
                    c0 + states_needed_all(input@.take(k + 1)),
                    d,
                    input@[k],
                ),
            forall|m: int|
                #![trigger all_starts[m]]
                1 <= m < j ==> states@[end0 + m - 1] == Some(
                    Nfa::Split {
                        left: if m == 1 { all_starts[0] } else { (end0 + m - 2) as usize },
                        right: all_starts[m],
                    },
                ),
            input_len == input.len(),
            all_starts.len() == input_len,
            starts.wf(),
            starts@ == all_starts.skip(j),
            end0 == c0 + states_needed_all(input@),
            end0 + input_len - 1 <= MAX_SIZE < usize::MAX,
            0 <= c0 < end0,
            d == MAX_SIZE + 1,
            split == end0 + j - 2,
            filled(states@, end0 + j - 1),
            forall|k: int| 0 <= k < c0 ==> #[trigger] states@[k] == old(states)@[k],
            closed(states@, c0, end0 + j - 1, d),
            forall|k: int|
                0 <= k < input_len ==> c0 <= #[trigger] all_starts[k] < end0 && accepts_as(
                    states@,
                    all_starts[k] as int,
                    d,
                    input@[k],
                ),
            out_arrows.wf(),
            out_arrows@.no_duplicates(),
            forall|k: int| 0 <= k < out_arrows@.len() ==> c0 <= #[trigger] out_arrows@[k] < end0,
            forall|x: int|
                c0 <= x < end0 + j - 1 ==> (has_arrow_to(#[trigger] states@[x]->0, d) <==> listed(
                    out_arrows@,
                    x,
                )),
            forall|t: Seq<char>|
                #[trigger] any_language(input@.take(j), t) == reaches(states@, split as int, t, d),
        ensures
            j == input_len,
            split == end0 + j - 2,
            forall|k: int|
                #![trigger all_starts[k], branch_outs[k]]
                0 <= k < input_len ==> branch_ok(
                    states@,
                    all_starts[k],
                    branch_outs[k],
                    c0 + states_needed_all(input@.take(k)),
                    c0 + states_needed_all(input@.take(k + 1)),
                    d,
                    input@[k],
                ),
            forall|m: int|
                #![trigger all_starts[m]]
                1 <= m < j ==> states@[end0 + m - 1] == Some(
                    Nfa::Split {
                        left: if m == 1 { all_starts[0] } else { (end0 + m - 2) as usize },
                        right: all_starts[m],
                    },
                ),
            forall|k: int|
                0 <= k < input_len ==> c0 <= #[trigger] all_starts[k] < end0 && accepts_as(
                    states@,
                    all_starts[k] as int,
                    d,
                    input@[k],
                ),
            filled(states@, end0 + j - 1),
            forall|k: int| 0 <= k < c0 ==> #[trigger] states@[k] == old(states)@[k],
            closed(states@, c0, end0 + j - 1, d),
            forall|x: int|
                c0 <= x < end0 + j - 1 ==> (has_arrow_to(#[trigger] states@[x]->0, d) <==> listed(
                    out_arrows@,
                    x,
                )),
            forall|t: Seq<char>|
                #[trigger] any_language(input@.take(j), t) == reaches(states@, split as int, t, d),
        decreases input_len - j,
    {
        let g = match starts.pop_front() {
            Some(g) => g,
            None => break,
        };
        let ghost p4 = states@;
        assert(states@[end0 + j - 1] is None);
        let new_split = next_slot(states);

        states[new_split] = Some(Nfa::Split { left: split, right: g });
        proof {
            assert(g == all_starts[j]);
            assert(new_split == end0 + j - 1);
            assert forall|k: int|
                #![trigger all_starts[k], branch_outs[k]]
                0 <= k < input_len implies branch_ok(
                    states@,
                    all_starts[k],
                    branch_outs[k],
                    c0 + states_needed_all(input@.take(k)),
                    c0 + states_needed_all(input@.take(k + 1)),
                    d,
                    input@[k],
                ) by {
                assert(c0 + states_needed_all(input@.take(k + 1)) <= end0);
                lemma_branch_frame(
                    p4,
                    states@,
                    all_starts[k],
                    branch_outs[k],
                    c0 + states_needed_all(input@.take(k)),
                    c0 + states_needed_all(input@.take(k + 1)),
                    d,
                    input@[k],
                );
            }
            assert forall|m: int|
                #![trigger all_starts[m]]
                1 <= m < j + 1 implies states@[end0 + m - 1] == Some(
                    Nfa::Split {
                        left: if m == 1 { all_starts[0] } else { (end0 + m - 2) as usize },
                        right: all_starts[m],
                    },
                ) by {
                if m < j {
                    assert(states@[end0 + m - 1] == p4[end0 + m - 1]);
                }
            }
            assert forall|x: int| c0 <= x < end0 + j implies states@[x] is Some && !(states@[x]->0 is Match)
                && arrows_within(#[trigger] states@[x]->0, c0, end0 + j, d) by {
                if x < end0 + j - 1 {
                    assert(states@[x] == p4[x]);
                }
            }
            assert forall|k: int|
                0 <= k < input_len implies c0 <= #[trigger] all_starts[k] < end0 && accepts_as(
                    states@,
                    all_starts[k] as int,
                    d,
                    input@[k],
                ) by {
                assert forall|t: Seq<char>| in_language(input@[k], t) == reaches(states@, all_starts[k] as int, t, d) by {
                    lemma_frame_reaches(p4, states@, c0, end0 + j - 1, d, all_starts[k] as int, t, d);
                }
            }
            assert forall|x: int| c0 <= x < end0 + j implies (has_arrow_to(#[trigger] states@[x]->0, d) <==> listed(
                out_arrows@,
                x,
            )) by {
                if x < end0 + j - 1 {
                    assert(states@[x] == p4[x]);
                } else {
                    if listed(out_arrows@, x) {
                        let k = choose|k: int| 0 <= k < out_arrows@.len() && #[trigger] out_arrows@[k] as int == x;
                    }
                }
            }
            assert forall|t: Seq<char>| #[trigger] any_language(input@.take(j + 1), t) == reaches(states@, new_split as int, t, d) by {
                lemma_split_reaches(states@, new_split as int, t, d);
                lemma_frame_reaches(p4, states@, c0, end0 + j - 1, d, split as int, t, d);
                assert(reaches(p4, split as int, t, d) == any_language(input@.take(j), t));
                assert(input@.take(j + 1)[j] == input@[j]);
                let tj1 = input@.take(j + 1);
                let tj = input@.take(j);
                if any_language(tj1, t) {
                    let k = choose|k: int| 0 <= k < tj1.len() && in_language(#[trigger] tj1[k], t);
                    if k < j {
                        assert(tj[k] == tj1[k]);
                    }
                }
                if any_language(tj, t) {
                    let k = choose|k: int| 0 <= k < tj.len() && in_language(#[trigger] tj[k], t);
                    assert(tj[k] == tj1[k]);
                }
            }
            j = j + 1;
            assert(starts@ =~= all_starts.skip(j));
        }

        split = new_split;
    }
    let r = Fragment { start: split, out_arrows };
    proof {
        assert(input@.take(j) =~= input@);
        assert(alternation_layout(states@, input@, c0, d, all_starts, branch_outs, r.start, r.out_arrows@));
    }

    // Return fragment of start = last split and all out arrows of grammars
    r
}

/// A fragment for `*` or `+`: a split at `b` that enters the body and
/// dangles, with the body's dangling arrows pointed back at the split.
proof fn lemma_loop_fragment<const N: usize>(
    p: Seq<Option<Nfa>>,
    q: Seq<Option<Nfa>>,
    body: Fragment<N>,
    a: int,
    b: int,
    start: usize,
    out: ConstList<usize, N>,
)
    requires
        fragment_ok(p, body, a, b),
        patched_block(p, q, a, b, N + 1, b as usize),
        q.len() == N,
        b < N < usize::MAX,
        q[b] == Some(Nfa::Split { left: body.start, right: (N + 1) as usize }),
        a <= start <= b,
        out.wf(),
        out@ == seq![b as usize],
    ensures
        fragment_ok(q, Fragment { start, out_arrows: out }, a, b + 1),
{
    assert forall|i: int| a <= i < b + 1 implies q[i] is Some && !(q[i]->0 is Match) && arrows_within(
        #[trigger] q[i]->0,
        a,
        b + 1,
        N + 1,
    ) by {
        if i < b {
            assert(p[i] is Some);
        }
    }
    assert forall|i: int| a <= i < b + 1 implies (has_arrow_to(#[trigger] q[i]->0, N + 1) <==> listed(out@, i)) by {
        if i < b {
            assert(p[i] is Some);
        } else {
            assert(out@[0] as int == b);
        }
    }
}

/// `?` - a split in front of the grammar, whose second arm skips past it.
/// The skipping arm dangles, so it leaves the fragment alongside the
/// grammar's own arrows
fn expand_zero_or_one<const MAX_SIZE: usize>(
    input: &Grammar,
    states: &mut TempStates<MAX_SIZE>,
    Ghost(c0): Ghost<int>,
) -> (r: Fragment<MAX_SIZE>)
    requires
        filled(old(states)@, c0),
        0 <= c0,
        c0 + states_needed(*input) + 1 <= MAX_SIZE < usize::MAX,
        well_formed(*input),
    ensures
        filled(final(states)@, c0 + states_needed(*input) + 1),
        forall|j: int| 0 <= j < c0 ==> #[trigger] final(states)@[j] == old(states)@[j],
        fragment_ok(final(states)@, r, c0, c0 + states_needed(*input) + 1),
        forall|s: Seq<char>|
            #[trigger] reaches(final(states)@, r.start as int, s, MAX_SIZE + 1) == (s.len() == 0
                || in_language(*input, s)),
        // The grammar's own fragment fills `[c0, b)`, the split at `b` enters
        // it or skips it, and the fragment leaves by the grammar's own
        // dangling arrows and then by the split's.
        exists|body: Fragment<MAX_SIZE>|
            #![trigger fragment_ok(final(states)@, body, c0, c0 + states_needed(*input))]
            {
                &&& fragment_ok(final(states)@, body, c0, c0 + states_needed(*input))
                &&& accepts_as(final(states)@, body.start as int, MAX_SIZE + 1, *input)
                &&& final(states)@[c0 + states_needed(*input)] == Some(
                    Nfa::Split { left: body.start, right: (MAX_SIZE + 1) as usize },
                )
                &&& r.start == c0 + states_needed(*input)
                &&& r.out_arrows@ == body.out_arrows@.push((c0 + states_needed(*input)) as usize)
                &&& leaf_state(*input, (MAX_SIZE + 1) as usize) is Some ==> {
                    &&& final(states)@[c0] == leaf_state(*input, (MAX_SIZE + 1) as usize)
                    &&& body.start == c0
                    &&& body.out_arrows@ == seq![c0 as usize]
                }
            },
    decreases input, 1nat,
{
    let body = expand_grammar(input, states, Ghost(c0));
    let ghost gbody = body;
    let Fragment { start: input_start, mut out_arrows } = body;
    let ghost b = c0 + states_needed(*input);
    let ghost p1 = states@;
    let ghost outs0 = out_arrows@;

    assert(states@[b] is None);
    let split = next_slot(states);

    states[split] = Some(Nfa::Split { left: input_start, right: dangling::<MAX_SIZE>() });

    proof {
        lemma_distinct_bound(outs0, c0, b);
    }
    out_arrows.push_back(split);

    let r = Fragment { start: split, out_arrows };
    proof {
        let d = MAX_SIZE + 1;
        assert(split == b);
        assert forall|i: int| c0 <= i < b + 1 implies states@[i] is Some && !(states@[i]->0 is Match)
            && arrows_within(#[trigger] states@[i]->0, c0, b + 1, d) by {
            if i < b {
                assert(states@[i] == p1[i]);
            }
        }
        assert forall|k1: int, k2: int|
            0 <= k1 < out_arrows@.len() && 0 <= k2 < out_arrows@.len() && k1 != k2 implies out_arrows@[k1]
            != out_arrows@[k2] by {
            if k1 < outs0.len() && k2 < outs0.len() {
                assert(out_arrows@[k1] == outs0[k1]);
                assert(out_arrows@[k2] == outs0[k2]);
            } else if k1 < outs0.len() {
                assert(out_arrows@[k1] == outs0[k1]);
            } else {
                assert(out_arrows@[k2] == outs0[k2]);
            }
        }
        assert forall|k: int| 0 <= k < out_arrows@.len() implies c0 <= #[trigger] out_arrows@[k] < b + 1 by {
            if k < outs0.len() {
                assert(out_arrows@[k] == outs0[k]);
            }
        }
        assert forall|x: int| c0 <= x < b + 1 implies (has_arrow_to(#[trigger] states@[x]->0, d) <==> listed(
            out_arrows@,
            x,
        )) by {
            if x < b {
                assert(states@[x] == p1[x]);
                if listed(outs0, x) {
                    let k = choose|k: int| 0 <= k < outs0.len() && #[trigger] outs0[k] as int == x;
                    assert(out_arrows@[k] == outs0[k]);
                }
                if listed(out_arrows@, x) {
                    let k = choose|k: int| 0 <= k < out_arrows@.len() && #[trigger] out_arrows@[k] as int == x;
                    if k < outs0.len() {
                        assert(out_arrows@[k] == outs0[k]);
                    }
                }
            } else {
                assert(out_arrows@[outs0.len() as int] == split);
            }
        }
        assert forall|s: Seq<char>| #[trigger] reaches(states@, split as int, s, d) == (s.len() == 0
            || in_language(*input, s)) by {
            lemma_split_reaches(states@, split as int, s, d);
            lemma_reaches_outside(states@, d, s);
            lemma_frame_reaches(p1, states@, c0, b, d, input_start as int, s, d);
        }
        lemma_fragment_frame(p1, states@, gbody, c0, b);
        assert(out_arrows@ =~= gbody.out_arrows@.push(split));
    }
    r
}

/// `*` - as `?`, but the grammar's arrows loop back to the split rather than
/// leaving the fragment, so the split is the only way out
fn expand_zero_or_many<const MAX_SIZE: usize>(
    input: &Grammar,
    states: &mut TempStates<MAX_SIZE>,
    Ghost(c0): Ghost<int>,
) -> (r: Fragment<MAX_SIZE>)
    requires
        filled(old(states)@, c0),
        0 <= c0,
        c0 + states_needed(*input) + 1 <= MAX_SIZE < usize::MAX,
        well_formed(*input),
    ensures
        filled(final(states)@, c0 + states_needed(*input) + 1),
        forall|j: int| 0 <= j < c0 ==> #[trigger] final(states)@[j] == old(states)@[j],
        fragment_ok(final(states)@, r, c0, c0 + states_needed(*input) + 1),
        forall|s: Seq<char>|
            #[trigger] reaches(final(states)@, r.start as int, s, MAX_SIZE + 1) == star_language(*input, s),
        // The grammar's own fragment, as it was expanded into `mid`, fills
        // `[c0, b)` with its dangling arrows pointed back at the split at `b`,
        // which enters it or leaves the fragment.
        exists|mid: Seq<Option<Nfa>>, body: Fragment<MAX_SIZE>|
            #![trigger fragment_ok(mid, body, c0, c0 + states_needed(*input))]
            {
                let b = c0 + states_needed(*input);
                &&& mid.len() == MAX_SIZE
                &&& fragment_ok(mid, body, c0, b)
                &&& accepts_as(mid, body.start as int, MAX_SIZE + 1, *input)
                &&& final(states)@[b] == Some(Nfa::Split { left: body.start, right: (MAX_SIZE + 1) as usize })
                &&& forall|j: int|
                    0 <= j < MAX_SIZE && j != b ==> #[trigger] final(states)@[j] == if listed(body.out_arrows@, j) {
                        Some(patched(mid[j]->0, b as usize, MAX_SIZE))
                    } else {
                        mid[j]
                    }
                &&& r.start == b
                &&& r.out_arrows@ == seq![b as usize]
                &&& leaf_state(*input, (MAX_SIZE + 1) as usize) is Some ==> {
                    &&& mid[c0] == leaf_state(*input, (MAX_SIZE + 1) as usize)
                    &&& body.start == c0
                    &&& body.out_arrows@ == seq![c0 as usize]
                }
            },
    decreases input, 1nat,
{
    let grammar_frag = expand_grammar(input, states, Ghost(c0));
    let ghost b = c0 + states_needed(*input);
    let ghost p1 = states@;

    assert(states@[b] is None);
    let split = next_slot(states);

    states[split] = Some(Nfa::Split { left: grammar_frag.start, right: dangling::<MAX_SIZE>() });
    let ghost p2 = states@;

    let mut out: ConstList<usize, MAX_SIZE> = ConstList::new();

    out.push_back(split);

    let split_frag = Fragment { start: split, out_arrows: out };

    proof {
        assert(split == b);
        lemma_fragment_frame(p1, p2, grammar_frag, c0, b);
    }
    let rev = patch(grammar_frag, split_frag, states);

    let r = Fragment { start: split, ..rev };
    proof {
        let d = MAX_SIZE + 1;
        lemma_patch_effect(p2, states@, grammar_frag, c0, b, split);
        assert(out@ =~= seq![split]);
        lemma_loop_fragment(p2, states@, grammar_frag, c0, b, split, out);
        assert forall|s: Seq<char>| #[trigger] reaches(states@, split as int, s, d) == star_language(*input, s) by {
            lemma_star(p2, states@, c0, b, d, grammar_frag.start as int, *input, s);
        }
        assert(listed(grammar_frag.out_arrows@, b) ==> false) by {
            if listed(grammar_frag.out_arrows@, b) {
                let k = choose|k: int| 0 <= k < grammar_frag.out_arrows@.len() && #[trigger] grammar_frag.out_arrows@[k] as int == b;
            }
        }
        assert(fragment_ok(p1, grammar_frag, c0, b));
    }
    r
}

/// `+` - the same loop as `*`, but entered at the grammar instead of the
/// split, so one pass through it is mandatory
fn expand_one_or_many<const MAX_SIZE: usize>(
    input: &Grammar,
    states: &mut TempStates<MAX_SIZE>,
    Ghost(c0): Ghost<int>,
) -> (r: Fragment<MAX_SIZE>)
    requires
        filled(old(states)@, c0),
        0 <= c0,
        c0 + states_needed(*input) + 1 <= MAX_SIZE < usize::MAX,
        well_formed(*input),
    ensures
        filled(final(states)@, c0 + states_needed(*input) + 1),
        forall|j: int| 0 <= j < c0 ==> #[trigger] final(states)@[j] == old(states)@[j],
        fragment_ok(final(states)@, r, c0, c0 + states_needed(*input) + 1),
        forall|s: Seq<char>|
            #[trigger] reaches(final(states)@, r.start as int, s, MAX_SIZE + 1) == exists|k: int|
                0 <= k <= s.len() && in_language(*input, s.take(k)) && star_language(*input, s.skip(k)),
        // The grammar's own fragment, as it was expanded into `mid`, fills
        // `[c0, b)` with its dangling arrows pointed back at the split at `b`,
        // which enters it or leaves the fragment.
        exists|mid: Seq<Option<Nfa>>, body: Fragment<MAX_SIZE>|
            #![trigger fragment_ok(mid, body, c0, c0 + states_needed(*input))]
            {
                let b = c0 + states_needed(*input);
                &&& mid.len() == MAX_SIZE
                &&& fragment_ok(mid, body, c0, b)
                &&& accepts_as(mid, body.start as int, MAX_SIZE + 1, *input)
                &&& final(states)@[b] == Some(Nfa::Split { left: body.start, right: (MAX_SIZE + 1) as usize })
                &&& forall|j: int|
                    0 <= j < MAX_SIZE && j != b ==> #[trigger] final(states)@[j] == if listed(body.out_arrows@, j) {
                        Some(patched(mid[j]->0, b as usize, MAX_SIZE))
                    } else {
                        mid[j]
                    }
                &&& r.start == body.start
                &&& r.out_arrows@ == seq![b as usize]
                &&& leaf_state(*input, (MAX_SIZE + 1) as usize) is Some ==> {
                    &&& mid[c0] == leaf_state(*input, (MAX_SIZE + 1) as usize)
                    &&& body.start == c0
                    &&& body.out_arrows@ == seq![c0 as usize]
                }
            },
    decreases input, 1nat,
{
    let grammar_frag = expand_grammar(input, states, Ghost(c0));
    let ghost b = c0 + states_needed(*input);
    let ghost p1 = states@;

    assert(states@[b] is None);
    let split = next_slot(states);

    states[split] = Some(Nfa::Split { left: grammar_frag.start, right: dangling::<MAX_SIZE>() });
    let ghost p2 = states@;

    let mut out: ConstList<usize, MAX_SIZE> = ConstList::new();

    out.push_back(split);

    let split_frag = Fragment { start: split, out_arrows: out };

    proof {
        assert(split == b);
        lemma_fragment_frame(p1, p2, grammar_frag, c0, b);
    }
    let r = patch(grammar_frag, split_frag, states);
    proof {
        let d = MAX_SIZE + 1;
        let st = grammar_frag.start as int;
        lemma_patch_effect(p2, states@, grammar_frag, c0, b, split);
        assert(out@ =~= seq![split]);
        lemma_loop_fragment(p2, states@, grammar_frag, c0, b, grammar_frag.start, out);
        assert(listed(grammar_frag.out_arrows@, b) ==> false) by {
            if listed(grammar_frag.out_arrows@, b) {
                let k = choose|k: int| 0 <= k < grammar_frag.out_arrows@.len() && #[trigger] grammar_frag.out_arrows@[k] as int == b;
            }
        }
        assert(fragment_ok(p1, grammar_frag, c0, b));
        assert forall|s: Seq<char>| #[trigger] reaches(states@, st, s, d) == exists|k: int|
            0 <= k <= s.len() && in_language(*input, s.take(k)) && star_language(*input, s.skip(k)) by {
            lemma_patch_reaches(p2, states@, c0, b, d, split, st, s, d);
            if reaches(states@, st, s, d) {
                let k = choose|k: int|
                    0 <= k <= s.len() && #[trigger] reaches(p2, st, s.take(k), d) && reaches(states@, split as int, s.skip(k), d);
                lemma_star(p2, states@, c0, b, d, st, *input, s.skip(k));
                assert(in_language(*input, s.take(k)));
            }
            if exists|k: int| 0 <= k <= s.len() && in_language(*input, s.take(k)) && star_language(*input, s.skip(k)) {
                let k = choose|k: int| 0 <= k <= s.len() && in_language(*input, s.take(k)) && star_language(*input, s.skip(k));
                lemma_star(p2, states@, c0, b, d, st, *input, s.skip(k));
                assert(reaches(p2, st, s.take(k), d));
            }
        }
    }
    r
}

} // verus!
