//! What a table of states accepts, and the facts about runs through it that
//! the construction and the simulation rest on.
use vstd::prelude::*;

use crate::description::{any_language, concat_language, in_language, star_language, Grammar};
use crate::regular::Nfa;

verus! {

/// The state reached from `n` by consuming `c`, if `n` consumes `c`.
pub open spec fn step_target(n: Nfa, c: char) -> Option<int> {
    match n {
        Nfa::Wild { out } => Some(out as int),
        Nfa::Literal { value, out } => if c == value {
            Some(out as int)
        } else {
            None
        },
        Nfa::Range { start, end, out } => if start <= c && c <= end {
            Some(out as int)
        } else {
            None
        },
        _ => None,
    }
}

/// `x` is a state of `p` that is a split.
pub open spec fn is_split(p: Seq<Option<Nfa>>, x: int) -> bool {
    0 <= x < p.len() && p[x] is Some && p[x]->0 is Split
}

/// `x` is a state of `p` that is not a split: one that consumes a
/// character, or the match state. These are the states a list of live
/// states holds.
pub open spec fn settled(p: Seq<Option<Nfa>>, x: int) -> bool {
    0 <= x < p.len() && p[x] is Some && !(p[x]->0 is Split)
}

/// There is a path through `p` from `x` to `y` that consumes exactly `s`,
/// following at most `fuel` splits.
pub open spec fn run(p: Seq<Option<Nfa>>, x: int, s: Seq<char>, y: int, fuel: nat) -> bool
    decreases s.len(), fuel,
{
    if x == y && s.len() == 0 {
        true
    } else if 0 <= x < p.len() && p[x] is Some {
        match p[x]->0 {
            Nfa::Split { left, right } => fuel > 0 && (run(p, left as int, s, y, (fuel - 1) as nat)
                || run(p, right as int, s, y, (fuel - 1) as nat)),
            n => s.len() > 0 && match step_target(n, s[0]) {
                Some(z) => run(p, z, s.drop_first(), y, fuel),
                None => false,
            },
        }
    } else {
        false
    }
}

/// There is a path through `p` from `x` to `y` that consumes exactly `s`.
pub open spec fn reaches(p: Seq<Option<Nfa>>, x: int, s: Seq<char>, y: int) -> bool {
    exists|f: nat| run(p, x, s, y, f)
}

/// There is a path of splits from `x` to `t`, of at most `fuel` steps, that
/// enters no split marked in `marks`.
pub open spec fn eps(p: Seq<Option<Nfa>>, x: int, t: int, marks: Seq<bool>, fuel: nat) -> bool
    decreases fuel,
{
    if x == t {
        true
    } else if fuel > 0 && is_split(p, x) && !marks[x] {
        match p[x]->0 {
            Nfa::Split { left, right } => eps(p, left as int, t, marks, (fuel - 1) as nat) || eps(
                p,
                right as int,
                t,
                marks,
                (fuel - 1) as nat,
            ),
            _ => false,
        }
    } else {
        false
    }
}

/// There is a path of splits from `x` to `t` that enters no marked split.
pub open spec fn closes(p: Seq<Option<Nfa>>, x: int, t: int, marks: Seq<bool>) -> bool {
    exists|f: nat| eps(p, x, t, marks, f)
}

/// The left arm of the split at `x`.
pub open spec fn left_of(p: Seq<Option<Nfa>>, x: int) -> int {
    match p[x]->0 {
        Nfa::Split { left, .. } => left as int,
        _ => x,
    }
}

/// The right arm of the split at `x`.
pub open spec fn right_of(p: Seq<Option<Nfa>>, x: int) -> int {
    match p[x]->0 {
        Nfa::Split { right, .. } => right as int,
        _ => x,
    }
}

/// The number of entries of `s` that are `false`.
pub open spec fn count_false(s: Seq<bool>) -> nat
    decreases s.len(),
{
    if s.len() == 0 {
        0
    } else {
        count_false(s.drop_last()) + if s.last() {
            0nat
        } else {
            1nat
        }
    }
}

pub proof fn lemma_count_false_update(s: Seq<bool>, i: int, v: bool)
    requires
        0 <= i < s.len(),
    ensures
        count_false(s.update(i, v)) + (if s[i] { 0int } else { 1int }) == count_false(s) + (if v {
            0int
        } else {
            1int
        }),
    decreases s.len(),
{
    if i == s.len() - 1 {
        assert(s.update(i, v).drop_last() =~= s.drop_last());
    } else {
        lemma_count_false_update(s.drop_last(), i, v);
        assert(s.update(i, v).drop_last() =~= s.drop_last().update(i, v));
    }
}

pub proof fn lemma_run_mono(p: Seq<Option<Nfa>>, x: int, s: Seq<char>, y: int, f1: nat, f2: nat)
    requires
        run(p, x, s, y, f1),
        f1 <= f2,
    ensures
        run(p, x, s, y, f2),
    decreases s.len(), f1,
{
    if x == y && s.len() == 0 {
    } else {
        match p[x]->0 {
            Nfa::Split { left, right } => {
                if run(p, left as int, s, y, (f1 - 1) as nat) {
                    lemma_run_mono(p, left as int, s, y, (f1 - 1) as nat, (f2 - 1) as nat);
                } else {
                    lemma_run_mono(p, right as int, s, y, (f1 - 1) as nat, (f2 - 1) as nat);
                }
            },
            n => {
                let z = step_target(n, s[0])->0;
                lemma_run_mono(p, z, s.drop_first(), y, f1, f2);
            },
        }
    }
}

pub proof fn lemma_eps_mono(p: Seq<Option<Nfa>>, x: int, t: int, m: Seq<bool>, f1: nat, f2: nat)
    requires
        eps(p, x, t, m, f1),
        f1 <= f2,
    ensures
        eps(p, x, t, m, f2),
    decreases f1,
{
    if x != t {
        let l = left_of(p, x);
        let r = right_of(p, x);
        if eps(p, l, t, m, (f1 - 1) as nat) {
            lemma_eps_mono(p, l, t, m, (f1 - 1) as nat, (f2 - 1) as nat);
        } else {
            lemma_eps_mono(p, r, t, m, (f1 - 1) as nat, (f2 - 1) as nat);
        }
    }
}

/// Marks matter only on splits, and marking more splits only removes paths.
pub proof fn lemma_eps_fewer_marks(
    p: Seq<Option<Nfa>>,
    x: int,
    t: int,
    m1: Seq<bool>,
    m2: Seq<bool>,
    f: nat,
)
    requires
        eps(p, x, t, m2, f),
        forall|i: int| is_split(p, i) && #[trigger] m1[i] ==> m2[i],
    ensures
        eps(p, x, t, m1, f),
    decreases f,
{
    if x != t {
        let l = left_of(p, x);
        let r = right_of(p, x);
        if eps(p, l, t, m2, (f - 1) as nat) {
            lemma_eps_fewer_marks(p, l, t, m1, m2, (f - 1) as nat);
        } else {
            lemma_eps_fewer_marks(p, r, t, m1, m2, (f - 1) as nat);
        }
    }
}

/// With no split marked, a path of splits is a run that consumes nothing.
pub proof fn lemma_run_empty_is_eps(p: Seq<Option<Nfa>>, x: int, t: int, m: Seq<bool>, f: nat)
    requires
        settled(p, t),
        forall|i: int| is_split(p, i) ==> !#[trigger] m[i],
    ensures
        run(p, x, Seq::empty(), t, f) == eps(p, x, t, m, f),
    decreases f,
{
    if x != t && 0 <= x < p.len() && p[x] is Some && f > 0 {
        match p[x]->0 {
            Nfa::Split { left, right } => {
                lemma_run_empty_is_eps(p, left as int, t, m, (f - 1) as nat);
                lemma_run_empty_is_eps(p, right as int, t, m, (f - 1) as nat);
            },
            _ => {},
        }
    }
}

/// A path that may pass through the unmarked split `x` either avoids it, or
/// has a tail that leaves `x` by one of its arms and never comes back.
proof fn lemma_eps_cut(p: Seq<Option<Nfa>>, y: int, t: int, m: Seq<bool>, x: int, f: nat)
    requires
        eps(p, y, t, m, f),
        is_split(p, x),
        !m[x],
        t != x,
        m.len() == p.len(),
    ensures
        eps(p, y, t, m.update(x, true), f) || eps(p, left_of(p, x), t, m.update(x, true), f) || eps(
            p,
            right_of(p, x),
            t,
            m.update(x, true),
            f,
        ),
    decreases f,
{
    let m2 = m.update(x, true);
    if y != t {
        let l = left_of(p, y);
        let r = right_of(p, y);
        let a = if eps(p, l, t, m, (f - 1) as nat) {
            l
        } else {
            r
        };
        lemma_eps_cut(p, a, t, m, x, (f - 1) as nat);
        if eps(p, a, t, m2, (f - 1) as nat) {
            if y == x {
                lemma_eps_mono(p, a, t, m2, (f - 1) as nat, f);
            } else {
                assert(!m2[y]);
            }
        } else if eps(p, left_of(p, x), t, m2, (f - 1) as nat) {
            lemma_eps_mono(p, left_of(p, x), t, m2, (f - 1) as nat, f);
        } else {
            lemma_eps_mono(p, right_of(p, x), t, m2, (f - 1) as nat, f);
        }
    }
}

/// Following the unmarked split `x` while `x` is marked loses no state that
/// a path from `x` reaches, and finds no other.
pub proof fn lemma_eps_split(p: Seq<Option<Nfa>>, x: int, t: int, m: Seq<bool>)
    requires
        is_split(p, x),
        !m[x],
        t != x,
        m.len() == p.len(),
    ensures
        closes(p, x, t, m) == (closes(p, left_of(p, x), t, m.update(x, true)) || closes(
            p,
            right_of(p, x),
            t,
            m.update(x, true),
        )),
{
    let m2 = m.update(x, true);
    assert forall|i: int| is_split(p, i) && #[trigger] m[i] implies m2[i] by {}
    if closes(p, x, t, m) {
        let f = choose|f: nat| eps(p, x, t, m, f);
        let l = left_of(p, x);
        let r = right_of(p, x);
        let a = if eps(p, l, t, m, (f - 1) as nat) {
            l
        } else {
            r
        };
        lemma_eps_cut(p, a, t, m, x, (f - 1) as nat);
        if eps(p, a, t, m2, (f - 1) as nat) {
        } else if eps(p, l, t, m2, (f - 1) as nat) {
        } else {
            assert(eps(p, r, t, m2, (f - 1) as nat));
        }
    }
    if closes(p, left_of(p, x), t, m2) {
        let f = choose|f: nat| eps(p, left_of(p, x), t, m2, f);
        lemma_eps_fewer_marks(p, left_of(p, x), t, m, m2, f);
        assert(eps(p, x, t, m, f + 1));
    }
    if closes(p, right_of(p, x), t, m2) {
        let f = choose|f: nat| eps(p, right_of(p, x), t, m2, f);
        lemma_eps_fewer_marks(p, right_of(p, x), t, m, m2, f);
        assert(eps(p, x, t, m, f + 1));
    }
}

/// A run that ends in a settled state, after consuming `w` and then `c`,
/// passes a settled state that consumes `c` right after consuming `w`.
pub proof fn lemma_run_last(p: Seq<Option<Nfa>>, x: int, w: Seq<char>, c: char, u: int, f: nat) -> (r: (
    int,
    int,
))
    requires
        run(p, x, w.push(c), u, f),
    ensures
        settled(p, r.0),
        run(p, x, w, r.0, f),
        step_target(p[r.0]->0, c) == Some(r.1),
        run(p, r.1, Seq::empty(), u, f),
    decreases w.len(), f,
{
    let s = w.push(c);
    match p[x]->0 {
        Nfa::Split { left, right } => {
            let a = if run(p, left as int, s, u, (f - 1) as nat) {
                left as int
            } else {
                right as int
            };
            let r = lemma_run_last(p, a, w, c, u, (f - 1) as nat);
            lemma_run_mono(p, r.1, Seq::empty(), u, (f - 1) as nat, f);
            r
        },
        n => {
            let z = step_target(n, s[0])->0;
            if w.len() == 0 {
                assert(s.drop_first() =~= Seq::<char>::empty());
                (x, z)
            } else {
                assert(s.drop_first() =~= w.drop_first().push(c));
                lemma_run_last(p, z, w.drop_first(), c, u, f)
            }
        },
    }
}

/// The converse of `lemma_run_last`.
pub proof fn lemma_run_join_last(
    p: Seq<Option<Nfa>>,
    x: int,
    w: Seq<char>,
    t: int,
    c: char,
    z: int,
    u: int,
    f1: nat,
    f2: nat,
)
    requires
        run(p, x, w, t, f1),
        settled(p, t),
        step_target(p[t]->0, c) == Some(z),
        run(p, z, Seq::empty(), u, f2),
    ensures
        run(p, x, w.push(c), u, f1 + f2),
    decreases w.len(), f1,
{
    let s = w.push(c);
    if x == t && w.len() == 0 {
        assert(s.drop_first() =~= Seq::<char>::empty());
        lemma_run_mono(p, z, Seq::empty(), u, f2, f1 + f2);
    } else {
        match p[x]->0 {
            Nfa::Split { left, right } => {
                if run(p, left as int, w, t, (f1 - 1) as nat) {
                    lemma_run_join_last(p, left as int, w, t, c, z, u, (f1 - 1) as nat, f2);
                } else {
                    lemma_run_join_last(p, right as int, w, t, c, z, u, (f1 - 1) as nat, f2);
                }
            },
            n => {
                let z0 = step_target(n, w[0])->0;
                assert(s.drop_first() =~= w.drop_first().push(c));
                lemma_run_join_last(p, z0, w.drop_first(), t, c, z, u, f1, f2);
            },
        }
    }
}

/// A run that consumes more than `k` characters is in a settled state right
/// after consuming the first `k`.
pub proof fn lemma_run_prefix(p: Seq<Option<Nfa>>, x: int, s: Seq<char>, y: int, f: nat, k: int) -> (t:
    int)
    requires
        run(p, x, s, y, f),
        0 <= k < s.len(),
    ensures
        settled(p, t),
        run(p, x, s.take(k), t, f),
    decreases s.len(), f,
{
    match p[x]->0 {
        Nfa::Split { left, right } => {
            let a = if run(p, left as int, s, y, (f - 1) as nat) {
                left as int
            } else {
                right as int
            };
            lemma_run_prefix(p, a, s, y, (f - 1) as nat, k)
        },
        n => {
            if k == 0 {
                x
            } else {
                let z = step_target(n, s[0])->0;
                let t = lemma_run_prefix(p, z, s.drop_first(), y, f, k - 1);
                assert(s.take(k).drop_first() =~= s.drop_first().take(k - 1));
                t
            }
        },
    }
}


/// Every settled state that a marked split of `p` reaches through splits
/// is marked in `n` too: the splits marked so far have been followed to
/// the end.
pub open spec fn saturated(p: Seq<Option<Nfa>>, n: Seq<bool>) -> bool {
    forall|y: int, t: int|
        #![trigger closes(p, y, t, no_marks(p.len()))]
        is_split(p, y) && n[y] && settled(p, t) && closes(p, y, t, no_marks(p.len())) ==> n[t]
}

/// A path of splits to `z` followed by one from `z` to `t` is a path of
/// splits from the first to `t`.
pub proof fn lemma_eps_concat(p: Seq<Option<Nfa>>, a: int, z: int, t: int, m: Seq<bool>, f1: nat, f2: nat)
    requires
        eps(p, a, z, m, f1),
        eps(p, z, t, m, f2),
    ensures
        eps(p, a, t, m, f1 + f2),
    decreases f1,
{
    if a == z {
        lemma_eps_mono(p, z, t, m, f2, f1 + f2);
    } else if a != t {
        let l = left_of(p, a);
        let r = right_of(p, a);
        if eps(p, l, z, m, (f1 - 1) as nat) {
            lemma_eps_concat(p, l, z, t, m, (f1 - 1) as nat, f2);
        } else {
            lemma_eps_concat(p, r, z, t, m, (f1 - 1) as nat, f2);
        }
    }
}

/// A path of splits that avoids the splits marked in `m1` but not those
/// marked in `m2` enters a split `z` marked in `m2` and not in `m1`: it
/// reaches `z` and goes on from `z`, avoiding what `m1` marks.
pub proof fn lemma_eps_first_mark(p: Seq<Option<Nfa>>, x: int, t: int, m1: Seq<bool>, m2: Seq<bool>, f: nat) -> (z: int)
    requires
        eps(p, x, t, m1, f),
        !eps(p, x, t, m2, f),
    ensures
        is_split(p, z),
        m2[z],
        !m1[z],
        eps(p, x, z, m1, f),
        eps(p, z, t, m1, f),
    decreases f,
{
    if m2[x] {
        x
    } else {
        let l = left_of(p, x);
        let r = right_of(p, x);
        let a = if eps(p, l, t, m1, (f - 1) as nat) {
            l
        } else {
            r
        };
        let z = lemma_eps_first_mark(p, a, t, m1, m2, (f - 1) as nat);
        assert(eps(p, x, z, m1, f));
        lemma_eps_mono(p, z, t, m1, (f - 1) as nat, f);
        z
    }
}

/// No split marked.
pub open spec fn no_marks(n: nat) -> Seq<bool> {
    Seq::new(n, |i: int| false)
}

/// From the settled state `t`, consuming `c` leads to a state from which `u`
/// is reached without consuming anything more.
pub open spec fn feeds(p: Seq<Option<Nfa>>, t: int, c: char, u: int) -> bool {
    match step_target(p[t]->0, c) {
        Some(z) => reaches(p, z, Seq::empty(), u),
        None => false,
    }
}

/// With no split marked, the states a path of splits reaches are those a
/// run reaches without consuming a character.
pub proof fn lemma_closes_is_reach(p: Seq<Option<Nfa>>, x: int, t: int, m: Seq<bool>)
    requires
        settled(p, t),
        forall|i: int| is_split(p, i) ==> !#[trigger] m[i],
    ensures
        closes(p, x, t, m) == reaches(p, x, Seq::empty(), t),
{
    if closes(p, x, t, m) {
        let f = choose|f: nat| eps(p, x, t, m, f);
        lemma_run_empty_is_eps(p, x, t, m, f);
    }
    if reaches(p, x, Seq::empty(), t) {
        let f = choose|f: nat| run(p, x, Seq::empty(), t, f);
        lemma_run_empty_is_eps(p, x, t, m, f);
    }
}

/// The settled states reached after consuming one more character are those
/// fed by the settled states reached before it.
pub proof fn lemma_active_step(p: Seq<Option<Nfa>>, x: int, w: Seq<char>, c: char, u: int)
    requires
        settled(p, u),
    ensures
        reaches(p, x, w.push(c), u) <==> exists|t: int|
            settled(p, t) && reaches(p, x, w, t) && #[trigger] feeds(p, t, c, u),
{
    if reaches(p, x, w.push(c), u) {
        let f = choose|f: nat| run(p, x, w.push(c), u, f);
        let r = lemma_run_last(p, x, w, c, u, f);
        assert(reaches(p, x, w, r.0));
        assert(reaches(p, r.1, Seq::empty(), u));
        assert(feeds(p, r.0, c, u));
    }
    if exists|t: int| settled(p, t) && reaches(p, x, w, t) && #[trigger] feeds(p, t, c, u) {
        let t = choose|t: int| settled(p, t) && reaches(p, x, w, t) && #[trigger] feeds(p, t, c, u);
        let f1 = choose|f: nat| run(p, x, w, t, f);
        let z = step_target(p[t]->0, c)->0;
        let f2 = choose|f: nat| run(p, z, Seq::empty(), u, f);
        lemma_run_join_last(p, x, w, t, c, z, u, f1, f2);
    }
}

/// No run gets past a prefix after which no state is live.
pub proof fn lemma_dead_prefix(p: Seq<Option<Nfa>>, x: int, s: Seq<char>, y: int, k: int)
    requires
        0 <= k < s.len(),
        forall|t: int| settled(p, t) ==> !#[trigger] reaches(p, x, s.take(k), t),
    ensures
        !reaches(p, x, s, y),
{
    if reaches(p, x, s, y) {
        let f = choose|f: nat| run(p, x, s, y, f);
        let t = lemma_run_prefix(p, x, s, y, f, k);
        assert(reaches(p, x, s.take(k), t));
    }
}


/// `a` lies in `[lo, hi)` or is `d`.
pub open spec fn within(a: int, lo: int, hi: int, d: int) -> bool {
    (lo <= a && a < hi) || a == d
}

/// Every arrow leaving `n` points into `[lo, hi)` or at `d`.
pub open spec fn arrows_within(n: Nfa, lo: int, hi: int, d: int) -> bool {
    match n {
        Nfa::Wild { out } => within(out as int, lo, hi, d),
        Nfa::Literal { out, .. } => within(out as int, lo, hi, d),
        Nfa::Range { out, .. } => within(out as int, lo, hi, d),
        Nfa::Split { left, right } => within(left as int, lo, hi, d) && within(right as int, lo, hi, d),
        Nfa::Match => true,
    }
}

/// Some arrow leaving `n` points at `d`.
pub open spec fn has_arrow_to(n: Nfa, d: int) -> bool {
    match n {
        Nfa::Wild { out } => out == d,
        Nfa::Literal { out, .. } => out == d,
        Nfa::Range { out, .. } => out == d,
        Nfa::Split { left, right } => left == d || right == d,
        Nfa::Match => false,
    }
}

/// `n` with every arrow that points at `d` pointed at `t` instead.
pub open spec fn retarget(n: Nfa, d: int, t: usize) -> Nfa {
    match n {
        Nfa::Wild { out } => Nfa::Wild { out: if out == d { t } else { out } },
        Nfa::Literal { value, out } => Nfa::Literal { value, out: if out == d { t } else { out } },
        Nfa::Range { start, end, out } => Nfa::Range { start, end, out: if out == d { t } else { out } },
        Nfa::Split { left, right } => Nfa::Split {
            left: if left == d { t } else { left },
            right: if right == d { t } else { right },
        },
        Nfa::Match => Nfa::Match,
    }
}

/// The states `[a, b)` of `p` are present, none of them is the match
/// state, and their arrows stay inside `[a, b)` or point at `d`.
pub open spec fn closed(p: Seq<Option<Nfa>>, a: int, b: int, d: int) -> bool {
    &&& 0 <= a <= b <= p.len()
    &&& p.len() <= d
    &&& forall|i: int|
        #![trigger p[i]]
        a <= i < b ==> p[i] is Some && !(p[i]->0 is Match) && arrows_within(p[i]->0, a, b, d)
}

/// A run that starts outside the table only ends where it starts.
pub proof fn lemma_run_outside(p: Seq<Option<Nfa>>, x: int, s: Seq<char>, y: int, f: nat)
    requires
        run(p, x, s, y, f),
        !(0 <= x < p.len()),
    ensures
        x == y,
        s.len() == 0,
{
}

/// A run that starts inside a closed block only reads that block.
pub proof fn lemma_frame(
    p: Seq<Option<Nfa>>,
    q: Seq<Option<Nfa>>,
    a: int,
    b: int,
    d: int,
    x: int,
    s: Seq<char>,
    y: int,
    f: nat,
)
    requires
        closed(p, a, b, d),
        p.len() == q.len(),
        forall|i: int| a <= i < b ==> #[trigger] q[i] == p[i],
        within(x, a, b, d),
    ensures
        run(p, x, s, y, f) == run(q, x, s, y, f),
    decreases s.len(), f,
{
    if x == y && s.len() == 0 {
    } else if x == d {
    } else {
        assert(q[x] == p[x]);
        match p[x]->0 {
            Nfa::Split { left, right } => {
                if f > 0 {
                    lemma_frame(p, q, a, b, d, left as int, s, y, (f - 1) as nat);
                    lemma_frame(p, q, a, b, d, right as int, s, y, (f - 1) as nat);
                }
            },
            n => {
                if s.len() > 0 {
                    match step_target(n, s[0]) {
                        Some(z) => {
                            lemma_frame(p, q, a, b, d, z, s.drop_first(), y, f);
                        },
                        None => {},
                    }
                }
            },
        }
    }
}

/// The block `[a, b)` of `q` is that of `p` with its dangling arrows pointed
/// at `t`.
pub open spec fn patched_block(p: Seq<Option<Nfa>>, q: Seq<Option<Nfa>>, a: int, b: int, d: int, t: usize) -> bool {
    &&& closed(p, a, b, d)
    &&& p.len() == q.len()
    &&& forall|i: int| a <= i < b ==> #[trigger] q[i] == Some(retarget(p[i]->0, d, t))
    &&& !(a <= t < b)
    &&& t != d
}

/// A run from the patched block first runs through the block as it was, to
/// a dangling arrow, and then on from `t`.
pub proof fn lemma_patch_split(
    p: Seq<Option<Nfa>>,
    q: Seq<Option<Nfa>>,
    a: int,
    b: int,
    d: int,
    t: usize,
    x: int,
    s: Seq<char>,
    y: int,
    f: nat,
) -> (r: (int, nat))
    requires
        patched_block(p, q, a, b, d, t),
        !(a <= y < b),
        a <= x < b,
        run(q, x, s, y, f),
    ensures
        0 <= r.0 <= s.len(),
        run(p, x, s.take(r.0), d, r.1),
        run(q, t as int, s.skip(r.0), y, f),
    decreases s.len(), f,
{
    assert(q[x] == Some(retarget(p[x]->0, d, t)));
    match p[x]->0 {
        Nfa::Split { left, right } => {
            let lq = if left == d { t as int } else { left as int };
            let rq = if right == d { t as int } else { right as int };
            let (ap, aq) = if run(q, lq, s, y, (f - 1) as nat) {
                (left as int, lq)
            } else {
                (right as int, rq)
            };
            if ap == d {
                lemma_run_mono(q, t as int, s, y, (f - 1) as nat, f);
                assert(s.take(0) =~= Seq::<char>::empty());
                assert(s.skip(0) =~= s);
                assert(run(p, d, s.take(0), d, 0));
                (0, 1)
            } else {
                let r = lemma_patch_split(p, q, a, b, d, t, ap, s, y, (f - 1) as nat);
                lemma_run_mono(q, t as int, s.skip(r.0), y, (f - 1) as nat, f);
                (r.0, r.1 + 1)
            }
        },
        n => {
            let zp = step_target(n, s[0])->0;
            if zp == d {
                assert(s.take(1).drop_first() =~= Seq::<char>::empty());
                assert(s.skip(1) =~= s.drop_first());
                assert(run(p, d, s.take(1).drop_first(), d, 0));
                (1, 0)
            } else {
                let r = lemma_patch_split(p, q, a, b, d, t, zp, s.drop_first(), y, f);
                assert(s.take(r.0 + 1).drop_first() =~= s.drop_first().take(r.0));
                assert(s.drop_first().skip(r.0) =~= s.skip(r.0 + 1));
                (r.0 + 1, r.1)
            }
        },
    }
}

/// The converse of `lemma_patch_split`.
pub proof fn lemma_patch_join(
    p: Seq<Option<Nfa>>,
    q: Seq<Option<Nfa>>,
    a: int,
    b: int,
    d: int,
    t: usize,
    x: int,
    s1: Seq<char>,
    s2: Seq<char>,
    y: int,
    f1: nat,
    f2: nat,
)
    requires
        patched_block(p, q, a, b, d, t),
        !(a <= y < b),
        a <= x < b,
        run(p, x, s1, d, f1),
        run(q, t as int, s2, y, f2),
    ensures
        run(q, x, s1 + s2, y, f1 + f2),
    decreases s1.len(), f1,
{
    assert(q[x] == Some(retarget(p[x]->0, d, t)));
    match p[x]->0 {
        Nfa::Split { left, right } => {
            let ap = if run(p, left as int, s1, d, (f1 - 1) as nat) {
                left as int
            } else {
                right as int
            };
            if ap == d {
                lemma_run_outside(p, d, s1, d, (f1 - 1) as nat);
                assert(s1 + s2 =~= s2);
                lemma_run_mono(q, t as int, s2, y, f2, (f1 - 1 + f2) as nat);
            } else {
                lemma_patch_join(p, q, a, b, d, t, ap, s1, s2, y, (f1 - 1) as nat, f2);
            }
        },
        n => {
            let zp = step_target(n, s1[0])->0;
            assert((s1 + s2)[0] == s1[0]);
            if zp == d {
                lemma_run_outside(p, d, s1.drop_first(), d, f1);
                assert((s1 + s2).drop_first() =~= s2);
                lemma_run_mono(q, t as int, s2, y, f2, f1 + f2);
            } else {
                lemma_patch_join(p, q, a, b, d, t, zp, s1.drop_first(), s2, y, f1, f2);
                assert((s1 + s2).drop_first() =~= s1.drop_first() + s2);
            }
        },
    }
}

/// What the patched block accepts, through `t`.
pub proof fn lemma_patch_reaches(
    p: Seq<Option<Nfa>>,
    q: Seq<Option<Nfa>>,
    a: int,
    b: int,
    d: int,
    t: usize,
    x: int,
    s: Seq<char>,
    y: int,
)
    requires
        patched_block(p, q, a, b, d, t),
        !(a <= y < b),
        a <= x < b,
    ensures
        reaches(q, x, s, y) == exists|k: int|
            0 <= k <= s.len() && #[trigger] reaches(p, x, s.take(k), d) && reaches(q, t as int, s.skip(k), y),
{
    if reaches(q, x, s, y) {
        let f = choose|f: nat| run(q, x, s, y, f);
        let r = lemma_patch_split(p, q, a, b, d, t, x, s, y, f);
        assert(reaches(p, x, s.take(r.0), d));
        assert(reaches(q, t as int, s.skip(r.0), y));
    }
    if exists|k: int|
        0 <= k <= s.len() && #[trigger] reaches(p, x, s.take(k), d) && reaches(q, t as int, s.skip(k), y) {
        let k = choose|k: int|
            0 <= k <= s.len() && #[trigger] reaches(p, x, s.take(k), d) && reaches(q, t as int, s.skip(k), y);
        let f1 = choose|f: nat| run(p, x, s.take(k), d, f);
        let f2 = choose|f: nat| run(q, t as int, s.skip(k), y, f);
        lemma_patch_join(p, q, a, b, d, t, x, s.take(k), s.skip(k), y, f1, f2);
        assert(s.take(k) + s.skip(k) =~= s);
    }
}


/// `g` is accepted from `x`: a string is matched by `g` exactly when a run
/// from `x` consumes it and leaves by a dangling arrow.
pub open spec fn accepts_as(p: Seq<Option<Nfa>>, x: int, d: int, g: Grammar) -> bool {
    forall|s: Seq<char>|
        #![trigger in_language(g, s)]
        #![trigger reaches(p, x, s, d)]
        in_language(g, s) == reaches(p, x, s, d)
}

/// A split reaches what either of its arms reaches.
pub proof fn lemma_split_reaches(p: Seq<Option<Nfa>>, x: int, s: Seq<char>, y: int)
    requires
        0 <= x < p.len(),
        p[x] is Some,
        p[x]->0 is Split,
        x != y,
    ensures
        reaches(p, x, s, y) == (reaches(p, left_of(p, x), s, y) || reaches(p, right_of(p, x), s, y)),
{
    if reaches(p, x, s, y) {
        let f = choose|f: nat| run(p, x, s, y, f);
        assert(run(p, left_of(p, x), s, y, (f - 1) as nat) || run(p, right_of(p, x), s, y, (f - 1) as nat));
    }
    if reaches(p, left_of(p, x), s, y) {
        let f = choose|f: nat| run(p, left_of(p, x), s, y, f);
        assert(run(p, x, s, y, f + 1));
    }
    if reaches(p, right_of(p, x), s, y) {
        let f = choose|f: nat| run(p, right_of(p, x), s, y, f);
        assert(run(p, x, s, y, f + 1));
    }
}

/// A run from a state outside the table reaches only that state, by
/// consuming nothing.
pub proof fn lemma_reaches_outside(p: Seq<Option<Nfa>>, x: int, s: Seq<char>)
    requires
        !(0 <= x < p.len()),
    ensures
        reaches(p, x, s, x) == (s.len() == 0),
{
    if s.len() == 0 {
        assert(run(p, x, s, x, 0));
    } else if reaches(p, x, s, x) {
        let f = choose|f: nat| run(p, x, s, x, f);
        lemma_run_outside(p, x, s, x, f);
    }
}

/// The loop that `*` builds: a split at `b` whose left arm enters the body
/// and whose right arm dangles, with the body's dangling arrows pointed back
/// at the split.
pub proof fn lemma_star(
    p: Seq<Option<Nfa>>,
    q: Seq<Option<Nfa>>,
    a: int,
    b: int,
    d: int,
    st: int,
    g: Grammar,
    s: Seq<char>,
)
    requires
        patched_block(p, q, a, b, d, b as usize),
        b < q.len(),
        d <= usize::MAX,
        a <= st < b,
        q[b] == Some(Nfa::Split { left: st as usize, right: d as usize }),
        accepts_as(p, st, d, g),
    ensures
        reaches(q, b, s, d) == star_language(g, s),
    decreases s.len(),
{
    lemma_split_reaches(q, b, s, d);
    lemma_reaches_outside(q, d, s);
    if s.len() > 0 {
        lemma_patch_reaches(p, q, a, b, d, b as usize, st, s, d);
        if reaches(q, b, s, d) {
            assert(reaches(q, st, s, d));
            let f = choose|f: nat| run(q, b, s, d, f);
            lemma_star_sound(p, q, a, b, d, st, g, s, f);
        }
        if star_language(g, s) {
            let k = choose|k: int| 1 <= k <= s.len() && in_language(g, s.take(k)) && star_language(g, s.skip(k));
            lemma_star(p, q, a, b, d, st, g, s.skip(k));
            assert(reaches(p, st, s.take(k), d));
            assert(reaches(q, st, s, d));
        }
    }
}

/// The direction of `lemma_star` from runs to the grammar, by induction on
/// the run.
proof fn lemma_star_sound(
    p: Seq<Option<Nfa>>,
    q: Seq<Option<Nfa>>,
    a: int,
    b: int,
    d: int,
    st: int,
    g: Grammar,
    s: Seq<char>,
    f: nat,
)
    requires
        patched_block(p, q, a, b, d, b as usize),
        b < q.len(),
        d <= usize::MAX,
        a <= st < b,
        q[b] == Some(Nfa::Split { left: st as usize, right: d as usize }),
        accepts_as(p, st, d, g),
        run(q, b, s, d, f),
    ensures
        star_language(g, s),
    decreases s.len(), f,
{
    if s.len() > 0 {
        if run(q, d, s, d, (f - 1) as nat) {
            lemma_run_outside(q, d, s, d, (f - 1) as nat);
        }
        assert(run(q, st, s, d, (f - 1) as nat));
        let r = lemma_patch_split(p, q, a, b, d, b as usize, st, s, d, (f - 1) as nat);
        assert(reaches(p, st, s.take(r.0), d));
        if r.0 == 0 {
            assert(s.skip(0) =~= s);
            lemma_star_sound(p, q, a, b, d, st, g, s, (f - 1) as nat);
        } else {
            lemma_star_sound(p, q, a, b, d, st, g, s.skip(r.0), (f - 1) as nat);
            assert(in_language(g, s.take(r.0)));
        }
    }
}


/// A state that consumes one character and then follows its arrow to `d`
/// accepts exactly the one-character strings it consumes.
pub proof fn lemma_single(p: Seq<Option<Nfa>>, x: int, d: int, s: Seq<char>)
    requires
        0 <= x < p.len(),
        p.len() <= d,
        p[x] is Some,
        !(p[x]->0 is Split),
        forall|c: char| #[trigger] step_target(p[x]->0, c) is Some ==> step_target(p[x]->0, c) == Some(d),
    ensures
        reaches(p, x, s, d) == (s.len() == 1 && step_target(p[x]->0, s[0]) == Some(d)),
{
    if reaches(p, x, s, d) {
        let f = choose|f: nat| run(p, x, s, d, f);
        lemma_run_outside(p, d, s.drop_first(), d, f);
    }
    if s.len() == 1 && step_target(p[x]->0, s[0]) == Some(d) {
        assert(s.drop_first() =~= Seq::<char>::empty());
        assert(run(p, d, s.drop_first(), d, 0));
        assert(run(p, x, s, d, 0));
    }
}


/// States that agree on a closed block reach the same strings from it.
pub proof fn lemma_frame_reaches(
    p: Seq<Option<Nfa>>,
    q: Seq<Option<Nfa>>,
    a: int,
    b: int,
    d: int,
    x: int,
    s: Seq<char>,
    y: int,
)
    requires
        closed(p, a, b, d),
        p.len() == q.len(),
        forall|i: int| a <= i < b ==> #[trigger] q[i] == p[i],
        within(x, a, b, d),
    ensures
        reaches(p, x, s, y) == reaches(q, x, s, y),
{
    if reaches(p, x, s, y) {
        let f = choose|f: nat| run(p, x, s, y, f);
        lemma_frame(p, q, a, b, d, x, s, y, f);
    }
    if reaches(q, x, s, y) {
        let f = choose|f: nat| run(q, x, s, y, f);
        lemma_frame(p, q, a, b, d, x, s, y, f);
    }
}

/// One more grammar joined to the end of a concatenation.
pub proof fn lemma_concat_step(
    p: Seq<Option<Nfa>>,
    q: Seq<Option<Nfa>>,
    a: int,
    b: int,
    c: int,
    d: int,
    x: int,
    t: usize,
    gs: Seq<Grammar>,
    i: int,
)
    requires
        patched_block(p, q, a, b, d, t),
        closed(p, b, c, d),
        forall|j: int| b <= j < c ==> #[trigger] q[j] == p[j],
        a <= x < b,
        b <= t < c,
        0 <= i < gs.len(),
        forall|s: Seq<char>| #[trigger] concat_language(gs.take(i), s) == reaches(p, x, s, d),
        accepts_as(p, t as int, d, gs[i]),
    ensures
        forall|s: Seq<char>| #[trigger] concat_language(gs.take(i + 1), s) == reaches(q, x, s, d),
{
    let g2 = gs.take(i + 1);
    assert(g2.drop_last() =~= gs.take(i));
    assert(g2.last() == gs[i]);
    assert forall|s: Seq<char>| #[trigger] concat_language(gs.take(i + 1), s) == reaches(q, x, s, d) by {
        lemma_patch_reaches(p, q, a, b, d, t, x, s, d);
        if reaches(q, x, s, d) {
            let k = choose|k: int|
                0 <= k <= s.len() && #[trigger] reaches(p, x, s.take(k), d) && reaches(q, t as int, s.skip(k), d);
            lemma_frame_reaches(p, q, b, c, d, t as int, s.skip(k), d);
            assert(concat_language(gs.take(i), s.take(k)));
            assert(in_language(gs[i], s.skip(k)));
        }
        if concat_language(g2, s) {
            let k = choose|k: int|
                0 <= k <= s.len() && concat_language(g2.drop_last(), s.take(k)) && in_language(g2.last(), s.skip(k));
            lemma_frame_reaches(p, q, b, c, d, t as int, s.skip(k), d);
            assert(reaches(p, x, s.take(k), d));
            assert(reaches(q, t as int, s.skip(k), d));
        }
    }
}


/// Distinct indices in `[lo, hi)` number at most `hi - lo`.
pub proof fn lemma_distinct_bound(s: Seq<usize>, lo: int, hi: int)
    requires
        lo <= hi,
        s.no_duplicates(),
        forall|k: int| 0 <= k < s.len() ==> lo <= #[trigger] s[k] < hi,
    ensures
        s.len() <= hi - lo,
    decreases hi - lo,
{
    if s.len() > 0 {
        assert(lo <= s[0] < hi);
        let top = hi - 1;
        if exists|k: int| 0 <= k < s.len() && s[k] == top {
            let k = choose|k: int| 0 <= k < s.len() && s[k] == top;
            let s2 = s.remove(k);
            s.remove_ensures(k);
            assert forall|a: int, b: int| 0 <= a < s2.len() && 0 <= b < s2.len() && a != b implies s2[a]
                != s2[b] by {
                let ia = if a < k { a } else { a + 1 };
                let ib = if b < k { b } else { b + 1 };
                assert(s2[a] == s[ia]);
                assert(s2[b] == s[ib]);
            }
            assert forall|j: int| 0 <= j < s2.len() implies lo <= #[trigger] s2[j] < top by {
                let ij = if j < k { j } else { j + 1 };
                assert(s2[j] == s[ij]);
            }
            lemma_distinct_bound(s2, lo, top);
        } else {
            lemma_distinct_bound(s, lo, top);
        }
    }
}

/// From the match state, a run only ends there, by consuming nothing.
pub proof fn lemma_reaches_match(p: Seq<Option<Nfa>>, x: int, s: Seq<char>)
    requires
        0 <= x < p.len(),
        p[x] == Some(Nfa::Match),
    ensures
        reaches(p, x, s, x) == (s.len() == 0),
{
    if s.len() == 0 {
        assert(run(p, x, s, x, 0));
    }
}

} // verus!
