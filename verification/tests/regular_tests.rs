use constregex::Grammar::{
    Alternation, Concatenation, Literal, OneOrMany, Range, Wild, ZeroOrMany, ZeroOrOne,
};
use constregex::{Grammar, RegularExpression};

const A: Grammar = Literal('A');
const B: Grammar = Literal('B');
const C: Grammar = Literal('C');

const CR: Grammar = Literal('\r');
const LF: Grammar = Literal('\n');
const SPACE: Grammar = Literal(' ');
const TAB: Grammar = Literal('\t');

fn cat(gs: Vec<Grammar>) -> Grammar {
    Concatenation(gs)
}

fn alt(gs: Vec<Grammar>) -> Grammar {
    Alternation(gs)
}

fn opt(g: Grammar) -> Grammar {
    ZeroOrOne(Box::new(g))
}

fn star(g: Grammar) -> Grammar {
    ZeroOrMany(Box::new(g))
}

fn plus(g: Grammar) -> Grammar {
    OneOrMany(Box::new(g))
}

/// `(CR LF | LF | CR)`, the line ending rule the markdown grammar is
/// built on. A composite of every operator worth exercising together.
fn eol() -> Grammar {
    alt(vec![cat(vec![CR, LF]), LF, CR])
}

/// Compiles `grammar` into an expression of `N` states, which has to be its
/// size, and asserts that every string under `accepts` matches it in its
/// entirety, and that every string under `rejects` does not.
fn check<const N: usize>(grammar: Grammar, accepts: &[&str], rejects: &[&str]) {
    assert_eq!(grammar.grammar_size(), N);
    let r = RegularExpression::<N>::from_grammar(&grammar);
    for input in accepts {
        assert!(r.match_whole(input), "expected {:?} to match", input);
    }
    for input in rejects {
        assert!(!r.match_whole(input), "expected {:?} not to match", input);
    }
}

/// Compiles `grammar` and asserts that `split_prefix` returns the expected
/// answer for each input. Every returned pair is also checked to be a true
/// split of its input: the two halves must join back into the input
/// string. `match_prefix` is checked against the same answer, since it is
/// the same match reported as a boolean.
fn check_split<const N: usize>(grammar: Grammar, cases: &[(&str, Option<(&str, &str)>)]) {
    assert_eq!(grammar.grammar_size(), N);
    let r = RegularExpression::<N>::from_grammar(&grammar);
    for (input, expected) in cases {
        let actual = r.split_prefix(input);
        assert_eq!(actual, *expected, "split_prefix({:?})", input);
        if let Some((prefix, rest)) = actual {
            assert_eq!(format!("{prefix}{rest}"), *input, "halves of split_prefix({:?}) do not rejoin", input);
        }
        assert_eq!(r.match_prefix(input), actual.is_some(), "match_prefix({:?}) disagrees with split_prefix", input);
    }
}

#[test]
fn literal() {
    check::<2>(A, &["A"], &["", "B", "AA", "a"]);
}

#[test]
fn wild_matches_exactly_one_character_of_any_kind() {
    check::<2>(Wild, &["A", "z", "7", " ", "\n", "é", "🦀"], &["", "AB", "éé"]);
}

#[test]
fn literals_compare_whole_characters_not_bytes() {
    // "é" and "🦀" are two and four bytes; matching walks `char`s, so a
    // partial encoding of one can never satisfy a literal.
    check::<3>(
        cat(vec![Literal('é'), Literal('🦀')]),
        &["é🦀"],
        &["", "é", "🦀", "e🦀", "é🦀🦀"],
    );
}

#[test]
fn range_matches_one_character_between_its_inclusive_bounds() {
    check::<2>(Range('b', 'd'), &["b", "c", "d"], &["", "a", "e", "B", "bc"]);
}

#[test]
fn range_of_a_single_character_behaves_like_a_literal() {
    check::<2>(Range('A', 'A'), &["A"], &["", "@", "B", "AA"]);
}

#[test]
fn range_bounds_are_code_points_not_bytes() {
    // The bounds span one, two and four byte encodings, so comparing
    // anything other than whole `char`s would order these wrongly.
    check::<2>(Range('\u{0000}', char::MAX), &["A", " ", "\n", "é", "🦀"], &["", "é🦀"]);
}

#[test]
fn range_can_exclude_characters_by_spanning_around_them() {
    // "any character other than CR or LF", the shape every line-oriented
    // rule in the markdown grammar is built from.
    check::<6>(
        alt(vec![
            Range('\u{0000}', '\u{0009}'),
            Range('\u{000B}', '\u{000C}'),
            Range('\u{000E}', char::MAX),
        ]),
        &["a", "\t", "\u{000C}", "🦀"],
        &["", "\n", "\r"],
    );
}

#[test]
fn concatenation() {
    check::<3>(cat(vec![A, B]), &["AB"], &["", "A", "B", "BA", "ABA", "AAB"]);
}

#[test]
fn concatenation_of_one_is_the_inner_grammar() {
    check::<2>(cat(vec![A]), &["A"], &["", "B", "AA"]);
}

#[test]
fn concatenation_around_a_wild() {
    check::<4>(cat(vec![A, Wild, A]), &["ACA", "AAA", "A A"], &["", "AA", "AC", "ACAA", "BCA"]);
}

#[test]
fn alternation() {
    check::<4>(alt(vec![A, B]), &["A", "B"], &["", "C", "AA", "AB"]);
}

#[test]
fn alternation_of_one_is_the_inner_grammar() {
    check::<2>(alt(vec![A]), &["A"], &["", "B", "AA"]);
}

#[test]
fn alternation_of_three_chains_splits() {
    check::<6>(alt(vec![A, B, C]), &["A", "B", "C"], &["", "D", "AB", "CC"]);
}

#[test]
fn alternation_nested_in_alternation() {
    check::<6>(alt(vec![alt(vec![A, B]), C]), &["A", "B", "C"], &["", "D", "AC"]);
}

#[test]
fn alternation_branches_of_different_lengths() {
    // The shorter branch reaches `Match` while the longer one is still
    // running, so both have to stay live at the same time.
    check::<5>(alt(vec![cat(vec![A, B]), A]), &["A", "AB"], &["", "B", "ABA", "AA"]);
}

#[test]
fn zero_or_one() {
    check::<3>(opt(A), &["", "A"], &["AA", "B", "BA"]);
}

#[test]
fn zero_or_one_of_concatenation() {
    check::<4>(opt(cat(vec![A, B])), &["", "AB"], &["A", "B", "ABAB"]);
}

#[test]
fn zero_or_many() {
    check::<3>(star(A), &["", "A", "AA", "AAA"], &["B", "AAB", "BAA", "ABA"]);
}

#[test]
fn zero_or_many_of_concatenation() {
    check::<4>(star(cat(vec![A, B])), &["", "AB", "ABAB", "ABABAB"], &["A", "BA", "ABA", "ABB"]);
}

#[test]
fn zero_or_many_of_wild_accepts_anything() {
    check::<3>(star(Wild), &["", "A", "hello", "line\nline", "🦀🦀"], &[]);
}

#[test]
fn one_or_many() {
    check::<3>(plus(A), &["A", "AA", "AAA"], &["", "B", "AAB", "BAA"]);
}

#[test]
fn one_or_many_of_concatenation() {
    check::<4>(plus(cat(vec![A, B])), &["AB", "ABAB"], &["", "A", "ABA", "BAB"]);
}

#[test]
fn nested_zero_or_many() {
    // Nesting repetition puts a split in a loop with another split. The
    // matcher has to finish following those without consuming a character,
    // rather than chasing the loop forever.
    check::<4>(star(star(A)), &["", "A", "AAA"], &["B", "AB"]);
}

#[test]
fn one_or_many_nested_in_zero_or_many() {
    check::<4>(star(plus(A)), &["", "A", "AAA"], &["B", "AB"]);
}

#[test]
fn repetition_of_a_nullable_grammar() {
    // `A?` already matches nothing, so repeating it adds a second way to
    // pass through the fragment without consuming anything.
    check::<4>(plus(opt(A)), &["", "A", "AA"], &["B", "AB"]);
}

#[test]
fn zero_or_many_inside_alternation() {
    check::<5>(alt(vec![star(A), B]), &["", "A", "AAA", "B"], &["AB", "BB", "BA"]);
}

#[test]
fn concatenation_of_repetitions() {
    check::<5>(cat(vec![A, star(B), Wild]), &["AZ", "ABBBZ", "ABB", "AB"], &["", "A", "BZ"]);
}

#[test]
fn adjacent_repetitions_of_the_same_literal() {
    // `A*A` forces the matcher to hold both the looping branch and the
    // trailing literal at once, since it cannot know which `A` is the last.
    check::<4>(cat(vec![star(A), A]), &["A", "AA", "AAA"], &["", "B", "AAB"]);
}

#[test]
fn long_input_that_dies_early_is_still_rejected() {
    // `match_whole` bails as soon as no state is left alive; the remaining
    // input must not resurrect one.
    check::<3>(cat(vec![A, B]), &["AB"], &["ZZZZZZZZZZZZZZZZZZZZ", "ABABABABABABABABABAB"]);
}

#[test]
fn end_of_line() {
    check::<7>(eol(), &["\r\n", "\n", "\r"], &["", "\n\r", "\r\r", "\n\n", "a"]);
}

#[test]
fn blank_line() {
    check::<11>(
        cat(vec![star(alt(vec![SPACE, TAB])), eol()]),
        &["\n", "\r\n", " \n", "\t\r\n", " \t \r"],
        &["", " ", "a\n", " a \n", "\n\n"],
    );
}

#[test]
fn line() {
    check::<9>(
        cat(vec![star(Wild), eol()]),
        &["\n", "abc\n", "abc\r\n", "abc\r", "a\nb\n", "🦀\n"],
        &["", "abc"],
    );
}

#[test]
fn split_prefix_on_a_literal() {
    check_split::<2>(A, &[("A", Some(("A", ""))), ("AB", Some(("A", "B"))), ("AAA", Some(("A", "AA")))]);
}

#[test]
fn split_prefix_returns_none_when_the_prefix_does_not_match() {
    // The expression is anchored at the start of `input`: a match later in
    // the string is not a prefix, so it is not found.
    check_split::<2>(A, &[("", None), ("B", None), ("BA", None), ("BAAAA", None)]);
}

#[test]
fn split_prefix_of_a_concatenation_consumes_the_whole_match() {
    check_split::<3>(
        cat(vec![A, B]),
        &[
            ("AB", Some(("AB", ""))),
            ("ABC", Some(("AB", "C"))),
            ("ABAB", Some(("AB", "AB"))),
            ("A", None),
            ("AC", None),
        ],
    );
}

#[test]
fn split_prefix_splits_on_character_boundaries() {
    // A multi-byte character ahead of the split point is the case that
    // tells counting characters from counting bytes.
    check_split::<3>(
        cat(vec![Wild, Wild]),
        &[("🦀🦀é", Some(("🦀🦀", "é"))), ("é🦀", Some(("é🦀", ""))), ("aé!", Some(("aé", "!")))],
    );
}

#[test]
fn split_prefix_takes_the_longest_match() {
    // `A+` reaches `Match` on the first `A` and again on every one after
    // it. The split is taken at the last of them, not the first.
    check_split::<3>(
        plus(A),
        &[
            ("A", Some(("A", ""))),
            ("AA", Some(("AA", ""))),
            ("AAB", Some(("AA", "B"))),
            ("AABAA", Some(("AA", "BAA"))),
            ("B", None),
        ],
    );
}

#[test]
fn split_prefix_keeps_the_longest_match_when_a_later_one_dies() {
    // `AB?` matches after `A`, stays alive for a longer match, then dies
    // on `C`. The shorter match it already found is still the answer.
    check_split::<4>(
        cat(vec![A, opt(B)]),
        &[
            ("AB", Some(("AB", ""))),
            ("AC", Some(("A", "C"))),
            ("ACB", Some(("A", "CB"))),
            ("ABB", Some(("AB", "B"))),
        ],
    );
}

#[test]
fn split_prefix_of_a_nullable_grammar_still_consumes_a_character() {
    // `A*` matches the empty string, but `split_prefix` only tests for a
    // match after consuming a character, so it never reports a zero-length
    // prefix. An input that cannot consume one has no split at all.
    check_split::<3>(
        star(A),
        &[("A", Some(("A", ""))), ("AB", Some(("A", "B"))), ("", None), ("B", None)],
    );
}

#[test]
fn split_prefix_with_alternate_branches_of_different_lengths() {
    // Both branches match `AB`; the longer one decides the split.
    check_split::<5>(
        alt(vec![cat(vec![A, B]), A]),
        &[("AB", Some(("AB", ""))), ("ABB", Some(("AB", "B"))), ("AC", Some(("A", "C"))), ("B", None)],
    );
}

#[test]
fn split_prefix_takes_a_line_off_the_front_of_a_document() {
    // The use the function exists for: peel one line, keep the rest.
    check_split::<13>(
        cat(vec![
            star(alt(vec![
                Range('\u{0000}', '\u{0009}'),
                Range('\u{000B}', '\u{000C}'),
                Range('\u{000E}', char::MAX),
            ])),
            eol(),
        ]),
        &[
            ("abc\ndef\n", Some(("abc\n", "def\n"))),
            // The `CR` branch of `EOL` is satisfied by the `\r` alone, but the
            // `CR LF` branch is still alive and matches one character later.
            // Taking the longest keeps a CRLF ending whole.
            ("abc\r\ndef", Some(("abc\r\n", "def"))),
            ("abc\r", Some(("abc\r", ""))),
            ("\nabc", Some(("\n", "abc"))),
            ("🦀🦀\nabc", Some(("🦀🦀\n", "abc"))),
            ("abc", None),
            ("", None),
        ],
    );
}

#[test]
fn split_prefix_does_not_panic_on_input_that_kills_every_state() {
    // Nothing is left alive to consume the tail.
    check_split::<3>(
        cat(vec![A, B]),
        &[("ZZZZZZZZZZZZZZZZZZZZ", None), ("AZZZZZZZZZZZZZZZZZZZ", None), ("🦀🦀🦀🦀🦀🦀🦀🦀", None)],
    );
}

#[test]
fn grammar_size_counts_every_state() {
    // `grammar_size` has to be exact: `from_grammar` takes exactly that many
    // states. These pin down the formula itself.
    assert_eq!(A.grammar_size(), 2);
    assert_eq!(Wild.grammar_size(), 2);
    assert_eq!(Range('a', 'z').grammar_size(), 2);
    assert_eq!(cat(vec![A, B, C]).grammar_size(), 4);
    assert_eq!(alt(vec![A, B, C]).grammar_size(), 6);
    assert_eq!(opt(A).grammar_size(), 3);
    assert_eq!(star(A).grammar_size(), 3);
    assert_eq!(plus(A).grammar_size(), 3);
    assert_eq!(eol().grammar_size(), 7);
}

#[test]
fn match_prefix_finds_the_shortest_match_first() {
    let g = plus(A);
    let r = RegularExpression::<3>::from_grammar(&g);
    assert!(r.match_prefix("AAAB"));
    assert!(r.match_prefix("A"));
    assert!(!r.match_prefix(""));
    assert!(!r.match_prefix("BA"));
}

#[test]
fn whole_match_of_a_document_line_by_line() {
    // A line without its ending is not a whole match of `line`, but the same
    // text with one is.
    let g = cat(vec![star(Wild), eol()]);
    let r = RegularExpression::<9>::from_grammar(&g);
    assert!(!r.match_whole("no ending"));
    assert!(r.match_whole("an ending\r\n"));
    assert_eq!(r.split_prefix("one\ntwo\n"), Some(("one\ntwo\n", "")));
}

/// Thirty optional units in a row, each `(A? | B?)`: the paths through the
/// splits of the units join again at every unit, so a matcher that walked
/// each path on its own would take about 2^30 walks per character. Each
/// split is followed once per character, so this answers at once.
#[test]
fn shared_optional_paths_stay_cheap() {
    let unit = || alt(vec![opt(A), opt(B)]);
    let grammar = cat((0..30).map(|_| unit()).collect());
    check::<151>(
        grammar,
        &["", "A", "AB", "BABA", "AAAAAAAAAAAAAAAAAAAAAAAAAAAAAA"],
        &["C", "AC", "AAAAAAAAAAAAAAAAAAAAAAAAAAAAAAA"],
    );
}
