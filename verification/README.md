# constregex

A small regular expression engine. A `Grammar` (literals, ranges, wildcards,
concatenation, alternation and the three repetitions) is expanded into a
Thompson NFA, a `RegularExpression` of a fixed number of states, which is
matched by advancing every live state in step with the input.
Within one character each split is followed at most once, so a character
costs time in proportion to the number of states.

The crate is verified with Verus:

- `src/description.rs`: `Grammar`, what it matches (`in_language`), and the
  number of states its expansion takes (`grammar_size`).
- `src/list.rs`: `ConstList`, the fixed-capacity ring buffer that the
  expansion keeps its dangling arrows in.
- `src/automaton.rs`: what a table of states accepts, and the facts about
  runs through it that the expansion and the matcher rest on.
- `src/regular.rs`: the expansion (`from_grammar`) and the matcher
  (`match_whole`, `match_prefix`, `split_prefix`). The expression keeps the
  grammar it was built from as its view; the matchers are proved to answer
  exactly what that grammar matches.

A `RegularExpression<N>` needs `N == grammar.grammar_size()`.
