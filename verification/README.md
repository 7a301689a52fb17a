# parsuna

A parser generator for recoverable, pull-based parsers, verified with Verus.

A grammar file declares tokens (regular expressions over characters, with lexer
modes) and rules (expressions over tokens and rules). The library

* reads the file (`grammar`),
* checks it and computes FIRST and FOLLOW for the smallest lookahead that
  removes all conflicts (`analysis`),
* lowers it to a lexer automaton for each mode and a flat table of parser
  states (`lowering`), and
* runs such a table over an input (`runtime`): a stream of `Enter`, `Exit`,
  `Token`, `Garbage` and `Error` events.

The notation of grammar files is itself a grammar (`grammar::syntax`). A file is
read by the parser that this grammar is lowered to (`grammar::file_table`): it is
analysed and lowered like any other. That this succeeds is not proved. For the
case that it does not, the table is kept as a list of numbers too
(`grammar::notation`); a test holds the two against each other.

`report` and `lowering::dump` turn what the library knows into text;
`codegen::common` holds what code generators share. `app/` is the command line.

Contracts speak of mathematical views of the types. What holds of several
functions at once is stated in public proof functions whose names begin with
`law_`. Those on parses stand in `runtime`: every byte of the text is given
once, with a lookahead of one token in the order of the text (with more, a skip
token can come before a token that was read ahead of it), and the events form a
tree (`laws`, `tree`); a parse without an error is a derivation (`sentences`).
From the text of a grammar file on: every sentence has such a parse if the file
passes the analysis, and the lookahead that it finds tells an option and a further
round of a loop from what follows them (`accepted`); the analysis itself compares
only alternatives. Optimizing and
error recovery leave such parses as they are (`optimized`, `stamping`), and a
parser that is fed its text in pieces gives the events of one that has it whole
(`feeding`). Recovery ends, and so does a parse that has left its entry rule
(`ending`); a parse that stays in it can go on raising errors where the
lookahead does not decide.

Those on grammars: how sets of lookaheads are joined and repeated, and that FIRST
is what its equations say, stand in `analysis::first_laws`; that the lookahead
foresees what can come and tells the alternatives apart, in `lowering::prefixes`
and `lowering::decided`; that lowering loses no sentence, in `lowering::runs`;
that a table has every state that it names, in `lowering::targets`.
