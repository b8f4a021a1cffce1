# wordle

An interactive command-line Wordle solver, with its logic verified in Verus.

- `src/letters.rs`: ASCII letters, alphabet index, per-letter counts.
- `src/text.rs`: Unicode whitespace, trimming, lines and tokens.
- `src/order.rs`: byte-lexicographic order, sorting with repeats removed.
- `src/dictionary.rs`: from the text of a word list to its words of one length.
- `src/model.rs`: the solver as mathematics: clues, candidates, checks.
- `src/solver.rs`: the solver itself, proved against the model.
- `src/command.rs`: what a line typed at the prompt asks for.
- `src/laws.rs`: properties of every guess, among them that honest scoring
  never loses the answer.
- `app/main.rs`: the program: arguments, files, the prompt loop, printing.
