# crabroll

Dice expression evaluator: standard dice notation (`2d6`, `d20`, `^d20` for
advantage, `vd20` for disadvantage) combined with `+ - * /` and parentheses.
Each result shows the rolled value plus the theoretical min, max and average.

The library in `src/` is verified with Verus:

- `types.rs`: tokens, operators, roll kinds and the expression tree; a number
  is kept as its decimal digits, so literals of any length are read exactly.
- `lexer.rs`: the token grammar as spec functions over the characters of the
  input, and a lexer proved to compute exactly that; whitespace around a text
  does not change its tokens, and printed tokens lex back to themselves.
- `parser.rs`: the expression grammar (precedence, left grouping,
  parentheses) as mutually recursive spec functions, and a recursive-descent
  parser proved equal to it; a parsed tree gives back its tokens.
- `evaluator.rs`: throwing the dice of a tree, and the exact value, minimum,
  maximum and average of each roll, with the closed forms of the advantage and
  disadvantage averages and the laws relating them.
- `dice.rs`: the calls into `rand`.

`app/main.rs` is the REPL (`rustyline`), and combines the statistics of a tree
in floating point.
