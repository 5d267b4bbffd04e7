# symcalc

A small symbolic-algebra engine behind an HTTP endpoint, verified with Verus.

A formula such as `3x^2+sin(x)` is lexed, parsed by precedence climbing into an
expression tree, and then simplified, differentiated or solved for its variable.

Layout:

- `src/preprocess/`: tokens, expression trees and their mathematical model
  (`SExpr`), the lexer, the parser, the translator (lexer then parser), the
  text form of trees and equations, and the proof that this text reads back
  to the same tree (`roundtrip`).
- `src/math/`: simplification, differentiation and equation solving, each
  specified by a spec function over `SExpr` and proved against it, with the
  laws of each pass as public proof functions. Numbers stay text; their
  arithmetic is done by a numeric back end that the caller supplies
  (`math::number`).
- `src/http/`: what a request asks for and the reply it gets, as a function
  from the request text to an `Outcome`.
- `app/`: the server: sockets, threads, and the `f64` back end.
- `tests/`: tests of every stage on concrete formulas.

The rewriting passes do not terminate on every input (`x*x*x` makes
simplification loop). Each pass therefore has a `try_` form that takes a bound
on nested steps and answers `None` when it does not suffice; the plain form
requires that the pass finishes within `u64::MAX` steps.
