# Dendritic Calculus

Dendritic Calculus is an esoteric language that works on one value, a *dendron*:
an ordinal below epsilon-zero in Cantor normal form. A program adds to it
(natural sum), divides it with substitution, and loops while it has a finite part.

This crate is a verified library for the language, written with Verus:

- `natural`: natural numbers of any size (over `num-bigint`).
- `cnf`: the mathematical model of a dendron (Cantor normal form), its order,
  natural sum, subtraction and natural product, with their laws.
- `dendrons`: the executable `Dendron`, each operation proved against the model.
- `division`: the division-substitution `xi / (pi > sigma)`.
- `text`: the plain notation, the LaTeX notation and the reading of a dendron as a string.
- `syntax`, `parsing`: the grammar, as functions on characters, and the parser proved against it.
- `interpreter`: the semantics of programs, with a budget of loop iterations, and the interpreter.
- `listing`, `program`: listings of compiled programs, and a compiled program as a value.
- `product_laws`, `loop_laws`, `notation_laws`, `order_laws`, `string_laws`: laws
  of the product, of the loop optimisation, of the notation, of the order under
  the sum, and of the string encoding.

`app/` holds the command-line program; `tests/` the tests.
