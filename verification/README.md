# Guarded formulas and intruder rules, verified

A library for the formula layer of a security-protocol prover, written in
Verus: every function in `src/` carries a `requires`/`ensures` contract over
a mathematical model of its data, and Verus proves the code against it.

The term layer the formulas are built over (variables, names, function
symbols, terms, facts, atoms, substitutions, positions, the canonical form of
associative-commutative and commutative applications, the order of terms)
and the per-name supply of fresh indices are modelled here as plain data with
their own contracts: `src/term.rs`, `src/canon.rs`, `src/order.rs` and
`src/fresh.rs` hold them.

## Layout

- `src/term.rs` — variables, names, function symbols, terms, facts and atoms
  in locally nameless form (a leaf is a De Bruijn index or a free variable),
  with their models and substitutions.
- `src/fresh.rs` — the per-name supply of fresh variable indices.
- `src/formula.rs` — first-order formulas: builders, free variables,
  quantifier introduction, shifting, substitution and renaming, atom maps,
  and the opening of quantifiers and quantifier prefixes.
- `src/guarded.rs` — guarded formulas: smart constructors, negation,
  induction, simplification under a valuation of atoms, substitution,
  closing and opening of binders, and normalisation.
- `src/convert.rs` — the conversion of a formula into the guarded fragment,
  with the error that names the unguarded variables.
- `src/intruder.rs` — the intruder's deduction rules: the special rules, the
  multiset, exclusive-or and natural-number rules, constructor rules of a
  signature and destructor rules of a subterm rewrite rule; and the
  decisions taken on the variants of a rule and on a rule list, given the
  equation solver's answers as arguments: which variants are kept, which
  equal-up-to-renaming duplicates go, and which rules minimisation drops.
- `src/private_constants.rs` — the private constants a signature's equations
  make derivable, and their constructor rules.
- `src/variants.rs` — reading intruder rules from their text: resolving the
  symbols a rule name lists, the rule kind, and the variables a rule
  introduces, ordered.
- `src/vars.rs` — how a formula read from a theory names its variables.
- `src/canon.rs` — the canonical form of applications: an
  associative-commutative application flattened and its arguments sorted, a
  commutative one sorted; rebuilding a term, an atom, or only the
  applications above the leaves a map replaces, in that form.
- `src/order.rs` — the order of guarded formulas: each formula written out
  as a key, constructors in declaration order and fields in turn, compared
  lexicographically.
- `src/reading.rs` — a formula as a theory writes it, read into a locally
  nameless formula: lifted atoms in reading order, each quantifier closing
  its binders with the last one innermost.
- `src/surface.rs` — terms, facts, atoms and formulas as a theory writes
  them, and the expansion of the theory's macros in them.
- `src/theory.rs` — a theory's rules, lemmas, restrictions and predicates
  as written, and the expansion of the theory's macros in them.
- `src/guarded_types.rs` — written terms and atoms whose variable leaves are
  bound indices or free variables: lifting and lowering, closing and
  opening under binder lists, free variables and renaming.
- `tests/` — scenarios on concrete values, one test per behaviour.
- `app/` — the library's error types with `Display` and `std::error::Error`.

## Laws

Beside the contracts, `src/` states and proves laws of the library as
public proof functions, among them: opening undoes binding and binding undoes
opening; closing then opening binders is the identity on atoms; negation is
an involution on atoms; smart conjunction and normalisation are idempotent;
the results of the smart constructors are flat and duplicate-free; an
equivalence converts as two implications at either polarity; closing after
opening rebuilds a guarded quantifier; normalising a stored formula is
idempotent; a list of binders closes with its last binder innermost; the order of
guarded formulas is a total preorder that agrees with equality; the variable order is a strict
total order; the derivable private constants are closed under the
equations and come from them; macro expansion leaves no macro call, is
idempotent and does not depend on the ranking that shows the macros free of
cycles; lifting leaves no tuple ending in a tuple and lowering undoes it;
opening undoes closing on written
terms and atoms; converting a formula treats a bi-implication as the two
implications; quantifying over the variable opening drew rebuilds the
quantifier; the order of terms is total and sorting gives a sorted
permutation; rebuilding in canonical form is idempotent and commutes with
renaming back and forth; and opening a prefix of quantifiers at once is opening its
binders one at a time, drawing the same fresh variables.

## Checking

Run Verus on `src/lib.rs` (crate type `lib`); the tests under `tests/` run
with `cargo test` against the compiled library.
