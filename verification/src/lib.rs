//! A regular-expression engine over Unicode scalar values.
//!
//! A pattern is read into a syntax tree, the tree is laid out as a
//! nondeterministic automaton, silent edges are folded away, and the
//! automaton is compiled into one boolean transition matrix per symbol.
//! Matching is iterated matrix-vector multiplication: over booleans to test
//! a whole string, over optional start offsets to find the first match.
//!
//! - [`utf8`]: codepoints and their UTF-8 encoding, with the round trip.
//! - [`math`]: boolean matrices and vectors, and vectors of offsets.
//! - [`regex`]: the compiled pattern with `test` and `find`, and below it
//!   the syntax (`parse`), the automaton under construction (`graph`), its
//!   layout from the tree (`translate`), silent reach (`closure`), the
//!   matrices (`compile`), what a pattern means (`language`), and when its
//!   literals decode (`literals`).
pub mod math;
pub mod regex;
pub mod utf8;
