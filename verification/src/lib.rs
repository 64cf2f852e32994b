//! A desktop-launcher core with an embedded symbolic-mathematics
//! engine, with its behaviour specified and machine-checked.
//!
//! The mathematics engine lives in [`eq`] (the expression tree and the
//! traversal), [`parse`] (text to expression), [`simplify`] (rewriting
//! to a canonical reduced form), [`solve`] (rearranging an equation
//! around a variable), [`display`] (the canonical textual rendering),
//! and [`eqwidget`] (typesetting into boxes and drawing primitives).
//! [`order`], [`rational`], [`semantics`] and [`roundtrip`] hold the
//! canonical operand order, the gcd theory, the evaluation semantics
//! with the proofs that simplification preserves values and that the
//! solver's rearrangement is sound, and the parse-display round trip
//! on the atomic fragment.
//!
//! The launcher side lives in [`sys_apps`]: desktop-entry reading,
//! fuzzy ranking of applications, icon candidate paths and command-line
//! splitting; and in [`numfmt`]: integer literals shown in every base.
//! File access, the environment and process spawning stay with the
//! caller.

pub mod display;
pub mod eq;
pub mod eqwidget;
pub mod numfmt;
pub mod order;
pub mod parse;
pub mod rational;
pub mod roundtrip;
pub mod semantics;
pub mod simplify;
pub mod solve;
pub mod sys_apps;
