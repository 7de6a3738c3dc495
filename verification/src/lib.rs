// A chart parser for context-free grammars whose rules carry equality
// constraints on features.
//
// `rewr` holds terms, rewrite rules and rewriting systems: a system decides
// which feature terms are equal and rejects a rule that would make two
// different constants equal. `grammar` holds constraints, rule items and
// rules, `chart` the edges and the chart with its path finder, and `parse`
// the driver that derives new edges level by level. `avm` and `render` show
// theories and edges as feature structures and as text.
//
// The other modules hold the mathematics that the contracts speak of:
// `order` the reduction order on terms, `reduction` rewriting and normal
// forms, `universe` the bound on the number of rules that completion can
// add, `completion` the completion procedure, `confluence` the proof that
// a completed system gives each term one normal form, `theory` the proof
// that normal forms decide equality, and `matching` the proof that the path
// finder gives each match once.
pub mod text;
pub mod order;
pub mod reduction;
pub mod universe;
pub mod completion;
pub mod confluence;
pub mod theory;
pub mod rewr;
pub mod grammar;
pub mod chart;
pub mod matching;
pub mod parse;
pub mod avm;
pub mod render;
