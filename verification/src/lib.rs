//! An Earley parser over context-free grammars: rule text is read into a
//! grammar with interned token identifiers and a nullable-symbol set, a chart
//! is built per input, the completed items are compacted into a shared packed
//! parse forest, and fully disambiguated trees are enumerated from that
//! forest one at a time.

pub mod svec;
pub mod errors;
pub mod grammar;
pub mod chart;
pub mod sppf;
pub mod enumerate;
