//! Front end of a small S-expression language: scanners, a recovering
//! recursive-descent grammar, label-indexed scopes and parse-time path
//! resolution.

pub mod ast;
pub mod natural;
pub mod parser;
pub mod scan;
