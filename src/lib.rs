//! A configuration language: documents of tables, dotted keys, typed
//! literals, string interpolation, expressions and guarded fields, parsed to
//! an expression tree and resolved to values by a bounded fixed-point
//! evaluation in which fields may refer to their siblings in any order.

pub mod value;
pub mod ops;
pub mod text;
pub mod path;
pub mod expr;
pub mod builder;
pub mod parser;
pub mod access;
pub mod laws;
pub mod keys;
pub mod wf;

pub use expr::{OmlExpr, OmlExprIfAnno};
pub use ops::{BinOp, UnOp, Op1Evaluator, Op2Evaluator, get_op2_level};
pub use value::{OmlValue, ApplyExt};
pub use parser::OmlParser;
pub use access::{GetByUsizeExt, GetByStrExt};
pub use text::IntoBaseExt;
