pub mod ast;
pub mod callable;
pub mod core_iter;
pub mod dict;
pub mod error;
pub mod iter;
pub mod lookup;
pub mod object;
pub mod ops;
pub mod output;
pub mod string_iters;
pub mod value;
