//! Structure splitting: a struct is split into child structs by the
//! affinity group of each field, and the places where a value of the
//! struct is declared, passed, returned or assigned are rewritten to use the
//! children instead.
use vstd::prelude::*;

pub mod affinity;
pub mod demo;
pub mod expand;
pub mod factor_function_call;
pub mod hir;
pub mod local_map;
pub mod lvalue_splitter;
pub mod mir;
pub mod names;
pub mod split_arg;
pub mod split_function_call;
pub mod split_function_def;
pub mod split_struct;
pub mod split_utils;
pub mod struct_base_replacer;
pub mod structure_splitting;
pub mod tuple_arg;
pub mod ty;
pub mod walkmut;
