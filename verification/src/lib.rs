//! The evaluation core of a solid-modelling language: values and their algebra, scopes, the
//! expression machine, the analysis passes and the decisions around geometry.

pub mod acts;
pub mod algebra;
pub mod analysis;
pub mod ast;
pub mod balance;
pub mod bind;
pub mod bindings;
pub mod budget;
pub mod calls;
pub mod capture;
pub mod chars;
pub mod console;
pub mod discipline;
pub mod elements;
pub mod emit;
pub mod entry;
pub mod eval;
pub mod font;
pub mod generate;
pub mod geo;
pub mod geom;
pub mod hoist;
pub mod host;
pub mod intrinsics;
pub mod islands;
pub mod iterate;
pub mod jit;
pub mod ledger;
pub mod lookups;
pub mod machine;
pub mod meaning;
pub mod message;
pub mod mod_cache;
pub mod modules;
pub mod names;
pub mod native;
pub mod num;
pub mod object;
pub mod ops;
pub mod parts;
pub mod primitives;
pub mod reach;
pub mod read_set;
pub mod reads;
pub mod redundancy;
pub mod resolve;
pub mod rng;
pub mod rules;
pub mod run;
pub mod schedule;
pub mod scope;
pub mod static_diag;
pub mod step;
pub mod text;
pub mod trace;
pub mod trig;
pub mod value;
