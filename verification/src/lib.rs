//! An assembler and contract compiler for the Ethereum Virtual Machine.
//!
//! [`assembler`], [`builder`] and [`contract`] make bytecode from instructions. [`expand`] compiles
//! a contract module, given in the form of [`ast`], to the bytecode that deploys it and the JSON
//! form of its interface; [`scheme`] and [`module`] say what the result is.
//!
//! [`machine`] models the machine, and [`meaning`] says what contract functions compute. The laws
//! in [`layout`], [`effects`], [`correct`], [`dispatch`] and [`whole`] connect the two: deployed
//! bytecode does what the functions of the contract mean. [`frame`] says what evaluation leaves
//! alone, [`reads`] that what was written reads back, and [`laws`] holds further properties of
//! strings and declarations.
//!
//! What the parts of the compiler are for is stated in terms of their inputs: [`declares`] relates
//! the items of a module to what they declare, [`describes`] to the description of the interface,
//! and [`linking`] to the result of compiling it. [`encoding`] encodes the arguments of functions
//! and constructors, and says that these start with the values that were encoded. [`constructs`],
//! [`calls`] and [`writes`] say what each construct computes, calls and writes, [`accepts`] which
//! constructs compile, and [`bytecode`] what programs are in bytes.

pub mod abi;
pub mod accepts;
pub mod arguments;
pub mod assembler;
pub mod ast;
pub mod builder;
pub mod bytecode;
pub mod bytes;
pub mod calls;
pub mod code;
pub mod constructs;
pub mod contract;
pub mod correct;
pub mod declares;
pub mod describes;
pub mod dispatch;
pub mod effects;
pub mod encoding;
pub mod errors;
pub mod expand;
pub mod frame;
pub mod keccak;
pub mod laws;
pub mod layout;
pub mod linking;
pub mod lower;
pub mod machine;
pub mod meaning;
pub mod model;
pub mod module;
pub mod names;
pub mod reads;
pub mod scheme;
pub mod shape;
pub mod simulate;
pub mod steps;
pub mod text;
pub mod whole;
pub mod word;
pub mod writes;
