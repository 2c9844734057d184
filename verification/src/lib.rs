//! A small package manager for Debian binary archives: the rules by which a
//! package is unpacked, its control paragraph read, its payload placed and
//! its catalog entry kept, each stated as a contract and proved.

pub mod archive;
pub mod catalog;
pub mod codec;
pub mod control;
pub mod emit;
pub mod extract;
pub mod input;
pub mod install;
pub mod plan;
pub mod text;
pub mod tree;
pub mod view;
