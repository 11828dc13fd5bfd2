//! Huffman coding of text, with machine-checked contracts.
//!
//! A text is compressed in five steps: `frequency` counts its symbols, `tree`
//! merges the leaves of the table into a prefix-code tree, `codes` reads the
//! code of each symbol off the tree, `codec` encodes and decodes, and `bits`
//! packs the bit string into bytes. `archive` runs the steps in both
//! directions, and `container` persists the result. `optimal` and `length`
//! prove that no other tree encodes a text in fewer bits.
//!
//! Ties between equal frequencies are broken by a fixed rule: the leaves
//! enter the queue by increasing symbol, and a tree enters behind every tree
//! that is not heavier. A tree therefore depends on the counts of its table
//! alone, and can be rebuilt from a persisted table.

pub mod error;
pub mod text;
pub mod symbol_map;
pub mod frequency;
pub mod tree;
pub mod codes;
pub mod codec;
pub mod bits;
pub mod archive;
pub mod container;
pub mod optimal;
pub mod length;
