//! Classic algorithms and data structures, each with a verified contract.
//!
//! The centre of the crate is [`union_find`]: four interchangeable
//! disjoint-set strategies that all realise one abstract partition of
//! `0..n`, together with the laws that relate them.  [`percolation`] puts
//! the structure to use on a grid.
//!
//! Around it stand the usual companions: [`sort`] and [`order`] for sorting
//! anything that is totally ordered, [`stack`], [`queue`] and [`heap`] as
//! containers, [`binary_tree`] as a search tree, [`eval`] as a small
//! expression evaluator built on two stacks, and [`util`] for random test
//! data.

pub mod binary_tree;
pub mod eval;
pub mod heap;
pub mod order;
pub mod percolation;
pub mod queue;
pub mod sort;
pub mod stack;
pub mod union_find;
pub mod util;
