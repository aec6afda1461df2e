//! Planning of a merged environment: many package trees folded into one tree of directories
//! and symbolic links.
//!
//! A run takes packages, each a directory tree with a priority, and plans one tree that
//! looks like the union of them all. Where two packages claim one path, the lower priority
//! number wins; a tie is a collision, which fails the run unless both objects are equivalent
//! or collisions are ignored. Packages may ask for further packages, which are folded in
//! after all others.
//!
//! Nothing here touches the file system. The caller records what the file system says of the
//! package trees in a [`world::World`], the planner reads that record, and what it hands out
//! is a list of directories and links for the caller to create.
//!
//! - [`paths`]: paths as text, and which paths are wanted;
//! - [`world`]: the snapshot of the file system;
//! - [`plan`]: the plan and its entries;
//! - [`merge`]: what folding a tree into the plan means;
//! - [`planner`]: the planner that does it;
//! - [`closure`]: whole packages and what they ask for;
//! - [`run`]: a whole run;
//! - [`realize`]: from the plan to directories and links;
//! - [`config`], [`json`]: the configuration and the list of packages;
//! - [`error`]: failures and warnings;
//! - [`text`]: text primitives;
//! - [`laws`]: what holds of planning as a whole;
//! - [`shape`]: why a plan can be realized;
//! - [`failure`]: what a failure leaves behind.

pub mod text;
pub mod paths;
pub mod world;
pub mod plan;
pub mod error;
pub mod config;
pub mod merge;
pub mod planner;
pub mod closure;
pub mod realize;
pub mod json;
pub mod run;
pub mod laws;
pub mod shape;
pub mod failure;
