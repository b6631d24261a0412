//! Workspace sets for Sway: named contexts of workspaces, of which each monitor
//! shows its own.
//!
//! The library decides; it reaches nothing outside itself. A [`session`]
//! carries out one [`command`]: it says what it needs next of sway, the state
//! files or the user, and is told the reply.
//!
//! - [`assignments`], [`sets`], [`pins`], [`workspace`], [`snapshot`], [`tree`]
//!   and [`sway`] hold the rules: which monitor shows which set, what a
//!   workspace belongs to, what is saved of a set and the commands sway takes.
//! - [`dialogue`] is how an operation asks and is told; [`state`], [`screens`],
//!   [`freeze`] and [`change`] are the operations that commands are made of.
//! - [`resume`], [`trace`], [`upkeep`], [`parking`], [`carrying`] and
//!   [`queries`] hold what is proved of whole operations. [`account`],
//!   [`thawing`] and [`conduct`] tell in full what they ask for where they
//!   succeed, [`reasons`] why they fail, and [`promises`], [`keeping`] and
//!   [`menus`] what a user may rely on.
//! - [`text`], [`search`], [`string_map`] and [`json`] are what the rest is
//!   built on.

pub mod account;
pub mod assignments;
pub mod carrying;
pub mod change;
pub mod command;
pub mod conduct;
pub mod dialogue;
pub mod freeze;
pub mod json;
pub mod keeping;
pub mod menus;
pub mod parking;
pub mod pins;
pub mod promises;
pub mod queries;
pub mod reasons;
pub mod resume;
pub mod screens;
pub mod search;
pub mod session;
pub mod sets;
pub mod snapshot;
pub mod state;
pub mod string_map;
pub mod sway;
pub mod text;
pub mod thawing;
pub mod trace;
pub mod tree;
pub mod upkeep;
pub mod workspace;
