//! Grouping of running processes into applications, desktop-entry matching,
//! saved per-application priorities and the autostart entry.
#![allow(unused_imports)]

use vstd::prelude::*;

pub mod rules;
pub mod text;
pub mod desktop;
pub mod process;
pub mod priority;
pub mod autostart;
pub mod controller;
