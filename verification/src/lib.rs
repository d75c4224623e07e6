use vstd::prelude::*;

pub mod appearance;
pub mod catalog;
pub mod cli;
pub mod history;
pub mod i18n;
pub mod index;
pub mod model;
pub mod scan;
pub mod session;
pub mod sort;
pub mod text;
