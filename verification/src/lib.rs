use vstd::prelude::*;

pub mod text;
pub mod codec;
pub mod version;
pub mod package;
pub mod cache;
pub mod index;
pub mod download;
pub mod fs_install;
pub mod alternatives;
pub mod commands;
pub mod keyring;
pub mod db;
pub mod solver;
pub mod sat;
pub mod apt_sources;
pub mod dpkg_status;
pub mod import_dpkg;
pub mod repo;
pub mod cli;
pub mod deb;
pub mod ui;
pub mod engine;
pub mod log;

verus! {

} // verus!
