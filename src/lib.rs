//! Index of launchable desktop entries, icon resolution, and the framed
//! protocol between the launcher client and its resident daemon.

pub mod codec;
pub mod config;
pub mod daemon;
pub mod entry;
pub mod freedesktop;
pub mod icons;
pub mod launch;
pub mod paths;
pub mod text;

pub use config::Config;
pub use entry::Entry;
