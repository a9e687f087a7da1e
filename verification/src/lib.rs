//! SaveOwl's verified core: the save-history rules, the snapshot file maps,
//! the session detection and the path and id handling of the tray application.

pub mod sync;
pub mod ids;
pub mod text;
pub mod digest;
pub mod paths;
pub mod gpu;
pub mod files;
pub mod process;
pub mod watch;
pub mod trace;
pub mod icon;
