//! Tools for an Android device reached through `adb`: the logic of the log
//! collector, the screenshot command, the network watcher and the process
//! lister, with every behaviour stated as a contract and proved.

pub mod adb;
pub mod choice;
pub mod cli;
pub mod clock;
pub mod collector;
pub mod decimal;
pub mod device;
pub mod logs;
pub mod names;
pub mod netwatch;
pub mod number;
pub mod procmap;
pub mod procs;
pub mod profile;
pub mod report;
pub mod router;
pub mod screenshot;
pub mod session;
pub mod sink;
pub mod text;
pub mod unicode;
pub mod util;
pub mod writer;
