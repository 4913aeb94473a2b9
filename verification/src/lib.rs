//! Scheduling core of a LAN file distribution service: the share side keeps the
//! shared files, the connected downloaders, one download queue per file and the
//! open transfer channels, and decides who downloads from the share side and who
//! receives a relayed copy from a downloader that already has the file.
pub mod keyed;
pub mod types;
pub mod ids;
pub mod state;
pub mod store;
pub mod dispatch;
pub mod scheduler;
pub mod frame;
pub mod capacity;
pub mod laws;
pub mod locality;
