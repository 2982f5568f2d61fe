//! Windows integration: the service configuration, the `sc.exe` command
//! lines, the Explorer context menu, service states and cancellation.

pub mod cancel;
pub mod config;
pub mod installer;
pub mod shell_ext;
pub mod status;
