//! The embedding interface: endpoints, results handed across the FFI
//! boundary, the handle, health reports and search requests.

pub mod endpoint;
pub mod ffi;
pub mod handle;
pub mod health;
pub mod request;
