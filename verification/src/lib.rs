pub mod bridge;
pub mod conn;
pub mod frame;
pub mod io_helpers;
pub mod pattern;
pub mod router;
pub mod socket;
pub mod types;
pub mod ws;
