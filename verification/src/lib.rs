//! netflector: reflects link-local service traffic between two network interfaces.

pub mod ascii;
pub mod capture;
pub mod cli;
pub mod config;
pub mod dispatch;
pub mod errno;
pub mod error;
pub mod interface;
pub mod libcex;
pub mod linear_map;
pub mod logging;
pub mod memory_report;
pub mod net;
pub mod number;
pub mod startup;
pub mod text;
pub mod unique_list;

pub use crate::error::Error;
pub use crate::logging::init as init_logging;
