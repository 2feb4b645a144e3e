//! The core of an ePOS-Print to ESC/POS gateway: the ePOS SOAP parser, the
//! ESC/POS encoder, the connection pools and health cache that front the
//! printers, and the decisions of the print pipeline.

pub mod attrs;
pub mod bitmap;
pub mod config;
pub mod dispatch;
pub mod errors;
pub mod escpos;
pub mod health;
pub mod pool;
pub mod soap;
pub mod text;
