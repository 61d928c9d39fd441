//! A small Unix shell's command-line logic, and the request handling of a
//! small web server, verified.

pub mod argv;
pub mod http;
pub mod shell;
pub mod text;
