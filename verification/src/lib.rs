//! A hash table of employee records keyed by the Jenkins one-at-a-time hash
//! of each name, with the command language that drives it.

pub mod commands;
pub mod decimal;
pub mod dispatch;
pub mod hash;
pub mod logger;
pub mod table;
pub mod text;

