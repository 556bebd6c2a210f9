pub mod config;
pub mod save_guard;
pub mod secret_laws;
