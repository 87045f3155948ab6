pub mod auth;
pub mod config;
pub mod redirection;
pub mod router;
pub mod session;
pub mod text;
