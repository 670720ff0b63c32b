//! The rows that the service stores and the values it hands back.
pub mod avatar;
pub mod community;
pub mod coins;
pub mod pixel;
pub mod user;
