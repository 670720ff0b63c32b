//! Canvas service core: colours, pixel placement and canvas compression,
//! avatars, communities and their memberships, coin purchases, and the
//! decisions of the sign-in flow.
pub mod auth;
pub mod color;
pub mod error;
pub mod ids;
pub mod text;
pub mod time;
pub mod models;
