//! A webhook server's core: the routes file that records each webhook, the
//! keys webhooks are reached under, password hashing, and what the server
//! decides for each request.
pub mod forward;
pub mod hooks;
pub mod keys;
pub mod passwords;
pub mod route;
pub mod text;

pub use keys::hash_int;
pub use passwords::{hash_new, hash_old};
pub use route::get_route_from_key;
