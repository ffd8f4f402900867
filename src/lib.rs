//! Payment-URI parameters for payjoin: the `pj` / `pjos` query parameters
//! and the compact parameter encoding carried in the endpoint's fragment.

mod text;
pub mod codec;
pub mod fragment;
pub mod endpoint;
pub mod params;
pub mod uri;
