//! Core of a Zarr v3 hierarchy reader for xarray `DataTree`s.
//!
//! The library decides what to open ([`url`], [`store`], [`icechunk_store`]),
//! walks the groups of a store and shows what is in them ([`walk`],
//! [`snapshot`], [`glob`], [`node`], [`attrs`]), and plans and finishes reads of
//! array blocks ([`array`], [`dtype_dispatch`]). [`zarr`] holds what is taken
//! from the `zarrs` crate, [`metadata`] refuses sizes that cannot be counted,
//! [`py_credentials`] decides when credentials are refreshed, and [`error`] says
//! which Python exception a failure becomes. [`text`] and [`ordered`] are what
//! the rest is built on.

pub mod array;
pub mod attrs;
pub mod dtype_dispatch;
pub mod error;
pub mod glob;
pub mod icechunk_store;
pub mod metadata;
pub mod node;
pub mod ordered;
pub mod py_credentials;
pub mod snapshot;
pub mod store;
pub mod text;
pub mod url;
pub mod walk;
pub mod zarr;
