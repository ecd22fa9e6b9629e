//! Building blocks shared by several services.
pub mod api_util;
pub mod async_mpmc;
pub mod buildinfo;
pub mod cancel;
pub mod multiwake;
pub mod outside;
pub mod poll;
pub mod puller;
pub mod rpc;
mod status;
pub mod text;
