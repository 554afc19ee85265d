//! Detection and recording of client versions published in a web page's
//! embedded configuration.
pub mod text;
pub mod version;
pub mod ledger;
pub mod render;
pub mod extract;
pub mod decode;
pub mod pipeline;
pub mod store;
