//! The Aztec chain of a subgraph indexing node: blocks and public logs, what
//! triggers a data source, and how blocks are followed over JSON-RPC and
//! Firehose.
pub mod adapter;
pub mod chain;
pub mod codec;
pub mod data_source;
pub mod headers;
pub mod hexadecimal;
pub mod json;
pub mod manifest;
pub mod reading;
pub mod rpc;
pub mod text;
pub mod trigger;
pub mod version;
pub mod wire;

pub use crate::chain::Chain;
pub use crate::data_source::{DataSource, Mapping, MappingBlockHandler, MappingEventHandler};
pub use crate::manifest::{DataSourceTemplate, UnresolvedDataSource, UnresolvedDataSourceTemplate, UnresolvedMapping};
