//! Dynamite is a host/plugin bridge: independently compiled modules
//! ("language adapters") register typed functions and data layouts into one
//! shared catalog and call each other's functions across a compiled-module
//! boundary using only C-compatible primitives.
//!
//! This crate is the verified orchestration core: the catalog and schema
//! model, the binary wire encoding of catalogs, the registry and dispatch
//! logic of the host, and the adapter-side initialization protocol. The
//! platform-specific pieces (dynamic-library loading, raw pointers, the C
//! function-pointer bundles) live in the unverified application layer that
//! drives this library.

pub mod codec;
pub mod error;
pub mod host;
pub mod language_adapter;
pub mod script_api;
pub mod stockpile;

pub use codec::decode_script_api;
pub use codec::encode_script_api;
pub use error::DynamiteError;
pub use error::ScriptApiError;
pub use host::Dynamite;
pub use language_adapter::AdapterInitState;
pub use language_adapter::DynamicLibLanguageAdapter;
pub use language_adapter::HostFunctions;
pub use language_adapter::LanguageAdapter;
pub use language_adapter::OpaqueHandle;
pub use script_api::DataLayout;
pub use script_api::DataType;
pub use script_api::FunctionDefinition;
pub use script_api::HasDataLayout;
pub use script_api::Primitive;
pub use script_api::ScriptApi;
pub use script_api::ScriptType;
pub use script_api::StructDefinition;
pub use script_api::TypePath;
pub use stockpile::Stockpile;
pub use stockpile::StockpileItem;
