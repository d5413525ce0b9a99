//! Fork state reconstruction: derive the storage slots that a set of
//! contracts' declared variables and configured mapping keys occupy, and
//! assemble a local state store from values fetched at a fixed block height.

pub mod derive;
pub mod digest;
pub mod errors;
pub mod hexstr;
pub mod layout;
pub mod store;
pub mod word;

pub use digest::{create_storage_layout, digest_config, ContractData, ContractReport, ForkConfig};
pub use errors::DigestError;
pub use layout::{Artifacts, BasicType, RawTypeDescriptor, StorageItem, StorageLayout, StorageType};
pub use store::{AccountRecord, Address, LocalStateStore, RemoteSnapshot};
pub use word::Word;
