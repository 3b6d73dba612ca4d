pub mod base_types;
pub mod bytes;
pub mod codec;
pub mod coin;
pub mod effects;
pub mod error;
pub mod event;
pub mod gas;
pub mod inner;
pub mod input_objects;
pub mod module_resolver;
pub mod move_types;
pub mod object;
pub mod order;
pub mod protocol_config;
pub mod publish;
pub mod storage;
pub mod sums;
pub mod system_state;
pub mod temporary_store;
