//! Data model and resolution logic for register-level memory map documents.
pub mod memory_map;
