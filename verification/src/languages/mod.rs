//! Language adapters: inputs (handler languages) and outputs (router languages).
pub mod adapter;
pub mod rust;
pub mod go;
