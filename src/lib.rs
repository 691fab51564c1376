pub mod specifier;
pub mod wire;
pub mod lockfile;
pub mod order;
pub mod store_key;
pub mod integrity;
pub mod install;
pub mod manifest;
pub mod range;
