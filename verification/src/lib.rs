//! Merging of WebAssembly modules: imports of one module that another module
//! exports are linked, and the modules become one.
pub mod error;
pub mod graph;
pub mod kinds;
pub mod merge_builder;
pub mod merge_configuration;
pub mod merge_options;
pub mod merger;
pub mod module_order;
pub mod named_module;
pub mod parsed_buffer;
pub mod resolver;

pub use merge_configuration::MergeConfiguration;
pub use merge_options::MergeOptions;
pub use named_module::NamedBufferModule;
pub use named_module::NamedModule;
