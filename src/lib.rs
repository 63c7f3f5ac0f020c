//! A dependency-injection container: services are registered under keys,
//! each with the keys it depends on and a provider that builds it, and are
//! resolved lazily, at most once each, with dependency cycles reported.

mod container;
mod declare;
mod key;
mod repo;

pub use container::{
    depends_on, is_cycle_report, is_dependency_walk, key_views, keys_unique, Binding, BuildError,
    Container, Provide, ResolveError,
};
pub use declare::{
    declaration_valid, field_keys, field_names, inject_derive, strings, Declaration,
    InvalidBinding,
};
pub use key::{KeyView, ServiceKey};
pub use repo::{Data, DbData, IRepository};
