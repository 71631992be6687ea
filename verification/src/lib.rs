//! A host-resident code-search service core: a memory-mapped corpus cache,
//! a line-oriented regex search engine with a result ceiling, a change
//! observer that routes filesystem events to tenants, and a multi-tenant
//! request dispatcher.

pub mod cache;
pub mod mapping;
pub mod matcher;
pub mod observer;
pub mod paths;
pub mod policy;
pub mod scan;
pub mod service;
pub mod text;
