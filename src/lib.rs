//! Server-side rendering support for a build tool: splits a compiled artifact
//! graph into the subgraph to emit and its boundary, plans the emission once
//! per target, configures the worker pool, and reads the workers' line
//! protocol into markup or a fallback error page.

pub mod emission;
pub mod graph;
pub mod json;
pub mod ledger;
pub mod pool;
pub mod protocol;
pub mod render;
