//! A reverse proxy core that downgrades `https://` links to `http://`:
//! a streaming byte matcher and the response rewrite rules built on it.

pub mod rewriter;
pub mod pipeline;
pub mod proxy_error;
pub mod upgrade;
