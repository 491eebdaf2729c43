//! A small coding agent: the wire protocol, the incremental SSE decoder, the
//! session state machine, tool bookkeeping and the append-only rollout log.

pub mod llm;
pub mod prompt;
pub mod probe;
pub mod protocol;
pub mod rollout;
pub mod session;
pub mod sse;
pub mod text;
pub mod tools;
