//! Event-handling core of an observability pipeline: the batched event
//! containers that move telemetry between stages, the structural type
//! descriptors (`Kind`/`Output`) merged across those stages, and a Prometheus
//! text exposition decoder whose records are proved to match their
//! mathematical description.

pub mod decode;
pub mod event;
pub mod kind;
pub mod schema;
pub mod value;
