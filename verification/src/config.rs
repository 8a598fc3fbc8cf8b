//! Broker settings, as plain values.
use vstd::prelude::*;

verus! {

/// How AIS multipart sentences are treated when routing lines.
#[derive(Debug, Clone, Copy, PartialEq, Eq, Structural)]
pub enum MultipartMode {
    /// Every line is routed on its own.
    Line,
    /// Fragments of one multipart message go to the same consumer.
    Affinity,
    /// Fragments are reassembled by the broker.
    Reassemble,
}

/// How a consumer is chosen for a line.
#[derive(Debug, Clone, Copy, PartialEq, Eq, Structural)]
pub enum LoadBalanceStrategy {
    RoundRobin,
    LeastPending,
    HashAffinity,
}

/// What happens to a line read from upstream when the queue is full.
#[derive(Debug, Clone, Copy, PartialEq, Eq, Structural)]
pub enum BackpressurePolicy {
    /// Stop reading upstream until the queue has room.
    BlockUpstreamRead,
    /// Discard the line just read.
    DropNewest,
    /// Discard queued lines, oldest first, to make room.
    DropOldest,
    /// Terminate the process.
    Exit,
}

/// What happens to a dequeued line when no consumer is connected.
#[derive(Debug, Clone, Copy, PartialEq, Eq, Structural)]
pub enum NoConsumerPolicy {
    /// Put the line back in the queue and retry later.
    Buffer,
    /// Discard the line.
    Drop,
    /// Discard the line and pause upstream reading.
    Pause,
    /// Terminate the process.
    Exit,
}

/// Delivery guarantee towards consumers.
#[derive(Debug, Clone, Copy, PartialEq, Eq, Structural)]
pub enum DeliveryMode {
    AtMostOnce,
    ApplicationAck,
}

/// All settings of the broker.
#[derive(Debug, Clone)]
pub struct Config {
    pub upstream_host: String,
    pub upstream_port: u16,
    pub upstream_connect_timeout_ms: u64,
    pub upstream_read_timeout_ms: u64,
    pub reconnect_min_ms: u64,
    pub reconnect_max_ms: u64,
    pub listen: String,
    pub framing: String,
    pub max_line_bytes: usize,
    pub preserve_line_ending: bool,
    pub ais_multipart_mode: MultipartMode,
    pub load_balance_strategy: LoadBalanceStrategy,
    pub queue_max_messages: usize,
    pub queue_max_bytes: usize,
    pub backpressure_policy: BackpressurePolicy,
    pub no_consumer_policy: NoConsumerPolicy,
    pub delivery: DeliveryMode,
    pub metrics_listen: String,
    pub multipart_timeout_ms: u64,
    pub downstream_allow_cidr: Option<String>,
    pub downstream_tls_cert: Option<String>,
    pub downstream_tls_key: Option<String>,
    pub upstream_tls: bool,
}

} // verus!
