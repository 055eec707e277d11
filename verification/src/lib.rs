//! Verified core of the Pulsur infrastructure toolkit: fundamental data
//! structures, an HTTP/1.x and WebSocket codec, rate limiting, circuit
//! breaking, load balancing, a durable job queue, reverse-proxy routing
//! and gateway plugin decisions.

pub mod stack;
pub mod linked_list;
pub mod hash_map;
pub mod text;
pub mod http;
pub mod ws;
pub mod uuid_text;
pub mod queue;
pub mod wal;
pub mod queue_runtime;
pub mod queue_service;
pub mod rate_limit;
pub mod circuit_breaker;
pub mod load_balancer;
pub mod proxy;
pub mod gateway;
pub mod config;
pub mod observability;
