//! A wire-level codec for the Redis serialization protocol (RESP), with a
//! proxy relay step machine and a traffic-statistics engine built on it.
#![allow(unused_imports)]

pub mod decoder;
pub mod encoder;
pub mod laws;
pub mod numbers;
pub mod relay;
pub mod stats;
pub mod value;
