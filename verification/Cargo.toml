[package]
name = "agent_event_bus"
version = "0.1.0"
edition = "2021"
publish = false

[dependencies]
serde_json = "1"
