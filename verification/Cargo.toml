[package]
name = "minikafka"
version = "0.1.0"
edition = "2021"
publish = false

[dependencies]
kafka-protocol = "*"
bytes = "*"
indexmap = "*"
