[package]
name = "kube-node-dns"
version = "0.1.0"
edition = "2021"
publish = false

[dependencies]
aws-config = { version = "1", features = ["behavior-version-latest"] }
aws-sdk-route53 = "1"
clap = { version = "4", features = ["derive"] }
futures = "0.3"
humantime = "2"
ip_rfc = "*"
joinery = "*"
k8s-openapi = { version = "*", features = ["latest"] }
kube = { version = "*", features = ["client", "runtime"] }
miette = "7"
network-interface = "*"
tokio = { version = "1", features = ["macros", "rt-multi-thread", "signal", "sync", "time"] }
tracing = "0.1"
tracing-subscriber = { version = "0.3", features = ["env-filter"] }
