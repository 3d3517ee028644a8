[package]
name = "plenty_of_fluids"
version = "0.1.0"
edition = "2021"
publish = false

[dependencies]
sha1 = "0.10"
url = "2"
curl = { version = "0.4", default-features = false }
futures = "0.3"
reqwest = { version = "*", default-features = false, features = ["blocking"] }
tokio = { version = "1", features = ["net", "io-util", "time", "sync", "rt"] }

[dev-dependencies]
bencode = "*"
