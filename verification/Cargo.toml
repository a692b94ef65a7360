[package]
name = "git-branchless"
version = "0.1.0"
edition = "2021"
publish = false

[dependencies]
bstr = "1"
chrono = { version = "0.4", default-features = false, features = ["std"] }
console = "0.15"
cursive = { version = "*", default-features = false }
eyre = "0.6"
git2 = { version = "*", default-features = false }
itertools = "0.10"
rusqlite = { version = "*", features = ["bundled"] }
textwrap = "0.16"
thiserror = "1"
tracing = "0.1"
