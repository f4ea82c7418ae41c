[package]
name = "tone_clone"
version = "0.1.0"
edition = "2021"
publish = false

[dependencies]
async-trait = "=0.1.92"
clap = { version = "=4.6.7", features = ["derive"] }
dirs = "=7.0.0"
moosicbox_json_utils = { version = "=0.5.0", default-features = false, features = ["database"] }
serde_json = "=1.0.154"
switchy_async = { version = "=0.5.0", default-features = false, features = ["tokio", "sync"] }
switchy_database = { version = "=0.5.0", default-features = false, features = ["raw-sql", "sqlite-rusqlite", "schema"] }
switchy_database_connection = { version = "=0.5.0", default-features = false, features = ["sqlite-rusqlite", "raw-sql"] }
switchy_schema = { version = "=0.5.0", default-features = false, features = ["code", "raw-sql"] }
thiserror = "=2.0.21"
tokio = { version = "=1.54.1", features = ["macros", "rt-multi-thread"] }
