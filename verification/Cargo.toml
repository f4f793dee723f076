[package]
name = "tasktrack"
version = "0.1.0"
edition = "2021"
publish = false

[dependencies]
bcrypt = "*"
chrono = "0.4"
rocket = { version = "0.5", features = ["secrets"] }
rocket_db_pools = { version = "*", features = ["sqlx_sqlite"] }
rocket_dyn_templates = { version = "*", features = ["tera"] }
sqlx = { version = "*", features = ["sqlite"] }
