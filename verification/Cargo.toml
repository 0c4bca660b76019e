[package]
name = "mpvserve"
version = "0.1.0"
edition = "2021"
publish = false

[dependencies]
anyhow = "*"
async-trait = "*"
clap = { version = "*", features = ["derive"] }
home = "*"
log = "*"
md5 = "*"
rocket = { version = "*", default-features = false, features = ["json"] }
rocket_db_pools = "*"
rocket_dyn_templates = { version = "*", features = ["handlebars"] }
rocket_seek_stream = "*"
sea-orm = { version = "*", default-features = false, features = ["macros", "runtime-tokio-rustls", "sqlx-sqlite"] }
serde = { version = "*", features = ["derive"] }
shrinkwraprs = "*"
urlencoding = "*"
uuid = { version = "*", features = ["v4"] }
