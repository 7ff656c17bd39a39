[package]
name = "ledger"
version = "0.1.0"
edition = "2021"
publish = false

[dependencies]
calamine = "0.23"
clap = { version = "4", features = ["derive"] }
itertools = "0.12"
polars = { version = "0.38", default-features = false, features = ["lazy", "parquet", "csv", "fmt", "temporal", "dynamic_group_by", "dtype-date", "dtype-datetime", "dtype-duration", "dtype-decimal", "rows"] }
