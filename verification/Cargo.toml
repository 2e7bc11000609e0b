[package]
name = "memory_scanner_lib"
version = "0.1.0"
edition = "2021"
publish = false

[dependencies]
winapi = { version = "0.3", features = ["memoryapi", "winnt", "processthreadsapi", "handleapi", "minwindef"] }
