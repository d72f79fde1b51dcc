[package]
name = "typescript-rs"
version = "0.1.0"
edition = "2021"
publish = false

[dependencies]
oxc_allocator = "=0.143.0"
oxc_ast = "=0.143.0"
oxc_ast_visit = "=0.143.0"
oxc_diagnostics = "=0.143.0"
oxc_parser = "=0.143.0"
oxc_semantic = "=0.143.0"
oxc_span = "=0.143.0"
tokio = { version = "=1.54.1", features = ["rt-multi-thread", "io-std", "macros"] }
tower-lsp-server = "=0.23.0"
napi = "=3.16.1"
napi-derive = "=3.7.0"
