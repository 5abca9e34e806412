[package]
name = "ty_ide"
version = "0.1.0"
edition = "2021"
publish = false

[dependencies]
ruff_diagnostics = "=0.0.8"
ruff_python_ast = "=0.0.8"
ruff_python_codegen = "=0.0.8"
# the tests and the app parse sources with it
ruff_python_parser = "=0.0.8"
ruff_python_stdlib = "=0.0.8"
ruff_python_trivia = "=0.0.8"
ruff_source_file = "=0.0.8"
ruff_text_size = "=0.0.8"
rustc-hash = "=2.1.3"
# nothing here names salsa: ty_module_resolver is built on it, and only builds with these releases
salsa = { version = "=0.28.2", default-features = false }
salsa-macro-rules = "=0.28.2"
salsa-macros = "=0.28.2"
ty_module_resolver = "=0.0.8"
