//! Verified core of the orangu tools.

pub mod blocks;
pub mod clock;
pub mod coordinator;
pub mod coordinator_shell;
pub mod format;
pub mod gguf;
pub mod gguf_shell;
pub mod graph_status;
pub mod hadamard;
pub mod ieee;
pub mod image;
pub mod json;
pub mod latent;
pub mod llm;
pub mod logging;
pub mod lora;
pub mod mcp;
pub mod merged;
pub mod multi;
pub mod prefill_backend;
pub mod quant;
pub mod quantize;
pub mod safetensors;
pub mod scheduler;
pub mod selection;
pub mod session_picker;
pub mod shell_completions;
pub mod table;
pub mod text;
