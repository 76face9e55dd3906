//! Manifest-driven model resolution, configuration bookkeeping and the
//! transcription helpers of a local AI host, with their contracts.

pub mod text;
pub mod json;
pub mod json_text;
pub mod num;
pub mod hardware;
pub mod resolver;
pub mod sorted;
pub mod config;
pub mod parakeet;
pub mod segmenter;
pub mod conversations;
pub mod ort_setup;
pub mod transcribe;
pub mod embedder;
pub mod api;
pub mod api_models;
pub mod ollama;
pub mod cli;
pub mod preload;
pub mod purge;
pub mod manifest;
pub mod iso;
pub mod laws;
pub mod speech_laws;
pub mod moonshine;
