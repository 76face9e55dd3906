//! Speaker-embedding backend: model-file resolution and warm-up checks.

use vstd::prelude::*;
use crate::text::{join_path, spec_join};

verus! {

/// The shortest slice, in 16 kHz samples, worth embedding (half a second).
pub const MIN_EMBED_SAMPLES: usize = 8000;

pub struct Embedder {
    pub model_name: String,
    pub dim: Option<usize>,
}

/// Why the embedder cannot run.
#[derive(Debug, Clone)]
pub enum EmbedderError {
    /// The ONNX file is not on disk; the path that was looked at.
    Missing(String),
}

impl EmbedderError {
    /// The message the error is reported with.
    pub fn message(&self) -> (r: String)
        ensures
            match self {
                EmbedderError::Missing(p) => r@ == "embedder ONNX missing: "@ + p@,
            },
    {
        match self {
            EmbedderError::Missing(p) => crate::text::concat("embedder ONNX missing: ", p.as_str()),
        }
    }
}

impl Embedder {
    /// An embedder for model `name`, not yet warmed up.
    pub fn new(name: &str) -> (r: Embedder)
        ensures
            r.model_name@ == name@,
            r.dim is None,
    {
        Embedder { model_name: name.to_string(), dim: None }
    }

    /// The ONNX file of the model, under the model's directory.
    pub fn model_path(&self, model_dir: &str) -> (r: String)
        ensures
            r@ == spec_join(model_dir@, "embedder.onnx"@),
    {
        join_path(model_dir, "embedder.onnx")
    }

    /// Ready when the model file exists; otherwise the missing path.
    pub fn warm_up(&mut self, model_dir: &str, file_exists: bool) -> (r: Result<(), EmbedderError>)
        ensures
            r is Ok == file_exists,
            r matches Err(EmbedderError::Missing(p)) ==> p@ == spec_join(model_dir@, "embedder.onnx"@),
            final(self).model_name == old(self).model_name,
            final(self).dim == old(self).dim,
    {
        if !file_exists {
            return Err(EmbedderError::Missing(self.model_path(model_dir)));
        }
        Ok(())
    }

    /// The embedding width, once known.
    pub fn dim(&self) -> (r: Option<usize>)
        ensures
            r == self.dim,
    {
        self.dim
    }

    /// Whether a slice of `len` samples is long enough to embed.
    pub fn embeddable(len: usize) -> (r: bool)
        ensures
            r == (len >= MIN_EMBED_SAMPLES),
    {
        len >= MIN_EMBED_SAMPLES
    }
}

} // verus!
