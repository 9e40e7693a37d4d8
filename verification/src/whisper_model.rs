//! A loaded model that is cheap to share.

use crate::model::{ModelData, ModelFile};
use std::sync::Arc;
use vstd::prelude::*;

verus! {

/// Main entry point for Whisper speech-to-text inference.
///
/// Wraps a loaded model; the weights are shared.
pub struct WhisperModel {
    model_data: Arc<ModelData>,
}

impl View for WhisperModel {
    type V = crate::model::ModelView;

    closed spec fn view(&self) -> crate::model::ModelView {
        self.model_data@
    }
}

impl WhisperModel {
    /// Wraps a loaded model.
    pub fn from_data(data: ModelData) -> (m: WhisperModel)
        ensures
            m@ == data@,
    {
        WhisperModel { model_data: Arc::new(data) }
    }

    /// Loads a GGML model from bytes. `Ok(None)` means that the bytes are a GGUF file.
    pub fn from_bytes(bytes: &[u8]) -> (r: Result<Option<WhisperModel>, String>)
        ensures
            bytes@.len() >= 4 && bytes@.take(4) == crate::model::format::ggml_magic() ==> match crate::model::format::ggml_model(
                bytes@,
            ) {
                Ok(m) => r is Ok && r->Ok_0 is Some && (r->Ok_0)->0@ == m,
                Err(e) => r is Err && r->Err_0@ == crate::model::format::failure_text(e),
            },
            bytes@.len() >= 4 && bytes@.take(4) == crate::model::format::gguf_magic() ==> r is Ok
                && r->Ok_0 is None,
            bytes@.len() < 4 ==> r is Err && r->Err_0@ == crate::model::format::failure_text(
                crate::model::format::LoadFailure::Magic,
            ),
            bytes@.len() >= 4 && bytes@.take(4) != crate::model::format::ggml_magic()
                && bytes@.take(4) != crate::model::format::gguf_magic() ==> r is Err && r->Err_0@
                == crate::model::format::failure_text(
                crate::model::format::LoadFailure::UnknownMagic(bytes@.take(4)),
            ),
    {
        proof {
            assert(crate::model::format::ggml_magic()[0] != crate::model::format::gguf_magic()[0]);
        }
        match ModelData::load_from_reader(bytes) {
            Ok(ModelFile::Ggml(m)) => Ok(Some(WhisperModel::from_data(m))),
            Ok(ModelFile::Gguf) => Ok(None),
            Err(e) => Err(e),
        }
    }

    /// The model.
    pub fn data(&self) -> (d: &ModelData)
        ensures
            d@ == self@,
    {
        &self.model_data
    }
}

} // verus!
