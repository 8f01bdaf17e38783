//! The embedding backends that a search can use, as far as their choice and
//! their address go. The requests themselves are made by the caller.

use vstd::prelude::*;
use vstd::string::StringExecFns;

verus! {

/// The models that the Ollama service offers for embeddings.
pub const OLLAMA_MODELS: [&'static str; 3] = ["all-minilm", "mxbai-embed-large", "nomic-embed-text"];

/// The address of the Ollama service.
pub open spec fn ollama_address() -> Seq<char> {
    "http://localhost:11434"@
}

/// The model that is used where none is chosen.
pub open spec fn default_model() -> Seq<char> {
    "all-minilm"@
}

/// The path of the service's embeddings request.
pub open spec fn embeddings_path() -> Seq<char> {
    "/api/embeddings"@
}

/// A client of the Ollama embedding service: where the service is, and which
/// model it is asked for.
pub struct OllamaEmbeddingsClient {
    pub base_url: &'static str,
    pub model: String,
}

impl OllamaEmbeddingsClient {
    /// A client of the local service for `model`, or for the default model
    /// where none is given.
    pub fn new(model: &Option<String>) -> (out: Self)
        ensures
            out.base_url@ == ollama_address(),
            out.model@ == match *model {
                Some(chosen) => chosen@,
                None => default_model(),
            },
    {
        let model = match model {
            Some(chosen) => chosen.clone(),
            None => String::from_str("all-minilm"),
        };
        OllamaEmbeddingsClient { base_url: "http://localhost:11434", model }
    }

    /// The address to which embeddings requests are sent.
    pub fn embeddings_url(&self) -> (out: String)
        ensures
            out@ == self.base_url@ + embeddings_path(),
    {
        let mut out = String::from_str(self.base_url);
        out.append("/api/embeddings");
        out
    }
}

/// The backend that a search uses.
pub enum EmbeddingsClientImpl {
    Ollama(OllamaEmbeddingsClient),
}

impl EmbeddingsClientImpl {
    /// The model that the backend is asked for.
    pub fn model(&self) -> (out: &String)
        ensures
            out@ == match *self {
                EmbeddingsClientImpl::Ollama(client) => client.model@,
            },
    {
        match self {
            EmbeddingsClientImpl::Ollama(client) => &client.model,
        }
    }
}

} // verus!
