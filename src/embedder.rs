//! The embedding provider's configuration and the decisions taken on its
//! answers; the requests themselves are made outside the library.

use vstd::prelude::*;
use crate::store::str_eq;
use crate::text::{chars_of, string_of};

verus! {

/// Which provider, model and endpoint to use, and the vector length the
/// model produces.
#[derive(Debug, Clone)]
pub struct EmbedderConfig {
    pub provider: String,
    pub model: String,
    pub endpoint: Option<String>,
    pub dimensions: usize,
}

/// The endpoint used when none is configured.
pub const DEFAULT_ENDPOINT: &'static str = "http://localhost:11434";

impl Default for EmbedderConfig {
    fn default() -> (r: EmbedderConfig)
        ensures
            r.provider@ == "ollama"@,
            r.model@ == "nomic-embed-text"@,
            r.endpoint.is_none(),
            r.dimensions == 768,
    {
        EmbedderConfig {
            provider: string_of(chars_of("ollama").as_slice()),
            model: string_of(chars_of("nomic-embed-text").as_slice()),
            endpoint: None,
            dimensions: 768,
        }
    }
}

/// Why a request to the provider failed.
#[derive(Debug, Clone, PartialEq, Eq)]
pub enum EmbedError {
    /// The provider could not be reached.
    Unreachable,
    /// The provider answered that the model is not there.
    ModelNotFound,
    /// Any other unsuccessful answer, with its status.
    Provider(u16),
    /// A non-empty batch got no vectors back.
    EmptyResponse,
    /// The model is not among the provider's models.
    ModelNotInstalled,
    /// A batch got a number of vectors other than one per text.
    WrongCount,
}

/// The text with every trailing `/` removed.
pub open spec fn trim_slashes(s: Seq<char>) -> Seq<char>
    decreases s.len(),
{
    if s.len() > 0 && s.last() == '/' {
        trim_slashes(s.drop_last())
    } else {
        s
    }
}

/// The configured endpoint, or the default one, without trailing slashes.
pub fn endpoint_of(config: &EmbedderConfig) -> (r: String)
    ensures
        r@ == trim_slashes(
            match config.endpoint {
                Some(e) => e@,
                None => DEFAULT_ENDPOINT@,
            },
        ),
{
    let chars = match &config.endpoint {
        Some(e) => chars_of(e.as_str()),
        None => chars_of(DEFAULT_ENDPOINT),
    };
    let ghost full = chars@;
    let mut n = chars.len();
    assert(full.take(n as int) =~= full);
    while n > 0 && chars[n - 1] == '/'
        invariant
            n <= chars@.len(),
            full == chars@,
            trim_slashes(full) == trim_slashes(full.take(n as int)),
        decreases n,
    {
        assert(full.take(n as int).drop_last() =~= full.take(n - 1));
        n = n - 1;
    }
    assert(trim_slashes(full.take(n as int)) == full.take(n as int));
    string_of(crate::store::vec_prefix(&chars, n).as_slice())
}

/// A model name counts as available when it is the configured model or
/// `<model>:latest`.
pub open spec fn names_model(name: Seq<char>, model: Seq<char>) -> bool {
    name == model || name == model + ":latest"@
}

/// Whether the provider's model list holds the configured model.
pub fn model_available(names: &Vec<String>, model: &str) -> (r: bool)
    ensures
        r == exists|i: int| 0 <= i < names@.len() && names_model(#[trigger] names@[i]@, model@),
{
    let mut latest = chars_of(model);
    let suffix = chars_of(":latest");
    let mut j: usize = 0;
    let ghost base = latest@;
    while j < suffix.len()
        invariant
            j <= suffix@.len(),
            latest@ == base + suffix@.take(j as int),
        decreases suffix@.len() - j,
    {
        latest.push(suffix[j]);
        j = j + 1;
        assert(latest@ =~= base + suffix@.take(j as int));
    }
    assert(suffix@.take(j as int) =~= suffix@);
    let latest_name = string_of(latest.as_slice());
    let mut i: usize = 0;
    while i < names.len()
        invariant
            i <= names@.len(),
            latest_name@ == model@ + ":latest"@,
            forall|k: int| 0 <= k < i ==> !names_model(#[trigger] names@[k]@, model@),
        decreases names@.len() - i,
    {
        if str_eq(names[i].as_str(), model) || str_eq(names[i].as_str(), latest_name.as_str()) {
            return true;
        }
        i = i + 1;
    }
    false
}

/// The error for an unsuccessful answer: a missing model when the status is
/// 404 or the body says "not found", otherwise a provider error.
pub fn classify_failure(status: u16, body: &str) -> (r: EmbedError)
    ensures
        r == (if status == 404 || crate::text::contains_seq(body@, "not found"@) {
            EmbedError::ModelNotFound
        } else {
            EmbedError::Provider(status)
        }),
{
    let text = chars_of(body);
    let pattern = chars_of("not found");
    if status == 404 || crate::text::contains(&text, &pattern) {
        EmbedError::ModelNotFound
    } else {
        EmbedError::Provider(status)
    }
}

/// The answer to a batch of `texts` texts, accepted only with one vector per
/// text: no vectors for a non-empty batch is a malformed answer, any other
/// count a provider error.
pub fn check_batch(texts: usize, vectors: Vec<Vec<u32>>) -> (r: Result<Vec<Vec<u32>>, EmbedError>)
    ensures
        texts > 0 && vectors@.len() == 0 ==> r == Err::<Vec<Vec<u32>>, EmbedError>(EmbedError::EmptyResponse),
        vectors@.len() > 0 && vectors@.len() != texts ==> r == Err::<Vec<Vec<u32>>, EmbedError>(EmbedError::WrongCount),
        vectors@.len() == texts ==> (r matches Ok(v) && v@ == vectors@),
{
    if texts > 0 && vectors.len() == 0 {
        return Err(EmbedError::EmptyResponse);
    }
    if vectors.len() != texts {
        return Err(EmbedError::WrongCount);
    }
    Ok(vectors)
}

/// The vector of a single-text request: the first one returned.
pub fn first_vector(mut vectors: Vec<Vec<u32>>) -> (r: Result<Vec<u32>, EmbedError>)
    ensures
        vectors@.len() == 0 ==> r == Err::<Vec<u32>, EmbedError>(EmbedError::EmptyResponse),
        vectors@.len() > 0 ==> (r matches Ok(v) && v@ == vectors@[0]@),
{
    if vectors.len() == 0 {
        return Err(EmbedError::EmptyResponse);
    }
    let v = vectors.swap_remove(0);
    Ok(v)
}

} // verus!
