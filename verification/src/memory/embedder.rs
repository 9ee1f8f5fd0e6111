//! Where embeddings are asked for, and what text is sent. The HTTP call is
//! made by the caller.

use vstd::prelude::*;

use crate::text::{concat, string_of, to_chars, trim, trim_str};

verus! {

/// `s` without any `/` at its end.
pub open spec fn without_trailing_slashes(s: Seq<char>) -> Seq<char>
    decreases s.len(),
{
    if s.len() > 0 && s.last() == '/' {
        without_trailing_slashes(s.drop_last())
    } else {
        s
    }
}

/// The embeddings service's base URL and model.
pub struct EmbeddingEndpoint {
    base_url: String,
    model: String,
}

impl EmbeddingEndpoint {
    pub closed spec fn base_url_spec(&self) -> Seq<char> {
        self.base_url@
    }

    pub closed spec fn model_spec(&self) -> Seq<char> {
        self.model@
    }

    /// The service at `base_url` (trailing slashes dropped) with `model`.
    pub fn new(base_url: &str, model: &str) -> (e: EmbeddingEndpoint)
        ensures
            e.base_url_spec() == without_trailing_slashes(base_url@),
            e.model_spec() == model@,
    {
        let chars = to_chars(base_url);
        let mut end = chars.len();
        assert(chars@.take(end as int) =~= chars@);
        while end > 0 && chars[end - 1] == '/'
            invariant
                end <= chars.len(),
                without_trailing_slashes(chars@.take(end as int)) == without_trailing_slashes(chars@),
            decreases end,
        {
            assert(chars@.take(end as int).drop_last() =~= chars@.take(end - 1));
            end = end - 1;
        }
        let base = string_of(&chars, 0, end);
        assert(chars@.subrange(0, end as int) =~= chars@.take(end as int));
        EmbeddingEndpoint { base_url: base, model: model.to_owned() }
    }

    /// The base URL.
    pub fn base_url(&self) -> (s: &str)
        ensures
            s@ == self.base_url_spec(),
    {
        self.base_url.as_str()
    }

    /// The model.
    pub fn model(&self) -> (s: &str)
        ensures
            s@ == self.model_spec(),
    {
        self.model.as_str()
    }

    /// The URL embeddings are posted to: the base URL and `/v1/embeddings`.
    pub fn embeddings_url(&self) -> (s: String)
        ensures
            s@ == self.base_url_spec() + "/v1/embeddings"@,
    {
        concat(self.base_url.as_str(), "/v1/embeddings")
    }
}

/// The text sent for an input: the input trimmed, or nothing (no request is
/// made, and the embedding is empty) when that is empty.
pub fn embedding_input(input: &str) -> (r: Option<String>)
    ensures
        match r {
            Some(t) => t@ == trim(input@) && trim(input@).len() > 0,
            None => trim(input@).len() == 0,
        },
{
    let trimmed = trim_str(input);
    if trimmed.as_str().is_empty() {
        None
    } else {
        Some(trimmed)
    }
}

} // verus!
