//! Token counts and context sizes of language models, as `tiktoken_rs` gives them.
//!
//! Nothing in this module is proved. Each function hands its arguments to one
//! function of `tiktoken_rs`, and its contract gives the result a name, so that
//! callers can say what they do with it.

use crate::text::text_len;
use vstd::prelude::*;

verus! {

/// The most bytes of a text that is handed over for counting.
///
/// `tiktoken_rs` splits a text by a pattern of `fancy_regex` and unwraps what
/// the matcher returns. The matcher keeps a stack of at most 1,000,000 entries,
/// onto which the part `\s+(?!\S)` of the pattern puts one entry for each
/// character of a run of white space, and it returns an error when the stack
/// is full or after 1,000,000 steps back. A text within this bound brings
/// about neither.
pub const MAX_COUNTED_BYTES: usize = 500_000;

/// The encoding of a model, `tiktoken_rs::CoreBPE`. Verus sees nothing inside it.
#[verifier::external_type_specification]
#[verifier::external_body]
pub struct ExCoreBPE(tiktoken_rs::CoreBPE);

/// The error of `tiktoken_rs`, `anyhow::Error`. Verus sees nothing inside it.
#[verifier::external_type_specification]
#[verifier::external_body]
pub struct ExAnyhowError(anyhow::Error);

/// The most tokens that `model` takes in one request, as
/// `tiktoken_rs::model::get_context_size` returns it.
pub uninterp spec fn context_size(model: Seq<char>) -> usize;

/// The tokens that one chat message costs with `model`, as
/// `tiktoken_rs::num_tokens_from_messages` returns them for that message alone,
/// reply priming included; `None` where it returns an error.
pub uninterp spec fn chat_tokens(model: Seq<char>, role: Seq<char>, content: Seq<char>) -> Option<
    usize,
>;

/// The encoding that `tiktoken_rs::get_bpe_from_model` returns for `model`;
/// `None` where it returns an error.
pub uninterp spec fn model_encoding(model: Seq<char>) -> Option<tiktoken_rs::CoreBPE>;

/// The tokens into which `CoreBPE::encode_with_special_tokens` splits `text`.
pub uninterp spec fn special_tokens(encoding: tiktoken_rs::CoreBPE, text: Seq<char>) -> Seq<usize>;

/// Calls `tiktoken_rs::model::get_context_size`, which looks the model's name up
/// in a fixed table. The contract claims only that the result depends on the
/// name alone.
#[verifier::external_body]
pub(crate) fn get_context_size(model: &str) -> (size: usize)
    ensures
        size == context_size(model@),
{
    tiktoken_rs::model::get_context_size(model)
}

/// Calls `tiktoken_rs::num_tokens_from_messages` with one message that has the
/// given role and content and no name. The contract claims that the outcome,
/// count or error, depends on model, role and content alone.
///
/// The outside function panics where its pattern matcher runs out of stack, and
/// it adds the counts up in an `i32`. Within the bound required here neither
/// happens: no token is shorter than a byte.
#[verifier::external_body]
pub(crate) fn num_tokens_from_message(model: &str, role: &str, content: &str) -> (count: Result<
    usize,
    anyhow::Error,
>)
    requires
        text_len(role@) <= MAX_COUNTED_BYTES,
        text_len(content@) <= MAX_COUNTED_BYTES,
    ensures
        match count {
            Ok(n) => chat_tokens(model@, role@, content@) == Some(n),
            Err(_) => chat_tokens(model@, role@, content@) is None,
        },
{
    let message = tiktoken_rs::ChatCompletionRequestMessage {
        role: role.to_string(),
        content: Some(content.to_string()),
        name: None,
        function_call: None,
    };
    tiktoken_rs::num_tokens_from_messages(model, &[message])
}

/// Calls `tiktoken_rs::get_bpe_from_model`, which builds the encoding of the
/// model from tables held in the crate. The contract claims that the outcome,
/// encoding or error, depends on the model's name alone.
#[verifier::external_body]
pub(crate) fn get_bpe_from_model(model: &str) -> (encoding: Result<
    tiktoken_rs::CoreBPE,
    anyhow::Error,
>)
    ensures
        match encoding {
            Ok(bpe) => model_encoding(model@) == Some(bpe),
            Err(_) => model_encoding(model@) is None,
        },
{
    tiktoken_rs::get_bpe_from_model(model)
}

/// Calls `CoreBPE::encode_with_special_tokens`. The contract claims that the
/// tokens depend on the encoding and the text alone.
///
/// The outside function panics where its pattern matcher runs out of stack,
/// which the bound required here excludes.
#[verifier::external_body]
pub(crate) fn encode_with_special_tokens(encoding: &tiktoken_rs::CoreBPE, text: &str) -> (tokens:
    Vec<usize>)
    requires
        text_len(text@) <= MAX_COUNTED_BYTES,
    ensures
        tokens@ == special_tokens(*encoding, text@),
{
    encoding.encode_with_special_tokens(text)
}

} // verus!
