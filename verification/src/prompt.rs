//! The prompt for a code generation request.
//!
//! The prompt names the language, shows the document with the selection between
//! markers, says what is asked for, and carries as many of the given snippets as
//! the model's context leaves room for once the reply is provided for.

use crate::lines::{join, join_lines, texts, Joiner};
use crate::candidate::{range_ok, InvalidRange};
use crate::outline::{marked_document, marked_selection};
use crate::packing::{pack_snippets, packed_prompts, packing_for, quoted_snippets};
use crate::snippet::PromptCodeSnippet;
use crate::text::{
    byte_len,
    is_range_of,
    lemma_whole_slice,
    lowercase,
    text_for_range,
    text_len,
    text_slice,
    to_lowercase,
};
use crate::tokens::{
    chat_tokens,
    context_size,
    get_context_size,
    num_tokens_from_message,
    MAX_COUNTED_BYTES,
};
use std::ops::Range;
use vstd::prelude::*;
use vstd::string::*;
use vstd::utf8::{is_ascii_chars, is_ascii_chars_encode_utf8};

verus! {

/// A snippet that costs this many tokens or more is not taken.
pub const MAXIMUM_SNIPPET_TOKEN_COUNT: usize = 500;

/// The tokens that are left free for the reply.
pub const RESERVED_TOKENS_FOR_GENERATION: usize = 1000;

/// What is asked for: new text at a position, or another text for a range.
pub enum CodegenKind {
    Transform { range: Range<usize> },
    Generate { position: usize },
}

/// The text of `part`, where there is one.
pub open spec fn text_of(part: Option<&str>) -> Option<Seq<char>> {
    match part {
        Some(text) => Some(text@),
        None => None,
    }
}

/// The line that says whom the model is to be.
pub open spec fn preamble(language: Option<Seq<char>>) -> Seq<char> {
    match language {
        Some(name) => "You're an expert "@ + name + " engineer.\n"@,
        None => "You're an expert engineer.\n"@,
    }
}

/// The line that announces the document.
pub open spec fn document_heading() -> Seq<char> {
    "The file you are currently working on has the following content:\n"@
}

/// The marked document in a code block with the given label.
pub open spec fn document_block(label: Option<Seq<char>>, content: Seq<char>) -> Seq<char> {
    match label {
        Some(label) => "```"@ + label + "\n"@ + content + "\n```"@,
        None => "```\n"@ + content + "\n```"@,
    }
}

/// The lines that say what is asked for.
pub open spec fn task_lines(user_prompt: Seq<char>, kind: CodegenKind) -> Seq<Seq<char>> {
    match kind {
        CodegenKind::Generate { .. } => seq![
            "In particular, the user's cursor is currently on the '<|START|>' span in the above outline, with no text selected."@,
            "Assume the cursor is located where the `<|START|` marker is."@,
            "Text can't be replaced, so assume your answer will be inserted at the cursor."@,
            "Generate text based on the users prompt: "@ + user_prompt,
        ],
        CodegenKind::Transform { .. } => seq![
            "In particular, the user has selected a section of the text between the '<|START|' and '|END|>' spans."@,
            "Modify the users code selected text based upon the users prompt: '"@ + user_prompt
                + "'"@,
            "You MUST reply with only the adjusted code (within the '<|START|' and '|END|>' spans), not the entire file."@,
        ],
    }
}

/// The line that binds the reply to the language, where one is known.
pub open spec fn language_lines(language: Option<Seq<char>>) -> Seq<Seq<char>> {
    match language {
        Some(name) => seq!["Your answer MUST always and only be valid "@ + name],
        None => Seq::empty(),
    }
}

/// The lines that say what the reply must not hold.
pub open spec fn discipline_lines() -> Seq<Seq<char>> {
    seq![
        "Never make remarks about the output."@,
        "Do not return any text, except the generated code."@,
        "Do not wrap your text in a Markdown block"@,
    ]
}

/// The lines of the prompt without snippets. `label` is what the code block of
/// the document is labelled with.
pub open spec fn prompt_lines(
    user_prompt: Seq<char>,
    language: Option<Seq<char>>,
    label: Option<Seq<char>>,
    text: Seq<char>,
    range: Range<usize>,
    kind: CodegenKind,
) -> Seq<Seq<char>> {
    seq![
        preamble(language),
        document_heading(),
        document_block(label, marked_document(text, range)),
    ] + task_lines(user_prompt, kind) + language_lines(language) + discipline_lines()
}

/// The lines with the snippets put behind the first of them.
pub open spec fn with_snippets(lines: Seq<Seq<char>>, snippets: Seq<Seq<char>>) -> Seq<Seq<char>> {
    if lines.len() == 0 {
        snippets
    } else {
        lines.take(1) + snippets + lines.skip(1)
    }
}

/// The tokens left for snippets when the prompt costs `count` tokens and the
/// model takes `max_context`: what stays beyond the prompt and the reserve for
/// the reply, and nothing where the prompt could not be counted.
pub open spec fn remaining_budget(count: Option<usize>, max_context: usize) -> nat {
    match count {
        Some(count) => if max_context - count - RESERVED_TOKENS_FOR_GENERATION > 0 {
            (max_context - count - RESERVED_TOKENS_FOR_GENERATION) as nat
        } else {
            0
        },
        None => 0,
    }
}

/// The tokens that a prompt costs as the one message of a user; `None` where it
/// cannot be counted: it is too long to be handed over, or counting fails.
pub open spec fn prompt_tokens(model: Seq<char>, prompt: Seq<char>) -> Option<usize> {
    if text_len(prompt) <= MAX_COUNTED_BYTES {
        chat_tokens(model, "user"@, prompt)
    } else {
        None
    }
}

/// The label of the document's code block: the language in lower case.
pub open spec fn block_label(language: Option<Seq<char>>) -> Option<Seq<char>> {
    match language {
        Some(name) => Some(lowercase(name)),
        None => None,
    }
}

/// The prompt for a request: its lines, and behind the first of them the
/// snippets that fit what the model's context leaves.
pub open spec fn content_prompt(
    user_prompt: Seq<char>,
    language: Option<Seq<char>>,
    text: Seq<char>,
    range: Range<usize>,
    kind: CodegenKind,
    quoted: Seq<Seq<char>>,
    model: Seq<char>,
) -> Seq<char> {
    let lines = prompt_lines(user_prompt, language, block_label(language), text, range, kind);
    let budget = remaining_budget(prompt_tokens(model, join_lines(lines)), context_size(model));
    let packing = packing_for(model, quoted, budget, MAXIMUM_SNIPPET_TOKEN_COUNT as nat);
    join_lines(with_snippets(lines, packed_prompts(quoted, packing.accepted)))
}

/// The tokens left for snippets when the prompt costs `count` tokens and the
/// model takes `max_context`.
pub fn remaining_tokens(count: Option<usize>, max_context: usize) -> (left: usize)
    ensures
        left == remaining_budget(count, max_context),
{
    match count {
        Some(count) => {
            if count >= max_context {
                0
            } else if max_context - count < RESERVED_TOKENS_FOR_GENERATION {
                0
            } else {
                max_context - count - RESERVED_TOKENS_FOR_GENERATION
            }
        },
        None => 0,
    }
}

/// Writes the document with the selection between its markers.
pub fn write_marked_document(text: &str, range: &Range<usize>) -> (result: Result<
    String,
    InvalidRange,
>)
    ensures
        result is Ok <==> range_ok(text@, *range),
        result matches Ok(content) ==> content@ == marked_document(text@, *range),
{
    if !is_range_of(text, range.start, range.end) {
        return Err(InvalidRange);
    }
    proof {
        lemma_whole_slice(text@);
    }
    let mut content = String::new();
    content.append(text_for_range(text, 0, range.start));
    if range.start == range.end {
        content.append("<|START|>");
    } else {
        content.append("<|START|");
        content.append(text_for_range(text, range.start, range.end));
        content.append("|END|>");
    }
    content.append(text_for_range(text, range.end, byte_len(text)));
    proof {
        let head = text_slice(text@, 0, range.start as int);
        assert(Seq::<char>::empty() + head == head);
        if range.start != range.end {
            assert(head + "<|START|"@ + text_slice(text@, range.start as int, range.end as int)
                + "|END|>"@ == head + marked_selection(text@, *range));
        }
    }
    Ok(content)
}

/// Writes the lines of the prompt without snippets. `label` is what the code
/// block of the document is labelled with.
pub fn write_prompt_lines(
    user_prompt: &str,
    language_name: Option<&str>,
    label: Option<&str>,
    text: &str,
    range: &Range<usize>,
    kind: &CodegenKind,
) -> (result: Result<Vec<String>, InvalidRange>)
    ensures
        result is Ok <==> range_ok(text@, *range),
        result matches Ok(lines) ==> texts(lines@) == prompt_lines(
            user_prompt@,
            text_of(language_name),
            text_of(label),
            text@,
            *range,
            *kind,
        ),
{
    let content = match write_marked_document(text, range) {
        Ok(content) => content,
        Err(error) => {
            return Err(error);
        },
    };
    let mut lines: Vec<String> = Vec::new();

    let mut line = String::new();
    match language_name {
        Some(name) => {
            line.append("You're an expert ");
            line.append(name);
            line.append(" engineer.\n");
        },
        None => {
            line.append("You're an expert engineer.\n");
        },
    }
    proof {
        assert(Seq::<char>::empty() + "You're an expert "@ == "You're an expert "@);
        assert(Seq::<char>::empty() + "You're an expert engineer.\n"@
            == "You're an expert engineer.\n"@);
    }
    lines.push(line);

    lines.push(String::from_str("The file you are currently working on has the following content:\n"));

    let mut block = String::new();
    match label {
        Some(label) => {
            block.append("```");
            block.append(label);
            block.append("\n");
        },
        None => {
            block.append("```\n");
        },
    }
    block.append(content.as_str());
    block.append("\n```");
    proof {
        assert(Seq::<char>::empty() + "```"@ == "```"@);
        assert(Seq::<char>::empty() + "```\n"@ == "```\n"@);
    }
    lines.push(block);
    let ghost head = lines@;

    match kind {
        CodegenKind::Generate { .. } => {
            lines.push(
                String::from_str(
                    "In particular, the user's cursor is currently on the '<|START|>' span in the above outline, with no text selected.",
                ),
            );
            lines.push(
                String::from_str("Assume the cursor is located where the `<|START|` marker is."),
            );
            lines.push(
                String::from_str(
                    "Text can't be replaced, so assume your answer will be inserted at the cursor.",
                ),
            );
            let mut task = String::from_str("Generate text based on the users prompt: ");
            task.append(user_prompt);
            lines.push(task);
        },
        CodegenKind::Transform { .. } => {
            lines.push(
                String::from_str(
                    "In particular, the user has selected a section of the text between the '<|START|' and '|END|>' spans.",
                ),
            );
            let mut task = String::from_str(
                "Modify the users code selected text based upon the users prompt: '",
            );
            task.append(user_prompt);
            task.append("'");
            lines.push(task);
            lines.push(
                String::from_str(
                    "You MUST reply with only the adjusted code (within the '<|START|' and '|END|>' spans), not the entire file.",
                ),
            );
        },
    }
    let ghost tasked = lines@;
    proof {
        assert(texts(tasked) == texts(head) + task_lines(user_prompt@, *kind));
    }

    match language_name {
        Some(name) => {
            let mut valid = String::from_str("Your answer MUST always and only be valid ");
            valid.append(name);
            lines.push(valid);
        },
        None => {},
    }
    let ghost bound = lines@;
    proof {
        assert(texts(bound) == texts(tasked) + language_lines(text_of(language_name)));
    }

    lines.push(String::from_str("Never make remarks about the output."));
    lines.push(String::from_str("Do not return any text, except the generated code."));
    lines.push(String::from_str("Do not wrap your text in a Markdown block"));
    proof {
        assert(texts(lines@) == texts(bound) + discipline_lines());
        assert(texts(head) == seq![
            preamble(text_of(language_name)),
            document_heading(),
            document_block(text_of(label), marked_document(text@, *range)),
        ]);
    }
    Ok(lines)
}

/// Counts the tokens that a prompt costs as the one message of a user.
fn count_prompt_tokens(model: &str, prompt: &str) -> (count: Option<usize>)
    ensures
        count == prompt_tokens(model@, prompt@),
{
    if byte_len(prompt) > MAX_COUNTED_BYTES {
        return None;
    }
    proof {
        reveal_strlit("user");
        assert(is_ascii_chars("user"@));
        is_ascii_chars_encode_utf8("user"@);
    }
    match num_tokens_from_message(model, "user", prompt) {
        Ok(count) => Some(count),
        Err(_) => None,
    }
}

/// Joins the lines of a prompt, with the snippets behind the first line.
pub fn join_with_snippets(lines: &Vec<String>, snippets: &Vec<String>) -> (prompt: String)
    ensures
        prompt@ == join_lines(with_snippets(texts(lines@), texts(snippets@))),
{
    let first: usize = if lines.len() == 0 {
        0
    } else {
        1
    };
    let mut joiner = Joiner::new();
    joiner.push_lines(lines, 0, first, Ghost(Seq::empty()));
    let ghost head = Seq::<Seq<char>>::empty() + texts(lines@).subrange(0, first as int);
    joiner.push_lines(snippets, 0, snippets.len(), Ghost(head));
    let ghost middle = head + texts(snippets@).subrange(0, snippets@.len() as int);
    joiner.push_lines(lines, first, lines.len(), Ghost(middle));
    let ghost all = middle + texts(lines@).subrange(first as int, lines@.len() as int);
    proof {
        let l = texts(lines@);
        let s = texts(snippets@);
        assert(s.subrange(0, snippets@.len() as int) == s);
        if lines@.len() == 0 {
            assert(all == s);
        } else {
            assert(head == l.take(1));
            assert(l.subrange(first as int, lines@.len() as int) == l.skip(1));
        }
    }
    joiner.finish(Ghost(all))
}

/// The prompt for a request on `text` at `range`: who the model is to be, the
/// snippets that fit, the document with the selection marked, what is asked
/// for, and what the reply must not hold.
///
/// Fails where `range` is inverted, leaves the document or splits a character,
/// and only there.
pub fn generate_content_prompt(
    user_prompt: String,
    language_name: Option<&str>,
    text: &str,
    range: Range<usize>,
    kind: CodegenKind,
    search_results: Vec<PromptCodeSnippet>,
    model: &str,
) -> (result: Result<String, InvalidRange>)
    ensures
        result is Ok <==> range_ok(text@, range),
        result matches Ok(prompt) ==> prompt@ == content_prompt(
            user_prompt@,
            text_of(language_name),
            text@,
            range,
            kind,
            quoted_snippets(search_results@),
            model@,
        ),
{
    let lines = match language_name {
        Some(name) => {
            let label = to_lowercase(name);
            write_prompt_lines(
                user_prompt.as_str(),
                language_name,
                Some(label.as_str()),
                text,
                &range,
                &kind,
            )
        },
        None => write_prompt_lines(user_prompt.as_str(), language_name, None, text, &range, &kind),
    };
    let lines = match lines {
        Ok(lines) => lines,
        Err(error) => {
            return Err(error);
        },
    };
    let current = join(&lines);
    let count = count_prompt_tokens(model, current.as_str());
    let budget = remaining_tokens(count, get_context_size(model));
    let packed = pack_snippets(&search_results, budget, MAXIMUM_SNIPPET_TOKEN_COUNT, model);
    Ok(join_with_snippets(&lines, &packed.prompts))
}

} // verus!
