use assistant_prompts::lines::join;
use assistant_prompts::candidate::InvalidRange;
use assistant_prompts::prompt::{
    generate_content_prompt, join_with_snippets, remaining_tokens, write_marked_document,
    write_prompt_lines, CodegenKind,
};
use assistant_prompts::snippet::PromptCodeSnippet;

const HEADING: &str =
    "You are working inside a large repository, here are a few code snippets that may be useful";

fn strings(lines: &[&str]) -> Vec<String> {
    lines.iter().map(|line| line.to_string()).collect()
}

#[test]
fn remaining_tokens_are_what_the_prompt_and_the_reserve_leave() {
    assert_eq!(remaining_tokens(Some(150), 8192), 7042);
    assert_eq!(remaining_tokens(Some(0), 1000), 0);
    assert_eq!(remaining_tokens(Some(0), 1001), 1);
    assert_eq!(remaining_tokens(Some(7192), 8192), 0);
    assert_eq!(remaining_tokens(Some(7191), 8192), 1);
    assert_eq!(remaining_tokens(Some(9000), 8192), 0);
    assert_eq!(remaining_tokens(Some(usize::MAX), 8192), 0);
    assert_eq!(remaining_tokens(Some(5), usize::MAX), usize::MAX - 1005);
    assert_eq!(remaining_tokens(None, 8192), 0);
}

#[test]
fn lines_are_joined_by_line_breaks() {
    assert_eq!(join(&strings(&[])), "");
    assert_eq!(join(&strings(&["a"])), "a");
    assert_eq!(join(&strings(&["a", "", "b\n", "c"])), "a\n\nb\n\nc");
}

#[test]
fn snippets_stand_behind_the_first_line() {
    assert_eq!(join_with_snippets(&strings(&["p", "q", "r"]), &strings(&["s", "t"])), "p\ns\nt\nq\nr");
    assert_eq!(join_with_snippets(&strings(&["p", "q"]), &strings(&[])), "p\nq");
    assert_eq!(join_with_snippets(&strings(&["p"]), &strings(&["s"])), "p\ns");
    assert_eq!(join_with_snippets(&strings(&[]), &strings(&["s", "t"])), "s\nt");
}

#[test]
fn document_is_marked_at_the_cursor_or_around_the_selection() {
    assert_eq!(write_marked_document("let x = 1;", &(4..4)), Ok("let <|START|>x = 1;".to_string()));
    assert_eq!(
        write_marked_document("let x = 1;", &(4..5)),
        Ok("let <|START|x|END|> = 1;".to_string())
    );
    assert_eq!(write_marked_document("ab", &(0..2)), Ok("<|START|ab|END|>".to_string()));
    assert_eq!(write_marked_document("ab", &(2..2)), Ok("ab<|START|>".to_string()));
    assert_eq!(write_marked_document("ab", &(1..3)), Err(InvalidRange));
    assert_eq!(write_marked_document("é", &(1..2)), Err(InvalidRange));
}

#[test]
fn lines_for_an_insertion_with_a_language() {
    let lines = write_prompt_lines(
        "add a field",
        Some("Rust"),
        Some("rust"),
        "struct X {}\n",
        &(10..10),
        &CodegenKind::Generate { position: 10 },
    );
    assert_eq!(
        lines,
        Ok(strings(&[
            "You're an expert Rust engineer.\n",
            "The file you are currently working on has the following content:\n",
            "```rust\nstruct X {<|START|>}\n\n```",
            "In particular, the user's cursor is currently on the '<|START|>' span in the above outline, with no text selected.",
            "Assume the cursor is located where the `<|START|` marker is.",
            "Text can't be replaced, so assume your answer will be inserted at the cursor.",
            "Generate text based on the users prompt: add a field",
            "Your answer MUST always and only be valid Rust",
            "Never make remarks about the output.",
            "Do not return any text, except the generated code.",
            "Do not wrap your text in a Markdown block",
        ]))
    );
}

#[test]
fn lines_for_a_transformation_without_a_language() {
    let lines = write_prompt_lines(
        "rename it",
        None,
        None,
        "struct X {}\n",
        &(7..8),
        &CodegenKind::Transform { range: 7..8 },
    );
    assert_eq!(
        lines,
        Ok(strings(&[
            "You're an expert engineer.\n",
            "The file you are currently working on has the following content:\n",
            "```\nstruct <|START|X|END|> {}\n\n```",
            "In particular, the user has selected a section of the text between the '<|START|' and '|END|>' spans.",
            "Modify the users code selected text based upon the users prompt: 'rename it'",
            "You MUST reply with only the adjusted code (within the '<|START|' and '|END|>' spans), not the entire file.",
            "Never make remarks about the output.",
            "Do not return any text, except the generated code.",
            "Do not wrap your text in a Markdown block",
        ]))
    );
}

#[test]
fn prompt_for_an_insertion() {
    let prompt = generate_content_prompt(
        "add a field".to_string(),
        Some("Rust"),
        "struct X {}\n",
        10..10,
        CodegenKind::Generate { position: 10 },
        vec![],
        "gpt-4",
    );
    assert_eq!(
        prompt,
        Ok([
            "You're an expert Rust engineer.\n",
            "The file you are currently working on has the following content:\n",
            "```rust\nstruct X {<|START|>}\n\n```",
            "In particular, the user's cursor is currently on the '<|START|>' span in the above outline, with no text selected.",
            "Assume the cursor is located where the `<|START|` marker is.",
            "Text can't be replaced, so assume your answer will be inserted at the cursor.",
            "Generate text based on the users prompt: add a field",
            "Your answer MUST always and only be valid Rust",
            "Never make remarks about the output.",
            "Do not return any text, except the generated code.",
            "Do not wrap your text in a Markdown block",
        ]
        .join("\n"))
    );
}

#[test]
fn prompt_for_a_transformation_carries_the_snippets_behind_the_preamble() {
    let snippets = vec![
        PromptCodeSnippet::new(
            Some("src/y.rs".to_string()),
            Some("Rust".to_string()),
            "struct Y;".to_string(),
        ),
        PromptCodeSnippet::new(None, None, "struct Z;".to_string()),
    ];
    let prompt = generate_content_prompt(
        "rename it".to_string(),
        None,
        "struct X {}\n",
        7..8,
        CodegenKind::Transform { range: 7..8 },
        snippets,
        "gpt-4",
    );
    let first = format!(
        "{HEADING}```\nThe below code snippet may be relevant from file: src/y.rs\n```Rust\nstruct Y;\n```\n```\n"
    );
    let second =
        "```\nThe below code snippet may be relevant from file: \n```\nstruct Z;\n```\n```\n";
    assert_eq!(
        prompt,
        Ok([
            "You're an expert engineer.\n",
            first.as_str(),
            second,
            "The file you are currently working on has the following content:\n",
            "```\nstruct <|START|X|END|> {}\n\n```",
            "In particular, the user has selected a section of the text between the '<|START|' and '|END|>' spans.",
            "Modify the users code selected text based upon the users prompt: 'rename it'",
            "You MUST reply with only the adjusted code (within the '<|START|' and '|END|>' spans), not the entire file.",
            "Never make remarks about the output.",
            "Do not return any text, except the generated code.",
            "Do not wrap your text in a Markdown block",
        ]
        .join("\n"))
    );
}

#[test]
fn code_block_is_labelled_with_the_language_in_lower_case() {
    let prompt = generate_content_prompt(
        "x".to_string(),
        Some("TypeScript"),
        "let a;",
        0..0,
        CodegenKind::Generate { position: 0 },
        vec![],
        "gpt-4",
    )
    .unwrap();
    assert!(prompt.contains("You're an expert TypeScript engineer.\n"));
    assert!(prompt.contains("\n```typescript\n<|START|>let a;\n```\n"));
    assert!(prompt.contains("\nYour answer MUST always and only be valid TypeScript\n"));
}

#[test]
fn model_that_cannot_be_counted_gets_no_snippets() {
    let with = |model: &str| {
        generate_content_prompt(
            "x".to_string(),
            None,
            "let a;",
            0..0,
            CodegenKind::Generate { position: 0 },
            vec![PromptCodeSnippet::new(None, None, "struct Z;".to_string())],
            model,
        )
        .unwrap()
    };
    assert!(with("gpt-4").contains("struct Z;"));
    assert!(!with("no-such-model").contains("struct Z;"));
    // This model has an encoding, but chat messages cannot be counted for it.
    assert!(!with("text-davinci-003").contains("struct Z;"));
}

#[test]
fn document_that_fills_the_context_leaves_no_room_for_snippets() {
    let mut text = String::new();
    for i in 0..8000 {
        text.push_str(&format!("word{i} "));
    }
    let prompt = generate_content_prompt(
        "x".to_string(),
        None,
        &text,
        0..0,
        CodegenKind::Generate { position: 0 },
        vec![PromptCodeSnippet::new(None, None, "struct Z;".to_string())],
        "gpt-4",
    )
    .unwrap();
    assert!(!prompt.contains("struct Z;"));
    assert!(prompt.contains("<|START|>word0 "));
}

#[test]
fn malformed_range_is_refused() {
    let prompt = |range| {
        generate_content_prompt(
            "x".to_string(),
            None,
            "let a;",
            range,
            CodegenKind::Generate { position: 0 },
            vec![],
            "gpt-4",
        )
    };
    assert_eq!(prompt(3..2), Err(InvalidRange));
    assert_eq!(prompt(0..7), Err(InvalidRange));
    assert!(prompt(0..6).is_ok());
}

#[test]
fn larger_context_leaves_room_where_a_smaller_one_does_not() {
    let mut text = String::new();
    for i in 0..5000 {
        text.push_str(&format!("word{i} "));
    }
    let tokens =
        tiktoken_rs::get_bpe_from_model("gpt-4").unwrap().encode_with_special_tokens(&text).len();
    assert!(8192 < tokens && tokens < 30_000);
    let with = |model: &str| {
        generate_content_prompt(
            "x".to_string(),
            None,
            &text,
            0..0,
            CodegenKind::Generate { position: 0 },
            vec![PromptCodeSnippet::new(None, None, "struct Z;".to_string())],
            model,
        )
        .unwrap()
    };
    assert!(!with("gpt-4").contains("struct Z;"));
    assert!(with("gpt-4-32k").contains("struct Z;"));
}

#[test]
fn document_too_long_to_be_counted_gets_no_snippets() {
    let text = "a\n".repeat(250_001);
    let prompt = generate_content_prompt(
        "x".to_string(),
        None,
        &text,
        0..0,
        CodegenKind::Generate { position: 0 },
        vec![PromptCodeSnippet::new(None, None, "struct Z;".to_string())],
        "gpt-4o",
    )
    .unwrap();
    assert!(!prompt.contains("struct Z;"));
    assert!(prompt.starts_with("You're an expert engineer.\n\nThe file you are currently"));
}
