use assistant_prompts::packing::{decide_admission, pack_snippets, Admission};
use assistant_prompts::snippet::PromptCodeSnippet;

const HEADING: &str =
    "You are working inside a large repository, here are a few code snippets that may be useful";

fn snippet(content: &str) -> PromptCodeSnippet {
    PromptCodeSnippet::new(None, None, content.to_string())
}

/// A quoted snippet as it enters the prompt.
fn entry(with_heading: bool, content: &str) -> String {
    let heading = if with_heading { HEADING } else { "" };
    format!(
        "{heading}```\nThe below code snippet may be relevant from file: \n```\n{content}\n```\n```\n"
    )
}

/// The tokens of `text` for gpt-4, counted by the tokenizer itself.
fn tokens(text: &str) -> usize {
    tiktoken_rs::get_bpe_from_model("gpt-4").unwrap().encode_with_special_tokens(text).len()
}

/// A text of many different words, far beyond 500 tokens.
fn long_text() -> String {
    let mut text = String::new();
    for i in 0..2000 {
        text.push_str(&format!("word{i} "));
    }
    text
}

#[test]
fn snippet_is_quoted_with_file_and_language() {
    let full = PromptCodeSnippet::new(
        Some("src/main.rs".to_string()),
        Some("Rust".to_string()),
        "fn main() {}".to_string(),
    );
    assert_eq!(
        full.to_string(),
        "The below code snippet may be relevant from file: src/main.rs\n```Rust\nfn main() {}\n```"
    );
    let bare = PromptCodeSnippet::new(None, None, "x".to_string());
    assert_eq!(bare.to_string(), "The below code snippet may be relevant from file: \n```\nx\n```");
}

#[test]
fn admission_goes_by_budget_first_and_then_by_the_limit() {
    assert_eq!(decide_admission(300, 400, 500), Admission::Accept);
    assert_eq!(decide_admission(400, 400, 500), Admission::Accept);
    assert_eq!(decide_admission(401, 400, 500), Admission::Stop);
    assert_eq!(decide_admission(499, 1000, 500), Admission::Accept);
    assert_eq!(decide_admission(500, 1000, 500), Admission::Skip);
    assert_eq!(decide_admission(600, 1000, 500), Admission::Skip);
    // Over the budget and over the limit: the budget decides.
    assert_eq!(decide_admission(600, 550, 500), Admission::Stop);
    assert_eq!(decide_admission(0, 0, 500), Admission::Accept);
    assert_eq!(decide_admission(0, 0, 0), Admission::Skip);
}

#[test]
fn costs_300_and_250_with_400_left_take_the_first_only() {
    let mut left = 400;
    assert_eq!(decide_admission(300, left, 500), Admission::Accept);
    left -= 300;
    assert_eq!(left, 100);
    assert_eq!(decide_admission(250, left, 500), Admission::Stop);
}

#[test]
fn costs_100_and_250_with_400_left_take_both() {
    let mut left = 400;
    assert_eq!(decide_admission(100, left, 500), Admission::Accept);
    left -= 100;
    assert_eq!(decide_admission(250, left, 500), Admission::Accept);
    left -= 250;
    assert_eq!(left, 50);
}

#[test]
fn snippets_that_fit_are_taken_in_order() {
    let snippets = vec![snippet("fn a() {}"), snippet("fn b() {}"), snippet("fn c() {}")];
    let packed = pack_snippets(&snippets, 10_000, 500, "gpt-4");
    let expected =
        vec![entry(true, "fn a() {}"), entry(false, "fn b() {}"), entry(false, "fn c() {}")];
    let spent: usize = expected.iter().map(|prompt| tokens(prompt)).sum();
    assert_eq!(packed.prompts, expected);
    assert_eq!(packed.remaining, 10_000 - spent);
}

#[test]
fn packing_stops_at_the_first_snippet_beyond_the_budget() {
    let snippets = vec![
        snippet("fn a() {}"),
        snippet("fn some_longer_function(argument: usize) -> usize { argument + 1 }"),
        snippet("x"),
    ];
    let first = tokens(&entry(true, "fn a() {}"));
    let third = tokens(&entry(false, "x"));
    let second = tokens(&entry(
        false,
        "fn some_longer_function(argument: usize) -> usize { argument + 1 }",
    ));
    assert!(third < second);
    // Room for the first and the third, not for the second.
    let budget = first + second - 1;
    assert!(first + third <= budget);
    let packed = pack_snippets(&snippets, budget, 500, "gpt-4");
    assert_eq!(packed.prompts, vec![entry(true, "fn a() {}")]);
    assert_eq!(packed.remaining, budget - first);
}

#[test]
fn budget_that_a_snippet_meets_exactly_is_enough() {
    let snippets = vec![snippet("fn a() {}")];
    let cost = tokens(&entry(true, "fn a() {}"));
    let packed = pack_snippets(&snippets, cost, 500, "gpt-4");
    assert_eq!(packed.prompts.len(), 1);
    assert_eq!(packed.remaining, 0);
    let packed = pack_snippets(&snippets, cost - 1, 500, "gpt-4");
    assert_eq!(packed.prompts.len(), 0);
    assert_eq!(packed.remaining, cost - 1);
}

#[test]
fn snippet_at_the_limit_is_passed_over_and_the_next_is_looked_at() {
    let long = long_text();
    assert!(tokens(&entry(true, &long)) >= 500);
    let snippets = vec![snippet(&long), snippet("fn b() {}")];
    let packed = pack_snippets(&snippets, 100_000, 500, "gpt-4");
    // The heading goes to the first snippet taken, not to the first one given.
    assert_eq!(packed.prompts, vec![entry(true, "fn b() {}")]);
    assert_eq!(packed.remaining, 100_000 - tokens(&entry(true, "fn b() {}")));
}

#[test]
fn limit_counts_the_snippet_that_reaches_it_as_too_large() {
    let snippets = vec![snippet("fn a() {}")];
    let cost = tokens(&entry(true, "fn a() {}"));
    assert_eq!(pack_snippets(&snippets, 10_000, cost, "gpt-4").prompts.len(), 0);
    assert_eq!(pack_snippets(&snippets, 10_000, cost + 1, "gpt-4").prompts.len(), 1);
}

#[test]
fn model_without_an_encoding_takes_no_snippet() {
    let snippets = vec![snippet("fn a() {}")];
    let packed = pack_snippets(&snippets, 10_000, 500, "no-such-model");
    assert_eq!(packed.prompts.len(), 0);
    assert_eq!(packed.remaining, 10_000);
}

#[test]
fn no_snippets_leave_the_budget() {
    let packed = pack_snippets(&vec![], 123, 500, "gpt-4");
    assert_eq!(packed.prompts.len(), 0);
    assert_eq!(packed.remaining, 123);
}

#[test]
fn snippet_too_long_to_be_counted_ends_the_choice() {
    let huge = "a ".repeat(250_001);
    let snippets = vec![snippet("fn a() {}"), snippet(&huge), snippet("fn c() {}")];
    let packed = pack_snippets(&snippets, usize::MAX, usize::MAX, "gpt-4");
    assert_eq!(packed.prompts, vec![entry(true, "fn a() {}")]);
    assert_eq!(packed.remaining, usize::MAX - tokens(&entry(true, "fn a() {}")));
}
