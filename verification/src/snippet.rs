//! A code snippet that may accompany a prompt.

use vstd::prelude::*;
use vstd::string::*;

verus! {

/// A piece of code found elsewhere, with the file and the language it is from,
/// where they are known.
pub struct PromptCodeSnippet {
    path: Option<String>,
    language_name: Option<String>,
    content: String,
}

/// What a snippet holds.
pub struct SnippetView {
    pub path: Option<Seq<char>>,
    pub language_name: Option<Seq<char>>,
    pub content: Seq<char>,
}

impl View for PromptCodeSnippet {
    type V = SnippetView;

    closed spec fn view(&self) -> SnippetView {
        SnippetView {
            path: match self.path {
                Some(path) => Some(path@),
                None => None,
            },
            language_name: match self.language_name {
                Some(name) => Some(name@),
                None => None,
            },
            content: self.content@,
        }
    }
}

/// The text of `part`, or nothing where it is unknown.
pub open spec fn or_empty(part: Option<Seq<char>>) -> Seq<char> {
    match part {
        Some(text) => text,
        None => Seq::empty(),
    }
}

/// A snippet as it is quoted: a line that names its file, then its content in a
/// code block labelled with its language.
pub open spec fn snippet_text(snippet: SnippetView) -> Seq<char> {
    "The below code snippet may be relevant from file: "@ + or_empty(snippet.path) + "\n```"@
        + or_empty(snippet.language_name) + "\n"@ + snippet.content + "\n```"@
}

impl PromptCodeSnippet {
    /// A snippet with the given content, from the given file and language.
    pub fn new(path: Option<String>, language_name: Option<String>, content: String) -> (snippet:
        Self)
        ensures
            snippet@ == (SnippetView {
                path: match path {
                    Some(path) => Some(path@),
                    None => None,
                },
                language_name: match language_name {
                    Some(name) => Some(name@),
                    None => None,
                },
                content: content@,
            }),
    {
        PromptCodeSnippet { path, language_name, content }
    }

    /// The snippet as it is quoted in a prompt.
    pub fn to_string(&self) -> (quoted: String)
        ensures
            quoted@ == snippet_text(self@),
    {
        let mut quoted = String::from_str("The below code snippet may be relevant from file: ");
        match &self.path {
            Some(path) => quoted.append(path.as_str()),
            None => {},
        }
        quoted.append("\n```");
        match &self.language_name {
            Some(name) => quoted.append(name.as_str()),
            None => {},
        }
        quoted.append("\n");
        quoted.append(self.content.as_str());
        quoted.append("\n```");
        proof {
            let head = "The below code snippet may be relevant from file: "@;
            assert(head + Seq::<char>::empty() == head);
            assert(head + or_empty(self@.path) + "\n```"@ + Seq::<char>::empty() == head
                + or_empty(self@.path) + "\n```"@);
        }
        quoted
    }
}

} // verus!
