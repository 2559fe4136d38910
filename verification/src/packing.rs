//! Choice of the snippets that fit a budget of tokens.
//!
//! Snippets are taken in the order given. One that costs more than what is left
//! of the budget ends the choice; one that fits the budget but reaches the limit
//! for a single snippet is passed over. A snippet too long to be counted costs
//! more than any budget.

use crate::lines::texts;
use crate::snippet::{snippet_text, PromptCodeSnippet};
use crate::text::{byte_len, text_len};
use crate::tokens::{
    encode_with_special_tokens,
    get_bpe_from_model,
    model_encoding,
    special_tokens,
    MAX_COUNTED_BYTES,
};
use vstd::prelude::*;
use vstd::string::*;

verus! {

/// What becomes of a snippet.
#[derive(Debug, Clone, Copy, PartialEq, Eq, Structural)]
pub enum Admission {
    /// It is taken, and its cost leaves the budget.
    Accept,
    /// It is passed over, and the next one is looked at.
    Skip,
    /// It is not taken, and none after it is looked at.
    Stop,
}

/// What becomes of a snippet of the given cost when `remaining` tokens are left
/// and a single snippet must stay under `per_snippet_max` tokens.
pub open spec fn admission(cost: nat, remaining: nat, per_snippet_max: nat) -> Admission {
    if cost > remaining {
        Admission::Stop
    } else if cost < per_snippet_max {
        Admission::Accept
    } else {
        Admission::Skip
    }
}

/// A choice of snippets: the indices of those taken, in the order taken, the
/// tokens left, and whether the choice has ended.
pub struct Packing {
    pub accepted: Seq<int>,
    pub remaining: nat,
    pub stopped: bool,
}

/// The cost of the snippet `i` after the choice `p`: `first[i]` while nothing is
/// taken, when the snippet would carry the heading, and `later[i]` after that.
pub open spec fn cost_at(first: Seq<nat>, later: Seq<nat>, p: Packing, i: int) -> nat {
    if p.accepted.len() == 0 {
        first[i]
    } else {
        later[i]
    }
}

/// The choice `p` after the snippet `i` is looked at.
pub open spec fn consider(
    first: Seq<nat>,
    later: Seq<nat>,
    per_snippet_max: nat,
    p: Packing,
    i: int,
) -> Packing {
    if p.stopped {
        p
    } else {
        let cost = cost_at(first, later, p, i);
        match admission(cost, p.remaining, per_snippet_max) {
            Admission::Accept => Packing {
                accepted: p.accepted.push(i),
                remaining: (p.remaining - cost) as nat,
                stopped: false,
            },
            Admission::Skip => p,
            Admission::Stop => Packing { stopped: true, ..p },
        }
    }
}

/// The choice among the first `n` snippets.
pub open spec fn pack_upto(
    first: Seq<nat>,
    later: Seq<nat>,
    budget: nat,
    per_snippet_max: nat,
    n: nat,
) -> Packing
    decreases n,
{
    if n == 0 {
        Packing { accepted: Seq::empty(), remaining: budget, stopped: false }
    } else {
        consider(
            first,
            later,
            per_snippet_max,
            pack_upto(first, later, budget, per_snippet_max, (n - 1) as nat),
            n - 1,
        )
    }
}

/// The choice among all snippets, of which the `i`-th costs `first[i]` with the
/// heading and `later[i]` without.
pub open spec fn pack(first: Seq<nat>, later: Seq<nat>, budget: nat, per_snippet_max: nat) -> Packing {
    pack_upto(first, later, budget, per_snippet_max, first.len())
}

/// The tokens that the snippets taken have cost: the first of them with the
/// heading, the others without.
pub open spec fn spent(first: Seq<nat>, later: Seq<nat>, accepted: Seq<int>) -> nat
    decreases accepted.len(),
{
    if accepted.len() == 0 {
        0
    } else if accepted.len() == 1 {
        first[accepted.last()]
    } else {
        spent(first, later, accepted.drop_last()) + later[accepted.last()]
    }
}

/// What is left of the budget and what the snippets taken have cost make up the
/// budget, however many snippets have been looked at.
pub proof fn lemma_budget_conserved(
    first: Seq<nat>,
    later: Seq<nat>,
    budget: nat,
    per_snippet_max: nat,
    n: nat,
)
    ensures
        ({
            let p = pack_upto(first, later, budget, per_snippet_max, n);
            p.remaining + spent(first, later, p.accepted) == budget
        }),
    decreases n,
{
    if n > 0 {
        lemma_budget_conserved(first, later, budget, per_snippet_max, (n - 1) as nat);
        let before = pack_upto(first, later, budget, per_snippet_max, (n - 1) as nat);
        let after = pack_upto(first, later, budget, per_snippet_max, n);
        if after.accepted.len() > before.accepted.len() {
            assert(after.accepted.drop_last() == before.accepted);
        }
    }
}

/// The budget never grows: what is left after more snippets is no more than
/// what was left after fewer.
pub proof fn lemma_budget_never_grows(
    first: Seq<nat>,
    later: Seq<nat>,
    budget: nat,
    per_snippet_max: nat,
    m: nat,
    n: nat,
)
    requires
        m <= n,
    ensures
        pack_upto(first, later, budget, per_snippet_max, n).remaining <= pack_upto(
            first,
            later,
            budget,
            per_snippet_max,
            m,
        ).remaining,
    decreases n,
{
    if m < n {
        lemma_budget_never_grows(first, later, budget, per_snippet_max, m, (n - 1) as nat);
    }
}

/// The snippets taken are taken in the order given: their indices ascend, and
/// each lies among the snippets looked at.
pub proof fn lemma_accepted_in_order(
    first: Seq<nat>,
    later: Seq<nat>,
    budget: nat,
    per_snippet_max: nat,
    n: nat,
)
    ensures
        ({
            let p = pack_upto(first, later, budget, per_snippet_max, n);
            &&& forall|k: int| 0 <= k < p.accepted.len() ==> 0 <= #[trigger] p.accepted[k] < n
            &&& forall|j: int, k: int|
                0 <= j < k < p.accepted.len() ==> p.accepted[j] < p.accepted[k]
        }),
    decreases n,
{
    if n > 0 {
        lemma_accepted_in_order(first, later, budget, per_snippet_max, (n - 1) as nat);
        let before = pack_upto(first, later, budget, per_snippet_max, (n - 1) as nat);
        let after = pack_upto(first, later, budget, per_snippet_max, n);
        if after.accepted.len() > before.accepted.len() {
            assert(after.accepted == before.accepted.push(n - 1));
            assert forall|j: int, k: int| 0 <= j < k < after.accepted.len() implies after.accepted[j]
                < after.accepted[k] by {
                if k < before.accepted.len() {
                    assert(before.accepted[j] < before.accepted[k]);
                } else {
                    assert(0 <= before.accepted[j] < n - 1);
                }
            }
        } else {
            assert(after.accepted == before.accepted);
        }
    }
}

/// Once a snippet costs more than what is left, the choice is over: whatever
/// follows, nothing more is taken and the budget stays as it is.
pub proof fn lemma_stops_at_first_unaffordable(
    first: Seq<nat>,
    later: Seq<nat>,
    budget: nat,
    per_snippet_max: nat,
    i: nat,
    n: nat,
)
    requires
        i < n,
        ({
            let p = pack_upto(first, later, budget, per_snippet_max, i);
            !p.stopped && cost_at(first, later, p, i as int) > p.remaining
        }),
    ensures
        ({
            let at = pack_upto(first, later, budget, per_snippet_max, i);
            let end = pack_upto(first, later, budget, per_snippet_max, n);
            &&& end.stopped
            &&& end.accepted == at.accepted
            &&& end.remaining == at.remaining
            &&& forall|k: int| 0 <= k < end.accepted.len() ==> #[trigger] end.accepted[k] < i
        }),
    decreases n,
{
    if n > i + 1 {
        lemma_stops_at_first_unaffordable(first, later, budget, per_snippet_max, i, (n - 1) as nat);
    } else {
        lemma_accepted_in_order(first, later, budget, per_snippet_max, i);
    }
}

/// A choice that has ended stays as it is.
pub proof fn lemma_stopped_stays(
    first: Seq<nat>,
    later: Seq<nat>,
    budget: nat,
    per_snippet_max: nat,
    i: nat,
    n: nat,
)
    requires
        i <= n,
        pack_upto(first, later, budget, per_snippet_max, i).stopped,
    ensures
        pack_upto(first, later, budget, per_snippet_max, n) == pack_upto(
            first,
            later,
            budget,
            per_snippet_max,
            i,
        ),
    decreases n,
{
    if n > i {
        lemma_stopped_stays(first, later, budget, per_snippet_max, i, (n - 1) as nat);
    }
}

/// Decides on a snippet of the given cost.
pub fn decide_admission(cost: usize, remaining: usize, per_snippet_max: usize) -> (admission: Admission)
    ensures
        admission == self::admission(cost as nat, remaining as nat, per_snippet_max as nat),
{
    if cost > remaining {
        Admission::Stop
    } else if cost < per_snippet_max {
        Admission::Accept
    } else {
        Admission::Skip
    }
}

/// The heading that the first snippet of a prompt carries.
pub open spec fn snippet_heading() -> Seq<char> {
    "You are working inside a large repository, here are a few code snippets that may be useful"@
}

/// A quoted snippet as it enters the prompt: in a code block of its own, behind
/// the heading where it is the first.
pub open spec fn snippet_prompt(with_heading: bool, quoted: Seq<char>) -> Seq<char> {
    (if with_heading {
        snippet_heading()
    } else {
        Seq::empty()
    }) + "```\n"@ + quoted + "\n```\n"@
}

/// Writes a quoted snippet as it enters the prompt.
pub fn write_snippet_prompt(with_heading: bool, quoted: &str) -> (prompt: String)
    ensures
        prompt@ == snippet_prompt(with_heading, quoted@),
{
    let mut prompt = String::new();
    if with_heading {
        prompt.append(
            "You are working inside a large repository, here are a few code snippets that may be useful",
        );
    }
    prompt.append("```\n");
    prompt.append(quoted);
    prompt.append("\n```\n");
    proof {
        assert(Seq::<char>::empty() + snippet_heading() == snippet_heading());
    }
    prompt
}

/// The snippets as they are quoted.
pub open spec fn quoted_snippets(snippets: Seq<PromptCodeSnippet>) -> Seq<Seq<char>> {
    Seq::new(snippets.len(), |i: int| snippet_text(snippets[i]@))
}

/// What a snippet costs as it enters the prompt: its tokens in the given
/// encoding. One that is too long to be counted costs more than any budget.
pub open spec fn prompt_cost(encoding: tiktoken_rs::CoreBPE, prompt: Seq<char>) -> nat {
    if text_len(prompt) <= MAX_COUNTED_BYTES {
        special_tokens(encoding, prompt).len()
    } else {
        (usize::MAX + 1) as nat
    }
}

/// What each quoted snippet costs in the given encoding, with or without the
/// heading.
pub open spec fn prompt_costs(
    encoding: tiktoken_rs::CoreBPE,
    quoted: Seq<Seq<char>>,
    with_heading: bool,
) -> Seq<nat> {
    Seq::new(quoted.len(), |i: int| prompt_cost(encoding, snippet_prompt(with_heading, quoted[i])))
}

/// The choice among the quoted snippets for `model`. Where the model has no
/// encoding, nothing is taken.
pub open spec fn packing_for(
    model: Seq<char>,
    quoted: Seq<Seq<char>>,
    budget: nat,
    per_snippet_max: nat,
) -> Packing {
    match model_encoding(model) {
        Some(encoding) => pack(
            prompt_costs(encoding, quoted, true),
            prompt_costs(encoding, quoted, false),
            budget,
            per_snippet_max,
        ),
        None => Packing { accepted: Seq::empty(), remaining: budget, stopped: true },
    }
}

/// The snippets taken as they enter the prompt: the first with the heading.
pub open spec fn packed_prompts(quoted: Seq<Seq<char>>, accepted: Seq<int>) -> Seq<Seq<char>> {
    Seq::new(accepted.len(), |k: int| snippet_prompt(k == 0, quoted[accepted[k]]))
}

/// The snippets that were taken, as they enter the prompt, and the tokens left.
pub struct Packed {
    pub prompts: Vec<String>,
    pub remaining: usize,
}

/// Takes snippets in the order given while they fit into `remaining` tokens,
/// counted in the encoding of `model`.
pub fn pack_snippets(
    snippets: &Vec<PromptCodeSnippet>,
    remaining: usize,
    per_snippet_max: usize,
    model: &str,
) -> (packed: Packed)
    ensures
        ({
            let quoted = quoted_snippets(snippets@);
            let packing = packing_for(model@, quoted, remaining as nat, per_snippet_max as nat);
            &&& texts(packed.prompts@) == packed_prompts(quoted, packing.accepted)
            &&& packed.remaining == packing.remaining
        }),
{
    let ghost quoted = quoted_snippets(snippets@);
    let mut prompts: Vec<String> = Vec::new();
    let encoding = match get_bpe_from_model(model) {
        Ok(encoding) => encoding,
        Err(_) => {
            proof {
                assert(texts(prompts@) == packed_prompts(quoted, Seq::empty()));
            }
            return Packed { prompts, remaining };
        },
    };
    let ghost first = prompt_costs(encoding, quoted, true);
    let ghost later = prompt_costs(encoding, quoted, false);
    let ghost cap = per_snippet_max as nat;
    let mut left = remaining;
    let mut stopped = false;
    let mut i: usize = 0;
    proof {
        assert(texts(prompts@) == packed_prompts(quoted, Seq::empty()));
    }
    while i < snippets.len() && !stopped
        invariant
            i <= snippets@.len(),
            quoted == quoted_snippets(snippets@),
            first == prompt_costs(encoding, quoted, true),
            later == prompt_costs(encoding, quoted, false),
            cap == per_snippet_max,
            ({
                let p = pack_upto(first, later, remaining as nat, cap, i as nat);
                &&& texts(prompts@) == packed_prompts(quoted, p.accepted)
                &&& left == p.remaining
                &&& stopped == p.stopped
            }),
        decreases snippets@.len() - i,
    {
        let ghost p = pack_upto(first, later, remaining as nat, cap, i as nat);
        let quote = snippets[i].to_string();
        let prompt = write_snippet_prompt(prompts.len() == 0, quote.as_str());
        proof {
            assert(texts(prompts@).len() == prompts@.len());
            assert(packed_prompts(quoted, p.accepted).len() == p.accepted.len());
            assert(quote@ == quoted[i as int]);
            assert(cost_at(first, later, p, i as int) == prompt_cost(encoding, prompt@));
        }
        if byte_len(prompt.as_str()) > MAX_COUNTED_BYTES {
            stopped = true;
        } else {
            let cost = encode_with_special_tokens(&encoding, prompt.as_str()).len();
            match decide_admission(cost, left, per_snippet_max) {
                Admission::Accept => {
                    let ghost shown = texts(prompts@);
                    prompts.push(prompt);
                    left -= cost;
                    proof {
                        let q = pack_upto(first, later, remaining as nat, cap, (i + 1) as nat);
                        assert(q.accepted == p.accepted.push(i as int));
                        assert(texts(prompts@) == shown.push(prompt@));
                        assert(shown.push(prompt@) == packed_prompts(quoted, q.accepted));
                    }
                },
                Admission::Skip => {},
                Admission::Stop => {
                    stopped = true;
                },
            }
        }
        i += 1;
    }
    proof {
        if stopped {
            lemma_stopped_stays(first, later, remaining as nat, cap, i as nat, snippets@.len());
        }
    }
    Packed { prompts, remaining: left }
}

} // verus!
