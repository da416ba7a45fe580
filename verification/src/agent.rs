//! Agent pre-fill: the unclassified spans of a doc go to an agent in batches; its JSON
//! proposals are stored in a *proposed* state. Nothing touches the inventory until a human
//! accepts each proposal.
//!
//! The library builds the prompts, frames and interprets the agent's answer, and decides each
//! step of the pre-fill run; running the agent and reading and writing files is the caller's.

use crate::id::{slugify, spec_slugify};
use crate::model::{Level, Pattern};
use crate::snapshot::{Snapshot, Span};
use crate::text::{chars_of, copy_str, copy_strings, decimal, decimal_string, decimal_u64, lower_seq, lower_vec, push_char, push_str, same, strings_v, string_of};
use vstd::prelude::*;

verus! {

broadcast use vstd::string::group_string_axioms;

/// Spans per agent call.
pub const BATCH: usize = 40;

#[derive(Debug, Clone)]
pub enum Proposed {
    Req {
        statement: String,
        pattern: Option<Pattern>,
        slug: Option<String>,
        /// Suggested group titles.
        groups: Vec<String>,
        /// Attach to an existing requirement slug instead of creating.
        attach: Option<String>,
    },
    Context,
    Question { quote: String, materiality: Option<Level>, readings: Vec<String> },
}

#[derive(Debug, Clone, Copy, PartialEq, Eq, Structural)]
pub enum ProposalStatus {
    Proposed,
    Accepted,
    Rejected,
}

#[derive(Debug, Clone)]
pub struct Proposal {
    pub id: String,
    pub spans: Vec<String>,
    pub proposed: Proposed,
    pub status: ProposalStatus,
    pub rationale: Option<String>,
    pub result: Option<String>,
}

#[derive(Debug, Clone, Copy, PartialEq, Eq, Structural)]
pub enum JobState {
    Idle,
    Running,
    Done,
    Error,
}

/// Progress of a pre-fill run. Times are Unix nanoseconds.
#[derive(Debug, Clone)]
pub struct Job {
    pub state: JobState,
    pub doc: String,
    pub snapshot: String,
    pub done: usize,
    pub total: usize,
    pub error: Option<String>,
    pub model: Option<String>,
    pub started: i128,
    pub finished: Option<i128>,
}

#[derive(Debug, Clone)]
pub struct Proposals {
    pub items: Vec<Proposal>,
}

/// One batch for the agent.
pub struct BatchInput<'a> {
    pub doc: &'a str,
    /// `(id, text, section)`.
    pub spans: Vec<(&'a str, &'a str, Option<&'a str>)>,
    /// `(slug, statement)`.
    pub existing_reqs: Vec<(String, String)>,
    pub existing_groups: Vec<String>,
}

// ---------- the prompt ----------

pub const PROMPT_INTRO: &'static str = "You are helping a requirements analyst classify sentences of a high-level design document into a requirement inventory.\n";
pub const PROMPT_CHOICE: &'static str = "For EVERY sentence id below, decide exactly one of:\n";
pub const PROMPT_REQ: &'static str = "- \"req\": the sentence states (or clearly implies) a requirement. Rewrite it as ONE EARS-formed statement (Ubiquitous: \"The <system> shall <response>\"; Event-driven: \"When <trigger>, the <system> shall <response>\"; State-driven: \"While <state>, ...\"; Unwanted: \"If <condition>, then the <system> shall ...\"; Optional: \"Where <feature>, ...\"). Give `pattern` (ubiquitous|event-driven|state-driven|unwanted|optional|complex), a short kebab-case `slug` (2-4 words), and 0-2 `groups` (short umbrella labels like \"validation\", \"lockout\"). If it restates an EXISTING requirement listed below, set `attach` to that slug instead of a new statement. Adjacent sentences that form ONE requirement may share a single entry with several `spans`.\n";
pub const PROMPT_CONTEXT: &'static str = "- \"context\": non-normative prose (purpose, rationale, examples, non-goals, commentary, headings-as-prose).\n";
pub const PROMPT_QUESTION: &'static str = "- \"question\": genuinely ambiguous or undecided text that a PM must resolve before it can be a requirement. Give `quote`, `materiality` (H|M|L) and 2-3 candidate `readings`.\n";
pub const PROMPT_FORMAT: &'static str = "Return ONLY a JSON array (no prose, no code fences). Each element: {\"spans\":[ids], \"kind\":\"req\"|\"context\"|\"question\", \"statement\"?, \"pattern\"?, \"slug\"?, \"groups\"?, \"attach\"?, \"quote\"?, \"materiality\"?, \"readings\"?, \"rationale\"?}. Every input id must appear in exactly one element.\n\n";

/// The fixed instructions that open every prompt.
pub open spec fn prompt_head() -> Seq<char> {
    PROMPT_INTRO@ + PROMPT_CHOICE@ + PROMPT_REQ@ + PROMPT_CONTEXT@ + PROMPT_QUESTION@ + PROMPT_FORMAT@
}

/// `- slug: statement` lines.
pub open spec fn reqs_lines(rs: Seq<(Seq<char>, Seq<char>)>) -> Seq<char>
    decreases rs.len(),
{
    if rs.len() == 0 {
        Seq::empty()
    } else {
        reqs_lines(rs.drop_last()) + seq!['-', ' '] + rs.last().0 + seq![':', ' '] + rs.last().1 + seq!['\n']
    }
}

/// The strings joined with `, `.
pub open spec fn join_comma(gs: Seq<Seq<char>>) -> Seq<char>
    decreases gs.len(),
{
    if gs.len() == 0 {
        Seq::empty()
    } else if gs.len() == 1 {
        gs[0]
    } else {
        join_comma(gs.drop_last()) + seq![',', ' '] + gs.last()
    }
}

pub open spec fn opt_str(o: Option<&str>) -> Option<Seq<char>> {
    match o {
        Some(s) => Some(s@),
        None => None,
    }
}

/// `[id] text` lines, each section's first span preceded by `## section`.
pub open spec fn span_lines(spans: Seq<(Seq<char>, Seq<char>, Option<Seq<char>>)>) -> Seq<char>
    decreases spans.len(),
{
    if spans.len() == 0 {
        Seq::empty()
    } else {
        let prev = if spans.len() > 1 { spans[spans.len() - 2].2 } else { None };
        let s = spans.last();
        let head = match s.2 {
            Some(sec) => if s.2 != prev { seq!['#', '#', ' '] + sec + seq!['\n'] } else { Seq::empty() },
            None => Seq::empty(),
        };
        span_lines(spans.drop_last()) + head + seq!['['] + s.0 + seq![']', ' '] + s.1 + seq!['\n']
    }
}

/// The whole prompt for a batch of `spans` (id, text, section) of `doc`.
pub open spec fn spec_prompt(doc: Seq<char>, spans: Seq<(Seq<char>, Seq<char>, Option<Seq<char>>)>, reqs: Seq<(Seq<char>, Seq<char>)>, groups: Seq<Seq<char>>) -> Seq<char> {
    prompt_head()
        + (if reqs.len() > 0 {
            "Existing requirements (slug: statement):\n"@ + reqs_lines(reqs) + seq!['\n']
        } else {
            Seq::empty()
        })
        + (if groups.len() > 0 {
            "Existing groups: "@ + join_comma(groups) + seq!['\n', '\n']
        } else {
            Seq::empty()
        })
        + "Document: "@ + doc + "\nSentences:\n"@ + span_lines(spans)
}

pub open spec fn spans_v(s: Seq<(&str, &str, Option<&str>)>) -> Seq<(Seq<char>, Seq<char>, Option<Seq<char>>)> {
    s.map_values(|x: (&str, &str, Option<&str>)| (x.0@, x.1@, opt_str(x.2)))
}

pub open spec fn pairs_v(s: Seq<(String, String)>) -> Seq<(Seq<char>, Seq<char>)> {
    s.map_values(|x: (String, String)| (x.0@, x.1@))
}

/// The agent's prompt: instructions, existing requirements and groups, then every span of the
/// batch as `[id] text`, under `## section` headers.
pub fn build_prompt(b: &BatchInput) -> (r: String)
    ensures
        r@ == spec_prompt(b.doc@, spans_v(b.spans@), pairs_v(b.existing_reqs@), strings_v(b.existing_groups@)),
{
    let mut s = String::new();
    push_str(&mut s, PROMPT_INTRO);
    push_str(&mut s, PROMPT_CHOICE);
    push_str(&mut s, PROMPT_REQ);
    push_str(&mut s, PROMPT_CONTEXT);
    push_str(&mut s, PROMPT_QUESTION);
    push_str(&mut s, PROMPT_FORMAT);
    proof {
        assert(s@ =~= prompt_head());
    }
    let ghost after_head = s@;
    if b.existing_reqs.len() > 0 {
        push_str(&mut s, "Existing requirements (slug: statement):\n");
        let ghost base = s@;
        let mut i: usize = 0;
        while i < b.existing_reqs.len()
            invariant
                i <= b.existing_reqs@.len(),
                s@ == base + reqs_lines(pairs_v(b.existing_reqs@.take(i as int))),
            decreases b.existing_reqs@.len() - i,
        {
            let ghost s0 = s@;
            push_str(&mut s, "- ");
            push_str(&mut s, b.existing_reqs[i].0.as_str());
            push_str(&mut s, ": ");
            push_str(&mut s, b.existing_reqs[i].1.as_str());
            push_char(&mut s, '\n');
            proof {
                reveal_strlit("- ");
                reveal_strlit(": ");
                assert(pairs_v(b.existing_reqs@.take(i as int + 1)).drop_last() =~= pairs_v(b.existing_reqs@.take(i as int)));
                assert(s@ =~= base + reqs_lines(pairs_v(b.existing_reqs@.take(i as int + 1))));
            }
            i += 1;
        }
        push_char(&mut s, '\n');
        proof {
            assert(b.existing_reqs@.take(b.existing_reqs@.len() as int) =~= b.existing_reqs@);
            assert(pairs_v(b.existing_reqs@).len() > 0);
        }
    }
    let ghost after_reqs = s@;
    if b.existing_groups.len() > 0 {
        push_str(&mut s, "Existing groups: ");
        let ghost base = s@;
        let mut i: usize = 0;
        while i < b.existing_groups.len()
            invariant
                i <= b.existing_groups@.len(),
                s@ == base + join_comma(strings_v(b.existing_groups@.take(i as int))),
            decreases b.existing_groups@.len() - i,
        {
            if i > 0 {
                push_str(&mut s, ", ");
            }
            push_str(&mut s, b.existing_groups[i].as_str());
            proof {
                reveal_strlit(", ");
                assert(strings_v(b.existing_groups@.take(i as int + 1)).drop_last() =~= strings_v(b.existing_groups@.take(i as int)));
                assert(s@ =~= base + join_comma(strings_v(b.existing_groups@.take(i as int + 1))));
            }
            i += 1;
        }
        push_str(&mut s, "\n\n");
        proof {
            reveal_strlit("\n\n");
            assert(b.existing_groups@.take(b.existing_groups@.len() as int) =~= b.existing_groups@);
        }
    }
    let ghost after_groups = s@;
    push_str(&mut s, "Document: ");
    push_str(&mut s, b.doc);
    push_str(&mut s, "\nSentences:\n");
    let ghost base = s@;
    let mut last: Option<&str> = None;
    let mut i: usize = 0;
    while i < b.spans.len()
        invariant
            i <= b.spans@.len(),
            s@ == base + span_lines(spans_v(b.spans@.take(i as int))),
            opt_str(last) == (if i > 0 { opt_str(b.spans@[i - 1].2) } else { None }),
        decreases b.spans@.len() - i,
    {
        let (id, text, section) = b.spans[i];
        let ghost s0 = s@;
        let differs = match (section, last) {
            (Some(x), Some(y)) => !same(x, y),
            (None, None) => false,
            _ => true,
        };
        if differs {
            match section {
                Some(sec) => {
                    push_str(&mut s, "## ");
                    push_str(&mut s, sec);
                    push_char(&mut s, '\n');
                },
                None => {},
            }
        }
        last = section;
        push_char(&mut s, '[');
        push_str(&mut s, id);
        push_str(&mut s, "] ");
        push_str(&mut s, text);
        push_char(&mut s, '\n');
        proof {
            reveal_strlit("## ");
            reveal_strlit("] ");
            let t = spans_v(b.spans@.take(i as int + 1));
            assert(t.drop_last() =~= spans_v(b.spans@.take(i as int)));
            assert(t.last() == (id@, text@, opt_str(section)));
            if i > 0 {
                assert(t[t.len() - 2] == (b.spans@[i - 1].0@, b.spans@[i - 1].1@, opt_str(b.spans@[i - 1].2)));
            }
            assert(s@ =~= base + span_lines(t));
        }
        i += 1;
    }
    proof {
        assert(b.spans@.take(b.spans@.len() as int) =~= b.spans@);
    }
    s
}


// ---------- the agent's answer ----------

/// What went wrong reading the agent's answer.
#[derive(Debug, Clone)]
pub enum OutputError {
    /// No `[` in the output; with what the agent said.
    NoArray(String),
    /// No `]` in the output; with what the agent said.
    NoArrayEnd(String),
    /// The JSON array did not parse; with the parser's message.
    BadJson(String),
    /// A proposal of a kind the library does not know.
    UnknownKind(String),
}

/// One proposal as the agent writes it.
#[derive(Debug, Clone)]
pub struct WireProposal {
    pub spans: Vec<String>,
    pub kind: String,
    pub statement: Option<String>,
    pub pattern: Option<String>,
    pub slug: Option<String>,
    pub groups: Vec<String>,
    pub attach: Option<String>,
    pub quote: Option<String>,
    pub materiality: Option<String>,
    pub readings: Vec<String>,
    pub rationale: Option<String>,
}

pub open spec fn opt_v(o: Option<String>) -> Option<Seq<char>> {
    match o {
        Some(s) => Some(s@),
        None => None,
    }
}

pub open spec fn or_empty(o: Option<String>) -> Seq<char> {
    match o {
        Some(s) => s@,
        None => Seq::empty(),
    }
}

/// Lowercase, `_` read as `-`.
pub open spec fn dashed(s: Seq<char>) -> Seq<char> {
    lower_seq(s).map_values(|c: char| if c == '_' { '-' } else { c })
}

/// An EARS pattern name, in any case, `_` or `-` between words; a few short forms.
pub open spec fn spec_parse_pattern(s: Seq<char>) -> Option<Pattern> {
    let t = dashed(s);
    if t == "ubiquitous"@ {
        Some(Pattern::Ubiquitous)
    } else if t == "event-driven"@ || t == "event"@ {
        Some(Pattern::EventDriven)
    } else if t == "state-driven"@ || t == "state"@ {
        Some(Pattern::StateDriven)
    } else if t == "unwanted"@ || t == "unwanted-behaviour"@ || t == "unwanted-behavior"@ {
        Some(Pattern::Unwanted)
    } else if t == "optional"@ {
        Some(Pattern::Optional)
    } else if t == "complex"@ {
        Some(Pattern::Complex)
    } else {
        None
    }
}

/// `H`, `M` or `L`, in either case.
pub open spec fn spec_parse_level(s: Seq<char>) -> Option<Level> {
    let t = lower_seq(s);
    if t == "h"@ {
        Some(Level::H)
    } else if t == "m"@ {
        Some(Level::M)
    } else if t == "l"@ {
        Some(Level::L)
    } else {
        None
    }
}

fn is_lit(v: &Vec<char>, lit: &str) -> (r: bool)
    ensures
        r == (v@ == lit@),
{
    let l = chars_of(lit);
    crate::text::seq_eq(v, &l)
}

fn parse_pattern(s: &str) -> (r: Option<Pattern>)
    ensures
        r == spec_parse_pattern(s@),
{
    let lv = lower_vec(&chars_of(s));
    let mut t: Vec<char> = Vec::new();
    let mut i: usize = 0;
    while i < lv.len()
        invariant
            i <= lv@.len(),
            t@ == lv@.take(i as int).map_values(|c: char| if c == '_' { '-' } else { c }),
        decreases lv@.len() - i,
    {
        let c = lv[i];
        t.push(if c == '_' { '-' } else { c });
        proof {
            assert(lv@.take(i as int + 1).map_values(|c: char| if c == '_' { '-' } else { c })
                =~= lv@.take(i as int).map_values(|c: char| if c == '_' { '-' } else { c }).push(if c == '_' { '-' } else { c }));
        }
        i += 1;
    }
    proof {
        assert(lv@.take(lv@.len() as int) =~= lv@);
    }
    if is_lit(&t, "ubiquitous") {
        Some(Pattern::Ubiquitous)
    } else if is_lit(&t, "event-driven") || is_lit(&t, "event") {
        Some(Pattern::EventDriven)
    } else if is_lit(&t, "state-driven") || is_lit(&t, "state") {
        Some(Pattern::StateDriven)
    } else if is_lit(&t, "unwanted") || is_lit(&t, "unwanted-behaviour") || is_lit(&t, "unwanted-behavior") {
        Some(Pattern::Unwanted)
    } else if is_lit(&t, "optional") {
        Some(Pattern::Optional)
    } else if is_lit(&t, "complex") {
        Some(Pattern::Complex)
    } else {
        None
    }
}

fn parse_level(s: &str) -> (r: Option<Level>)
    ensures
        r == spec_parse_level(s@),
{
    let t = lower_vec(&chars_of(s));
    if is_lit(&t, "h") {
        Some(Level::H)
    } else if is_lit(&t, "m") {
        Some(Level::M)
    } else if is_lit(&t, "l") {
        Some(Level::L)
    } else {
        None
    }
}

/// Kind of a wire proposal: 0 requirement, 1 context, 2 question, 3 unknown.
pub open spec fn kind_class(k: Seq<char>) -> int {
    if k == "req"@ || k == "requirement"@ {
        0
    } else if k == "context"@ || k == "non-normative"@ {
        1
    } else if k == "question"@ {
        2
    } else {
        3
    }
}

/// A wire proposal that yields no proposal: no spans, or a requirement with neither a
/// statement nor an existing requirement to attach to.
pub open spec fn skipped(w: WireProposal) -> bool {
    ||| w.spans@.len() == 0
    ||| (kind_class(w.kind@) == 0 && crate::blocks::trim_ws(or_empty(w.statement)).len() == 0 && w.attach is None)
}

/// The first wire proposal (with spans) of an unknown kind.
pub open spec fn first_unknown(ws: Seq<WireProposal>, k: int) -> Option<int>
    decreases k,
{
    if k <= 0 {
        None
    } else {
        match first_unknown(ws, k - 1) {
            Some(i) => Some(i),
            None => if ws[k - 1].spans@.len() > 0 && kind_class(ws[k - 1].kind@) == 3 { Some(k - 1) } else { None },
        }
    }
}

/// Indices of the wire proposals (among the first `k`) that yield a proposal.
pub open spec fn kept(ws: Seq<WireProposal>, k: int) -> Seq<int>
    decreases k,
{
    if k <= 0 {
        Seq::empty()
    } else if skipped(ws[k - 1]) {
        kept(ws, k - 1)
    } else {
        kept(ws, k - 1).push(k - 1)
    }
}

/// Proposal `p` is what wire proposal `w`, the `i`-th of the answer, says.
pub open spec fn proposal_from(p: Proposal, i: nat, w: WireProposal) -> bool {
    &&& p.id@ == seq!['p'] + decimal(i) + seq!['-'] + w.spans@[0]@
    &&& strings_v(p.spans@) == strings_v(w.spans@)
    &&& p.status == ProposalStatus::Proposed
    &&& opt_v(p.rationale) == opt_v(w.rationale)
    &&& p.result is None
    &&& match p.proposed {
        Proposed::Req { statement, pattern, slug, groups, attach } => {
            &&& kind_class(w.kind@) == 0
            &&& statement@ == or_empty(w.statement)
            &&& pattern == match w.pattern { Some(x) => spec_parse_pattern(x@), None => None }
            &&& opt_v(slug) == match w.slug { Some(x) => Some(spec_slugify(x@, 32)), None => None }
            &&& strings_v(groups@) == strings_v(w.groups@)
            &&& opt_v(attach) == opt_v(w.attach)
        },
        Proposed::Context => kind_class(w.kind@) == 1,
        Proposed::Question { quote, materiality, readings } => {
            &&& kind_class(w.kind@) == 2
            &&& quote@ == or_empty(w.quote)
            &&& materiality == match w.materiality { Some(x) => spec_parse_level(x@), None => None }
            &&& strings_v(readings@) == strings_v(w.readings@)
        },
    }
}

fn copy_opt(o: &Option<String>) -> (r: Option<String>)
    ensures
        opt_v(r) == opt_v(*o),
{
    match o {
        Some(s) => Some(copy_str(s.as_str())),
        None => None,
    }
}

fn opt_or_empty(o: &Option<String>) -> (r: String)
    ensures
        r@ == or_empty(*o),
{
    match o {
        Some(s) => copy_str(s.as_str()),
        None => String::new(),
    }
}

/// Proposals from the agent's parsed answer, in order: entries without spans are dropped, as
/// are requirements with neither statement nor attach target; an unknown kind fails the whole
/// answer. Proposal `i` of the answer gets the id `p<i>-<first span>`.
pub fn proposals_from_wire(ws: &Vec<WireProposal>) -> (r: Result<Vec<Proposal>, OutputError>)
    ensures
        match first_unknown(ws@, ws@.len() as int) {
            Some(i) => r matches Err(OutputError::UnknownKind(k)) && k@ == ws@[i].kind@,
            None => r matches Ok(ps) && ps@.len() == kept(ws@, ws@.len() as int).len()
                && forall|k: int| 0 <= k < ps@.len() ==> proposal_from(#[trigger] ps@[k], kept(ws@, ws@.len() as int)[k] as nat, ws@[kept(ws@, ws@.len() as int)[k]]),
        },
{
    let mut out: Vec<Proposal> = Vec::new();
    let mut i: usize = 0;
    while i < ws.len()
        invariant
            i <= ws@.len(),
            first_unknown(ws@, i as int) is None,
            out@.len() == kept(ws@, i as int).len(),
            forall|k: int| 0 <= k < out@.len() ==> proposal_from(#[trigger] out@[k], kept(ws@, i as int)[k] as nat, ws@[kept(ws@, i as int)[k]]),
        decreases ws@.len() - i,
    {
        let w = &ws[i];
        if w.spans.len() == 0 {
            i += 1;
            continue;
        }
        let kv = chars_of(w.kind.as_str());
        let proposed = if is_lit(&kv, "req") || is_lit(&kv, "requirement") {
            let pattern = match &w.pattern {
                Some(x) => parse_pattern(x.as_str()),
                None => None,
            };
            let slug = match &w.slug {
                Some(x) => Some(slugify(x.as_str(), 32)),
                None => None,
            };
            Proposed::Req {
                statement: opt_or_empty(&w.statement),
                pattern,
                slug,
                groups: copy_strings(&w.groups),
                attach: copy_opt(&w.attach),
            }
        } else if is_lit(&kv, "context") || is_lit(&kv, "non-normative") {
            Proposed::Context
        } else if is_lit(&kv, "question") {
            let materiality = match &w.materiality {
                Some(x) => parse_level(x.as_str()),
                None => None,
            };
            Proposed::Question {
                quote: opt_or_empty(&w.quote),
                materiality,
                readings: copy_strings(&w.readings),
            }
        } else {
            proof {
                assert(first_unknown(ws@, i as int + 1) == Some(i as int));
                lemma_first_unknown_stays(ws@, i as int + 1, ws@.len() as int);
            }
            return Err(OutputError::UnknownKind(copy_str(w.kind.as_str())));
        };
        let skip = match &proposed {
            Proposed::Req { statement, attach, .. } => {
                let sv = chars_of(statement.as_str());
                let t = crate::blocks::trim_chars(&sv);
                t.len() == 0 && attach.is_none()
            },
            _ => false,
        };
        if !skip {
            let mut id = copy_str("p");
            let d = decimal_u64(i as u64);
            push_str(&mut id, d.as_str());
            push_char(&mut id, '-');
            push_str(&mut id, w.spans[0].as_str());
            proof {
                reveal_strlit("p");
                assert("p"@ =~= seq!['p']);
                assert(id@ =~= seq!['p'] + decimal(i as nat) + seq!['-'] + w.spans@[0]@);
            }
            let ghost o0 = out@;
            out.push(Proposal {
                id,
                spans: copy_strings(&w.spans),
                proposed,
                status: ProposalStatus::Proposed,
                rationale: copy_opt(&w.rationale),
                result: None,
            });
            proof {
                assert(kept(ws@, i as int + 1) == kept(ws@, i as int).push(i as int));
                assert forall|k: int| 0 <= k < out@.len() implies proposal_from(#[trigger] out@[k], kept(ws@, i as int + 1)[k] as nat, ws@[kept(ws@, i as int + 1)[k]]) by {
                    if k < o0.len() {
                        assert(out@[k] == o0[k]);
                    } else {
                        assert(kept(ws@, i as int + 1)[k] == i as int);
                    }
                }
            }
        } else {
            proof {
                assert(kept(ws@, i as int + 1) == kept(ws@, i as int));
            }
        }
        i += 1;
    }
    Ok(out)
}

proof fn lemma_first_unknown_stays(ws: Seq<WireProposal>, k: int, n: int)
    requires
        1 <= k <= n,
        first_unknown(ws, k) is Some,
    ensures
        first_unknown(ws, n) == first_unknown(ws, k),
    decreases n - k,
{
    if k < n {
        lemma_first_unknown_stays(ws, k, n - 1);
    }
}


// ---------- framing the answer ----------

/// Index of the first `c` in `t`.
pub open spec fn first_index(t: Seq<char>, c: char) -> Option<int> {
    if exists|i: int| 0 <= i < t.len() && t[i] == c {
        Some(choose|i: int| 0 <= i < t.len() && t[i] == c && forall|j: int| 0 <= j < i ==> t[j] != c)
    } else {
        None
    }
}

/// Index of the last `c` in `t`.
pub open spec fn last_index(t: Seq<char>, c: char) -> Option<int> {
    if exists|i: int| 0 <= i < t.len() && t[i] == c {
        Some(choose|i: int| 0 <= i < t.len() && t[i] == c && forall|j: int| i < j < t.len() ==> t[j] != c)
    } else {
        None
    }
}

/// What the agent said, for an error message: its first 200 characters after trimming.
pub open spec fn spec_snippet(raw: Seq<char>) -> Seq<char> {
    let t = crate::blocks::trim_ws(raw);
    let head = if t.len() <= 200 { t } else { t.take(200) };
    if head.len() == 0 {
        "(empty output)"@
    } else {
        "agent said: "@ + head + seq!['\u{2026}']
    }
}

/// The last `]` does not stand before the first `[` (slicing between them is defined).
pub open spec fn brackets_ordered(raw: Seq<char>) -> bool {
    match (first_index(raw, '['), last_index(raw, ']')) {
        (Some(a), Some(b)) => a <= b,
        _ => true,
    }
}

fn snippet(raw: &str) -> (r: String)
    ensures
        r@ == spec_snippet(raw@),
{
    let v = chars_of(raw);
    let t = crate::blocks::trim_chars(&v);
    let n = if t.len() <= 200 { t.len() } else { 200 };
    if n == 0 {
        return copy_str("(empty output)");
    }
    let mut out = copy_str("agent said: ");
    let mut i: usize = 0;
    let ghost base = out@;
    while i < n
        invariant
            i <= n <= t@.len(),
            out@ == base + t@.take(i as int),
        decreases n - i,
    {
        push_char(&mut out, t[i]);
        proof {
            assert(base + t@.take(i as int + 1) =~= (base + t@.take(i as int)).push(t@[i as int]));
        }
        i += 1;
    }
    push_char(&mut out, '\u{2026}');
    proof {
        if t@.len() <= 200 {
            assert(t@.take(n as int) =~= t@);
        }
    }
    out
}

fn find_first(v: &Vec<char>, c: char) -> (r: Option<usize>)
    ensures
        match r {
            Some(i) => first_index(v@, c) == Some(i as int) && i < v@.len(),
            None => first_index(v@, c) is None,
        },
{
    let mut i: usize = 0;
    while i < v.len()
        invariant
            i <= v@.len(),
            forall|j: int| 0 <= j < i ==> v@[j] != c,
        decreases v@.len() - i,
    {
        if v[i] == c {
            proof {
                let w = choose|k: int| 0 <= k < v@.len() && v@[k] == c && forall|j: int| 0 <= j < k ==> v@[j] != c;
                assert(0 <= i < v@.len() && v@[i as int] == c && forall|j: int| 0 <= j < i ==> v@[j] != c);
                assert(w == i);
            }
            return Some(i);
        }
        i += 1;
    }
    None
}

fn find_last(v: &Vec<char>, c: char) -> (r: Option<usize>)
    ensures
        match r {
            Some(i) => last_index(v@, c) == Some(i as int) && i < v@.len(),
            None => last_index(v@, c) is None,
        },
{
    let mut i: usize = v.len();
    while i > 0
        invariant
            i <= v@.len(),
            forall|j: int| i <= j < v@.len() ==> v@[j] != c,
        decreases i,
    {
        if v[i - 1] == c {
            proof {
                let k = i - 1;
                assert(0 <= k < v@.len() && v@[k] == c && forall|j: int| k < j < v@.len() ==> v@[j] != c);
                let w = choose|x: int| 0 <= x < v@.len() && v@[x] == c && forall|j: int| x < j < v@.len() ==> v@[j] != c;
                assert(w == k);
            }
            return Some(i - 1);
        }
        i -= 1;
    }
    None
}

/// Whether the answer's brackets allow framing (see `json_bounds`).
pub fn json_brackets_ordered(raw: &str) -> (r: bool)
    ensures
        r == brackets_ordered(raw@),
{
    let v = chars_of(raw);
    match (find_first(&v, '['), find_last(&v, ']')) {
        (Some(a), Some(b)) => a <= b,
        _ => true,
    }
}

/// The byte range of the JSON array in the agent's answer: from the first `[` through the last
/// `]` (prose and code fences around it are tolerated).
pub fn json_bounds(raw: &str) -> (r: Result<(usize, usize), OutputError>)
    requires
        brackets_ordered(raw@),
    ensures
        match (first_index(raw@, '['), last_index(raw@, ']')) {
            (None, _) => r matches Err(OutputError::NoArray(said)) && said@ == spec_snippet(raw@),
            (Some(_), None) => r matches Err(OutputError::NoArrayEnd(said)) && said@ == spec_snippet(raw@),
            (Some(a), Some(b)) => r matches Ok(range) && range.0 == crate::segment::boff(raw@, a) && range.1 == crate::segment::boff(raw@, b + 1),
        },
{
    crate::segment::str_fits(raw);
    let v = chars_of(raw);
    let offs = crate::segment::byte_offsets(raw, &v);
    match find_first(&v, '[') {
        None => Err(OutputError::NoArray(snippet(raw))),
        Some(a) => match find_last(&v, ']') {
            None => Err(OutputError::NoArrayEnd(snippet(raw))),
            Some(b) => {
                let n = v.len();
                assert(b < v@.len());
                assert(v@.len() == n);
                Ok((offs[a], offs[b + 1]))
            },
        },
    }
}

pub open spec fn spec_error_message(e: OutputError) -> Seq<char> {
    match e {
        OutputError::NoArray(said) => "no JSON array in agent output \u{2014} "@ + said@,
        OutputError::NoArrayEnd(said) => "no JSON array end in agent output \u{2014} "@ + said@,
        OutputError::BadJson(m) => "parsing agent JSON: "@ + m@,
        OutputError::UnknownKind(k) => "unknown proposal kind `"@ + k@ + seq!['`'],
    }
}

impl OutputError {
    /// The error as a message.
    pub fn message(&self) -> (r: String)
        ensures
            r@ == spec_error_message(*self),
    {
        match self {
            OutputError::NoArray(said) => {
                let mut s = copy_str("no JSON array in agent output \u{2014} ");
                push_str(&mut s, said.as_str());
                s
            },
            OutputError::NoArrayEnd(said) => {
                let mut s = copy_str("no JSON array end in agent output \u{2014} ");
                push_str(&mut s, said.as_str());
                s
            },
            OutputError::BadJson(m) => {
                let mut s = copy_str("parsing agent JSON: ");
                push_str(&mut s, m.as_str());
                s
            },
            OutputError::UnknownKind(k) => {
                let mut s = copy_str("unknown proposal kind `");
                push_str(&mut s, k.as_str());
                push_char(&mut s, '`');
                s
            },
        }
    }
}


// ---------- the pre-fill run ----------

/// A pre-fill run between steps.
pub struct PrefillRun {
    pub job: Job,
    pub all: Proposals,
    /// Span ids still to propose for, in order.
    pub todo: Vec<String>,
    /// Start of the current batch in `todo`.
    pub pos: usize,
    /// A batch was sent to the agent and its reply is awaited.
    pub in_flight: bool,
}

/// What happened since the last step.
pub enum PrefillEvent {
    /// Go on (after the caller did what the last step asked).
    Next,
    /// The agent's proposals for the batch in flight.
    Reply(Vec<Proposal>),
    /// Running the agent or reading its answer failed, with the message.
    Failed(String),
}

/// What the caller does now: save the proposals and/or the job, then ask the agent with the
/// prompt (and report its reply), or stop, or call again with `Next`.
pub struct PrefillStep {
    pub ask: Option<String>,
    pub save_proposals: bool,
    pub save_job: bool,
    pub stop: bool,
}

/// Batches for `n` spans: `n / 40` rounded up, at least 1.
pub open spec fn batches(n: nat) -> nat {
    if n == 0 { 1 } else { ((n + 39) / 40) as nat }
}

pub open spec fn in_strings(xs: Seq<Seq<char>>, x: Seq<char>) -> bool {
    exists|i: int| 0 <= i < xs.len() && xs[i] == x
}

/// A proposal still pending for a span that is no longer unclassified.
pub open spec fn stale(p: Proposal, uncl: Seq<Seq<char>>) -> bool {
    p.status == ProposalStatus::Proposed && exists|j: int| 0 <= j < p.spans@.len() && !in_strings(uncl, (#[trigger] p.spans@[j])@)
}

pub open spec fn keep_fresh(items: Seq<Proposal>, uncl: Seq<Seq<char>>) -> Seq<Proposal>
    decreases items.len(),
{
    if items.len() == 0 {
        Seq::empty()
    } else if stale(items.last(), uncl) {
        keep_fresh(items.drop_last(), uncl)
    } else {
        keep_fresh(items.drop_last(), uncl).push(items.last())
    }
}

/// Span `id` already has a pending proposal.
pub open spec fn proposed_for(items: Seq<Proposal>, id: Seq<char>) -> bool {
    exists|k: int, j: int| 0 <= k < items.len() && (#[trigger] items[k]).status == ProposalStatus::Proposed && 0 <= j < items[k].spans@.len() && (#[trigger] items[k].spans@[j])@ == id
}

pub open spec fn todo_of(uncl: Seq<Seq<char>>, items: Seq<Proposal>) -> Seq<Seq<char>>
    decreases uncl.len(),
{
    if uncl.len() == 0 {
        Seq::empty()
    } else if proposed_for(items, uncl.last()) {
        todo_of(uncl.drop_last(), items)
    } else {
        todo_of(uncl.drop_last(), items).push(uncl.last())
    }
}

fn in_list(xs: &Vec<String>, x: &str) -> (r: bool)
    ensures
        r == in_strings(strings_v(xs@), x@),
{
    let mut i: usize = 0;
    while i < xs.len()
        invariant
            i <= xs@.len(),
            forall|j: int| 0 <= j < i ==> xs@[j]@ != x@,
        decreases xs@.len() - i,
    {
        if same(xs[i].as_str(), x) {
            proof {
                assert(strings_v(xs@)[i as int] == x@);
            }
            return true;
        }
        i += 1;
    }
    proof {
        assert forall|j: int| 0 <= j < strings_v(xs@).len() implies strings_v(xs@)[j] != x@ by {
            assert(strings_v(xs@)[j] == xs@[j]@);
        }
    }
    false
}

fn is_stale(p: &Proposal, uncl: &Vec<String>) -> (r: bool)
    ensures
        r == stale(*p, strings_v(uncl@)),
{
    if p.status != ProposalStatus::Proposed {
        return false;
    }
    let mut j: usize = 0;
    while j < p.spans.len()
        invariant
            j <= p.spans@.len(),
            p.status == ProposalStatus::Proposed,
            forall|x: int| 0 <= x < j ==> in_strings(strings_v(uncl@), (#[trigger] p.spans@[x])@),
        decreases p.spans@.len() - j,
    {
        if !in_list(uncl, p.spans[j].as_str()) {
            return true;
        }
        j += 1;
    }
    false
}

fn has_proposal_for(items: &Vec<Proposal>, id: &str) -> (r: bool)
    ensures
        r == proposed_for(items@, id@),
{
    let mut k: usize = 0;
    while k < items.len()
        invariant
            k <= items@.len(),
            forall|a: int, j: int| 0 <= a < k && (#[trigger] items@[a]).status == ProposalStatus::Proposed && 0 <= j < items@[a].spans@.len() ==> (#[trigger] items@[a].spans@[j])@ != id@,
        decreases items@.len() - k,
    {
        if items[k].status == ProposalStatus::Proposed {
            let mut j: usize = 0;
            while j < items[k].spans.len()
                invariant
                    j <= items@[k as int].spans@.len(),
                    k < items@.len(),
                    items@[k as int].status == ProposalStatus::Proposed,
                    forall|x: int| 0 <= x < j ==> (#[trigger] items@[k as int].spans@[x])@ != id@,
                decreases items@[k as int].spans@.len() - j,
            {
                if same(items[k].spans[j].as_str(), id) {
                    proof {
                        assert(items@[k as int].spans@[j as int]@ == id@);
                    }
                    return true;
                }
                j += 1;
            }
        }
        k += 1;
    }
    false
}

/// Start a pre-fill run over `unclassified`: the job is running with `batches` to do; pending
/// proposals for spans no longer unclassified are dropped; spans that still have a pending
/// proposal are not asked again.
pub fn prefill_start(snap: &Snapshot, unclassified: &Vec<String>, prior: Proposals, model: Option<String>, now: i128) -> (r: PrefillRun)
    ensures
        r.job.state == JobState::Running,
        r.job.doc@ == snap.doc@,
        r.job.snapshot@ == snap.sha@,
        r.job.done == 0,
        r.job.total == batches(unclassified@.len()),
        r.job.error is None,
        r.job.model == model,
        r.job.started == now,
        r.job.finished is None,
        r.all.items@ == keep_fresh(prior.items@, strings_v(unclassified@)),
        strings_v(r.todo@) == todo_of(strings_v(unclassified@), keep_fresh(prior.items@, strings_v(unclassified@))),
        r.pos == 0,
        !r.in_flight,
{
    let n = unclassified.len();
    let total: usize = if n == 0 { 1 } else { n / 40 + if n % 40 == 0 { 0 } else { 1 } };
    proof {
        assert(total == batches(n as nat));
    }
    let ghost uv = strings_v(unclassified@);
    let ghost items0 = prior.items@;
    let mut rest = prior.items;
    let mut kept_rev: Vec<Proposal> = Vec::new();
    while rest.len() > 0
        invariant
            items0.len() >= rest@.len(),
            rest@ == items0.take(rest@.len() as int),
            uv == strings_v(unclassified@),
            keep_fresh(items0, uv) == keep_fresh(rest@, uv) + kept_rev@.reverse(),
        decreases rest@.len(),
    {
        let ghost r0 = rest@;
        let p = rest.pop().unwrap();
        proof {
            assert(rest@ == r0.drop_last());
            assert(rest@ =~= items0.take(rest@.len() as int));
        }
        if !is_stale(&p, unclassified) {
            let ghost k0 = kept_rev@;
            kept_rev.push(p);
            proof {
                assert(kept_rev@.reverse() =~= seq![p] + k0.reverse());
                assert(keep_fresh(r0, uv) == keep_fresh(rest@, uv).push(p));
                assert(keep_fresh(rest@, uv).push(p) + k0.reverse() =~= keep_fresh(rest@, uv) + (seq![p] + k0.reverse()));
            }
        }
    }
    proof {
        assert(keep_fresh(rest@, uv) =~= Seq::<Proposal>::empty());
    }
    let mut items: Vec<Proposal> = Vec::new();
    while kept_rev.len() > 0
        invariant
            keep_fresh(items0, uv) == items@ + kept_rev@.reverse(),
        decreases kept_rev@.len(),
    {
        let ghost k0 = kept_rev@;
        let p = kept_rev.pop().unwrap();
        items.push(p);
        proof {
            assert(k0.reverse() =~= seq![p] + kept_rev@.reverse());
        }
    }
    proof {
        assert(items@ =~= keep_fresh(items0, uv));
    }
    let mut todo: Vec<String> = Vec::new();
    let mut i: usize = 0;
    while i < unclassified.len()
        invariant
            i <= unclassified@.len(),
            uv == strings_v(unclassified@),
            items@ == keep_fresh(items0, uv),
            strings_v(todo@) == todo_of(uv.take(i as int), items@),
        decreases unclassified@.len() - i,
    {
        proof {
            assert(uv.take(i as int + 1).drop_last() =~= uv.take(i as int));
            assert(uv.take(i as int + 1).last() == unclassified@[i as int]@);
        }
        if !has_proposal_for(&items, unclassified[i].as_str()) {
            let ghost t0 = todo@;
            todo.push(copy_str(unclassified[i].as_str()));
            proof {
                assert(strings_v(todo@) =~= strings_v(t0).push(unclassified@[i as int]@));
            }
        }
        i += 1;
    }
    proof {
        assert(uv.take(uv.len() as int) =~= uv);
    }
    let job = Job {
        state: JobState::Running,
        doc: copy_str(snap.doc.as_str()),
        snapshot: copy_str(snap.sha.as_str()),
        done: 0,
        total,
        error: None,
        model,
        started: now,
        finished: None,
    };
    PrefillRun { job, all: Proposals { items }, todo, pos: 0, in_flight: false }
}


/// End of the batch that starts at `pos`.
pub open spec fn chunk_end(pos: nat, len: nat) -> nat {
    if pos + BATCH <= len { (pos + BATCH) as nat } else { len }
}

/// `(id, text, section)` of the spans with the ids `ids` (unknown ids left out).
pub open spec fn batch_spans(spans: Seq<Span>, ids: Seq<Seq<char>>) -> Seq<(Seq<char>, Seq<char>, Option<Seq<char>>)>
    decreases ids.len(),
{
    if ids.len() == 0 {
        Seq::empty()
    } else {
        let b = batch_spans(spans, ids.drop_last());
        match crate::reconcile::last_with_id(spans, ids.last()) {
            Some(j) => b.push((spans[j].id@, spans[j].text@, opt_v(spans[j].section))),
            None => b,
        }
    }
}

/// The first six characters of the snapshot sha, which prefix the ids of its proposals.
pub open spec fn sha_prefix(sha: Seq<char>) -> Seq<char> {
    if sha.len() <= 6 { sha } else { sha.take(6) }
}

/// Every span of the proposal is in the batch.
pub open spec fn within(p: Proposal, chunk: Seq<Seq<char>>) -> bool {
    forall|j: int| 0 <= j < p.spans@.len() ==> in_strings(chunk, (#[trigger] p.spans@[j])@)
}

/// The proposals of a reply that stay within the batch, in order.
pub open spec fn accepted_reply(ps: Seq<Proposal>, chunk: Seq<Seq<char>>) -> Seq<Proposal>
    decreases ps.len(),
{
    if ps.len() == 0 {
        Seq::empty()
    } else if within(ps[0], chunk) {
        seq![ps[0]] + accepted_reply(ps.drop_first(), chunk)
    } else {
        accepted_reply(ps.drop_first(), chunk)
    }
}

/// `q` is `p` with its id prefixed by `prefix` and `-`.
pub open spec fn renamed(q: Proposal, p: Proposal, prefix: Seq<char>) -> bool {
    &&& q.id@ == prefix + seq!['-'] + p.id@
    &&& q.spans == p.spans
    &&& q.proposed == p.proposed
    &&& q.status == p.status
    &&& q.rationale == p.rationale
    &&& q.result == p.result
}

pub open spec fn step_is(st: PrefillStep, ask: bool, save_proposals: bool, save_job: bool, stop: bool) -> bool {
    &&& (st.ask is Some) == ask
    &&& st.save_proposals == save_proposals
    &&& st.save_job == save_job
    &&& st.stop == stop
}

fn within_exec(p: &Proposal, chunk: &Vec<String>, a: usize, b: usize) -> (r: bool)
    requires
        a <= b <= chunk@.len(),
    ensures
        r == within(*p, strings_v(chunk@.subrange(a as int, b as int))),
{
    let ghost c = strings_v(chunk@.subrange(a as int, b as int));
    let mut j: usize = 0;
    while j < p.spans.len()
        invariant
            j <= p.spans@.len(),
            a <= b <= chunk@.len(),
            c == strings_v(chunk@.subrange(a as int, b as int)),
            forall|x: int| 0 <= x < j ==> in_strings(c, (#[trigger] p.spans@[x])@),
        decreases p.spans@.len() - j,
    {
        let mut found = false;
        let mut k = a;
        while k < b
            invariant
                a <= k <= b <= chunk@.len(),
                j < p.spans@.len(),
                c == strings_v(chunk@.subrange(a as int, b as int)),
                found ==> in_strings(c, p.spans@[j as int]@),
                !found ==> forall|y: int| a <= y < k ==> chunk@[y]@ != p.spans@[j as int]@,
            decreases b - k,
        {
            if same(chunk[k].as_str(), p.spans[j].as_str()) {
                proof {
                    assert(c[k - a] == chunk@[k as int]@);
                }
                found = true;
            }
            k += 1;
        }
        if !found {
            proof {
                assert forall|y: int| 0 <= y < c.len() implies c[y] != p.spans@[j as int]@ by {
                    assert(c[y] == chunk@[a + y]@);
                }
                assert(!in_strings(c, p.spans@[j as int]@));
            }
            return false;
        }
        j += 1;
    }
    true
}

fn copy_pairs(v: &Vec<(String, String)>) -> (r: Vec<(String, String)>)
    ensures
        pairs_v(r@) == pairs_v(v@),
{
    let mut out: Vec<(String, String)> = Vec::new();
    let mut i: usize = 0;
    while i < v.len()
        invariant
            i <= v@.len(),
            pairs_v(out@) == pairs_v(v@.take(i as int)),
        decreases v@.len() - i,
    {
        let ghost o0 = out@;
        out.push((copy_str(v[i].0.as_str()), copy_str(v[i].1.as_str())));
        proof {
            assert(pairs_v(out@) =~= pairs_v(o0).push((v@[i as int].0@, v@[i as int].1@)));
            assert(pairs_v(v@.take(i as int + 1)) =~= pairs_v(v@.take(i as int)).push((v@[i as int].0@, v@[i as int].1@)));
        }
        i += 1;
    }
    proof {
        assert(v@.take(v@.len() as int) =~= v@);
    }
    out
}

/// One step of the pre-fill worker. A failure ends the run in error; a reply to the batch in
/// flight keeps the proposals that stay within the batch (their ids prefixed by the snapshot)
/// and counts the batch done; otherwise the next batch is asked for, counted done at once if
/// none of its spans is in the snapshot, or the run ends done when no batch is left.
pub fn run_prefill(
    run: &mut PrefillRun,
    ev: PrefillEvent,
    snap: &Snapshot,
    existing_reqs: &Vec<(String, String)>,
    existing_groups: &Vec<String>,
    now: i128,
) -> (step: PrefillStep)
    requires
        old(run).pos <= old(run).todo@.len(),
        old(run).job.done <= old(run).pos,
        old(run).in_flight ==> old(run).pos < old(run).todo@.len(),
    ensures
        final(run).pos <= final(run).todo@.len(),
        final(run).job.done <= final(run).pos,
        final(run).in_flight ==> final(run).pos < final(run).todo@.len(),
        final(run).todo == old(run).todo,
        final(run).job.doc == old(run).job.doc,
        final(run).job.snapshot == old(run).job.snapshot,
        final(run).job.total == old(run).job.total,
        final(run).job.model == old(run).job.model,
        final(run).job.started == old(run).job.started,
        ({
            let chunk = strings_v(old(run).todo@.subrange(old(run).pos as int, chunk_end(old(run).pos as nat, old(run).todo@.len()) as int));
            let spans = batch_spans(snap.spans@, chunk);
            match ev {
                PrefillEvent::Failed(e) => {
                    &&& final(run).job.state == JobState::Error
                    &&& final(run).job.error == Some(e)
                    &&& final(run).job.finished == Some(now)
                    &&& final(run).job.done == old(run).job.done
                    &&& final(run).all == old(run).all
                    &&& final(run).pos == old(run).pos
                    &&& step_is(step, false, false, true, true)
                },
                PrefillEvent::Reply(ps) if old(run).in_flight => {
                    let acc = accepted_reply(ps@, chunk);
                    &&& final(run).job.state == old(run).job.state
                    &&& final(run).job.error == old(run).job.error
                    &&& final(run).job.finished == old(run).job.finished
                    &&& final(run).job.done == old(run).job.done + 1
                    &&& final(run).pos == chunk_end(old(run).pos as nat, old(run).todo@.len())
                    &&& !final(run).in_flight
                    &&& final(run).all.items@.len() == old(run).all.items@.len() + acc.len()
                    &&& final(run).all.items@.take(old(run).all.items@.len() as int) == old(run).all.items@
                    &&& forall|k: int| 0 <= k < acc.len() ==> renamed(#[trigger] final(run).all.items@[old(run).all.items@.len() + k], acc[k], sha_prefix(snap.sha@))
                    &&& step_is(step, false, true, true, false)
                },
                _ => {
                    &&& final(run).all == old(run).all
                    &&& final(run).job.error == old(run).job.error
                    &&& if old(run).pos >= old(run).todo@.len() {
                        &&& final(run).job.state == JobState::Done
                        &&& final(run).job.finished == Some(now)
                        &&& final(run).job.done == old(run).job.done
                        &&& final(run).pos == old(run).pos
                        &&& step_is(step, false, false, true, true)
                    } else if spans.len() == 0 {
                        &&& final(run).job.state == old(run).job.state
                        &&& final(run).job.finished == old(run).job.finished
                        &&& final(run).job.done == old(run).job.done + 1
                        &&& final(run).pos == chunk_end(old(run).pos as nat, old(run).todo@.len())
                        &&& !final(run).in_flight
                        &&& step_is(step, false, false, true, false)
                    } else {
                        &&& final(run).job.state == old(run).job.state
                        &&& final(run).job.finished == old(run).job.finished
                        &&& final(run).job.done == old(run).job.done
                        &&& final(run).pos == old(run).pos
                        &&& final(run).in_flight
                        &&& step_is(step, true, false, false, false)
                        &&& step.ask.unwrap()@ == spec_prompt(snap.doc@, spans, pairs_v(existing_reqs@), strings_v(existing_groups@))
                    }
                },
            }
        }),
{
    let len = run.todo.len();
    let cend = if len - run.pos >= BATCH { run.pos + BATCH } else { len };
    let ghost chunk = strings_v(run.todo@.subrange(run.pos as int, cend as int));
    match ev {
        PrefillEvent::Failed(e) => {
            run.job.state = JobState::Error;
            run.job.error = Some(e);
            run.job.finished = Some(now);
            return PrefillStep { ask: None, save_proposals: false, save_job: true, stop: true };
        },
        PrefillEvent::Reply(ps) => {
            if run.in_flight {
                assert(run.pos < cend);
                let ghost ps0 = ps@;
                let mut rest = ps;
                let mut acc: Vec<Proposal> = Vec::new();
                while rest.len() > 0
                    invariant
                        run.pos <= cend <= run.todo@.len(),
                        run.pos < cend,
                        run.job.done <= run.pos,
                        chunk == strings_v(run.todo@.subrange(run.pos as int, cend as int)),
                        acc@ + accepted_reply(rest@, chunk) == accepted_reply(ps0, chunk),
                    decreases rest@.len(),
                {
                    let ghost r0 = rest@;
                    let p = rest.remove(0);
                    proof {
                        assert(rest@ =~= r0.drop_first());
                    }
                    if within_exec(&p, &run.todo, run.pos, cend) {
                        let ghost a0 = acc@;
                        acc.push(p);
                        proof {
                            assert(a0 + (seq![p] + accepted_reply(rest@, chunk)) =~= acc@ + accepted_reply(rest@, chunk));
                        }
                    }
                }
                proof {
                    assert(acc@ =~= accepted_reply(ps0, chunk));
                }
                let sv = chars_of(snap.sha.as_str());
                let n6 = if sv.len() <= 6 { sv.len() } else { 6 };
                let prefix = string_of(crate::segment::sub_chars(&sv, 0, n6).as_slice());
                proof {
                    if sv@.len() <= 6 {
                        assert(sv@.subrange(0, n6 as int) =~= sv@);
                    } else {
                        assert(sv@.subrange(0, n6 as int) =~= sv@.take(6));
                    }
                }
                let ghost items0 = run.all.items@;
                let ghost accv = acc@;
                let ghost todo0 = run.todo;
                let ghost job0 = run.job;
                let ghost pos0 = run.pos;
                let na = acc.len();
                let mut k: usize = 0;
                while acc.len() > 0
                    invariant
                        run.pos < cend <= run.todo@.len(),
                        run.job.done <= run.pos,
                        run.todo == todo0,
                        run.job == job0,
                        run.pos == pos0,
                        run.in_flight,
                        accv.len() == na,
                        k + acc@.len() == accv.len(),
                        acc@ == accv.skip(k as int),
                        prefix@ == sha_prefix(snap.sha@),
                        run.all.items@.len() == items0.len() + k,
                        run.all.items@.take(items0.len() as int) == items0,
                        forall|x: int| 0 <= x < k ==> renamed(#[trigger] run.all.items@[items0.len() + x], accv[x], prefix@),
                    decreases acc@.len(),
                {
                    let ghost a0 = acc@;
                    let mut p = acc.remove(0);
                    proof {
                        assert(acc@ =~= accv.skip(k as int + 1));
                        assert(p == accv[k as int]);
                    }
                    let mut id = copy_str(prefix.as_str());
                    push_char(&mut id, '-');
                    push_str(&mut id, p.id.as_str());
                    proof {
                        assert(id@ =~= prefix@ + seq!['-'] + accv[k as int].id@);
                    }
                    p.id = id;
                    let ghost i0 = run.all.items@;
                    run.all.items.push(p);
                    proof {
                        assert(run.all.items@.take(items0.len() as int) =~= i0.take(items0.len() as int));
                        assert forall|x: int| 0 <= x < k + 1 implies renamed(#[trigger] run.all.items@[items0.len() + x], accv[x], prefix@) by {
                            if x < k {
                                assert(run.all.items@[items0.len() + x] == i0[items0.len() + x]);
                            } else {
                                assert(run.all.items@[items0.len() + x] == p);
                            }
                        }
                    }
                    k += 1;
                }
                run.job.done = run.job.done + 1;
                run.pos = cend;
                run.in_flight = false;
                return PrefillStep { ask: None, save_proposals: true, save_job: true, stop: false };
            }
        },
        PrefillEvent::Next => {},
    }
    if run.pos >= len {
        run.job.state = JobState::Done;
        run.job.finished = Some(now);
        return PrefillStep { ask: None, save_proposals: false, save_job: true, stop: true };
    }
    let mut spans: Vec<(&str, &str, Option<&str>)> = Vec::new();
    let mut i = run.pos;
    while i < cend
        invariant
            run.pos <= i <= cend <= run.todo@.len(),
            spans_v(spans@) == batch_spans(snap.spans@, strings_v(run.todo@.subrange(run.pos as int, i as int))),
        decreases cend - i,
    {
        let ghost ids = strings_v(run.todo@.subrange(run.pos as int, i as int + 1));
        proof {
            assert(ids.drop_last() =~= strings_v(run.todo@.subrange(run.pos as int, i as int)));
            assert(ids.last() == run.todo@[i as int]@);
        }
        match crate::reconcile::last_with_id_exec(&snap.spans, run.todo[i].as_str()) {
            Some(j) => {
                proof {
                    crate::reconcile::lemma_last_with_id(snap.spans@, run.todo@[i as int]@);
                }
                let s = &snap.spans[j];
                let sec: Option<&str> = match &s.section {
                    Some(x) => Some(x.as_str()),
                    None => None,
                };
                let ghost s0 = spans@;
                spans.push((s.id.as_str(), s.text.as_str(), sec));
                proof {
                    assert(spans_v(spans@) =~= spans_v(s0).push((s.id@, s.text@, opt_v(s.section))));
                }
            },
            None => {},
        }
        i += 1;
    }
    if spans.len() == 0 {
        run.job.done = run.job.done + 1;
        run.pos = cend;
        run.in_flight = false;
        return PrefillStep { ask: None, save_proposals: false, save_job: true, stop: false };
    }
    let b = BatchInput {
        doc: snap.doc.as_str(),
        spans,
        existing_reqs: copy_pairs(existing_reqs),
        existing_groups: copy_strings(existing_groups),
    };
    let prompt = build_prompt(&b);
    run.in_flight = true;
    PrefillStep { ask: Some(prompt), save_proposals: false, save_job: false, stop: false }
}

// ---------- starting a pre-fill ----------

pub open spec fn no_agent_message() -> Seq<char> {
    "no agent backend: install the agent CLI and log in, or set KANSA_AGENT_CMD"@
}

/// Why a pre-fill of `doc` cannot start: no agent backend, or one already running.
pub fn prefill_refusal(available: bool, job: &Option<Job>, doc: &str) -> (r: Option<String>)
    ensures
        !available ==> (r matches Some(m) && m@ == no_agent_message()),
        available && (job matches Some(j) && j.state == JobState::Running) ==> (r matches Some(m)
            && m@ == "a pre-fill is already running for "@ + doc@),
        available && !(job matches Some(j) && j.state == JobState::Running) ==> r is None,
{
    if !available {
        proof {
            reveal_strlit("no agent backend: install the agent CLI and log in, or set KANSA_AGENT_CMD");
        }
        return Some(copy_str("no agent backend: install the agent CLI and log in, or set KANSA_AGENT_CMD"));
    }
    match job {
        Some(j) => {
            if j.state == JobState::Running {
                let mut m = copy_str("a pre-fill is already running for ");
                push_str(&mut m, doc);
                proof {
                    reveal_strlit("a pre-fill is already running for ");
                }
                Some(m)
            } else {
                None
            }
        },
        None => None,
    }
}

/// A span the agent is asked about: unclassified and not structural.
pub open spec fn asked(st: crate::coverage::SpanStatus) -> bool {
    st.state == crate::coverage::SpanState::Unclassified && !st.structural
}

/// The ids of the spans the agent is asked about, in snapshot order.
pub fn unclassified_prose(cov: &crate::coverage::DocCoverage) -> (r: Vec<String>)
    ensures
        strings_v(r@) == cov.spans@.filter(|e: (String, crate::coverage::SpanStatus)| asked(e.1)).map_values(|e: (String, crate::coverage::SpanStatus)| e.0@),
{
    let ghost sp = cov.spans@;
    let ghost f = |e: (String, crate::coverage::SpanStatus)| asked(e.1);
    let mut out: Vec<String> = Vec::new();
    let mut i: usize = 0;
    while i < cov.spans.len()
        invariant
            i <= sp.len(),
            sp == cov.spans@,
            f == (|e: (String, crate::coverage::SpanStatus)| asked(e.1)),
            strings_v(out@) == sp.take(i as int).filter(f).map_values(|e: (String, crate::coverage::SpanStatus)| e.0@),
        decreases sp.len() - i,
    {
        let e = &cov.spans[i];
        proof {
            assert(sp.take(i as int + 1) =~= sp.take(i as int).push(*e));
            sp.take(i as int).lemma_filter_push(*e, f);
        }
        if e.1.state == crate::coverage::SpanState::Unclassified && !e.1.structural {
            let ghost o0 = strings_v(out@);
            out.push(copy_str(e.0.as_str()));
            proof {
                let fl = sp.take(i as int).filter(f);
                assert(fl.push(*e).map_values(|e: (String, crate::coverage::SpanStatus)| e.0@) =~= fl.map_values(|e: (String, crate::coverage::SpanStatus)| e.0@).push(e.0@));
                assert(strings_v(out@) =~= o0.push(e.0@));
            }
        }
        i += 1;
    }
    proof {
        assert(sp.take(sp.len() as int) =~= sp);
    }
    out
}

/// The requirements the agent is told about: each current one not retired, as
/// `(slug, statement)`.
pub fn existing_reqs(reqs: &Vec<crate::model::ReqRev>) -> (r: Vec<(String, String)>)
    ensures
        r@.map_values(|p: (String, String)| (p.0@, p.1@)) == reqs@.filter(|q: crate::model::ReqRev| q.status != crate::model::Status::Retired)
            .map_values(|q: crate::model::ReqRev| (q.id.slug@, q.statement@)),
{
    let ghost rs = reqs@;
    let ghost f = |q: crate::model::ReqRev| q.status != crate::model::Status::Retired;
    let mut out: Vec<(String, String)> = Vec::new();
    let mut i: usize = 0;
    while i < reqs.len()
        invariant
            i <= rs.len(),
            rs == reqs@,
            f == (|q: crate::model::ReqRev| q.status != crate::model::Status::Retired),
            out@.map_values(|p: (String, String)| (p.0@, p.1@)) == rs.take(i as int).filter(f).map_values(|q: crate::model::ReqRev| (q.id.slug@, q.statement@)),
        decreases rs.len() - i,
    {
        let q = &reqs[i];
        proof {
            assert(rs.take(i as int + 1) =~= rs.take(i as int).push(*q));
            rs.take(i as int).lemma_filter_push(*q, f);
        }
        if q.status != crate::model::Status::Retired {
            let ghost o0 = out@;
            out.push((copy_str(q.id.slug.as_str()), copy_str(q.statement.as_str())));
            proof {
                let fl = rs.take(i as int).filter(f);
                assert(fl.push(*q).map_values(|q: crate::model::ReqRev| (q.id.slug@, q.statement@)) =~= fl.map_values(|q: crate::model::ReqRev| (q.id.slug@, q.statement@)).push((q.id.slug@, q.statement@)));
                assert(out@.map_values(|p: (String, String)| (p.0@, p.1@)) =~= o0.map_values(|p: (String, String)| (p.0@, p.1@)).push((q.id.slug@, q.statement@)));
            }
        }
        i += 1;
    }
    proof {
        assert(rs.take(rs.len() as int) =~= rs);
    }
    out
}

// ---------- EARS pattern names ----------

/// The name a pattern is written under: its words in lowercase, joined by `-`.
pub open spec fn pattern_name(p: Pattern) -> Seq<char> {
    match p {
        Pattern::Ubiquitous => "ubiquitous"@,
        Pattern::EventDriven => "event-driven"@,
        Pattern::StateDriven => "state-driven"@,
        Pattern::Unwanted => "unwanted"@,
        Pattern::Optional => "optional"@,
        Pattern::Complex => "complex"@,
    }
}

/// The other name a pattern is known by: `event`, `state`, `unwanted-behaviour`; the others
/// have only their own.
pub open spec fn pattern_short_name(p: Pattern) -> Seq<char> {
    match p {
        Pattern::EventDriven => "event"@,
        Pattern::StateDriven => "state"@,
        Pattern::Unwanted => "unwanted-behaviour"@,
        _ => pattern_name(p),
    }
}

/// `s` spells the lowercase `name` in any ASCII case, with `_` or `-` between words.
pub open spec fn spells(s: Seq<char>, name: Seq<char>) -> bool {
    &&& s.len() == name.len()
    &&& forall|j: int|
        0 <= j < s.len() ==> (#[trigger] s[j] == name[j] || (crate::text::is_lower(name[j]) && crate::text::lower_of(s[j]) == name[j]) || (
        name[j] == '-' && s[j] == '_'))
}

proof fn lemma_spells_dashed(s: Seq<char>, name: Seq<char>)
    requires
        spells(s, name),
        forall|j: int| 0 <= j < name.len() ==> !crate::text::is_upper_ascii(#[trigger] name[j]) && name[j] != '_',
    ensures
        dashed(s) == name,
{
    assert forall|j: int| 0 <= j < s.len() implies #[trigger] dashed(s)[j] == name[j] by {
        assert(s[j] == name[j] || (crate::text::is_lower(name[j]) && crate::text::lower_of(s[j]) == name[j]) || (name[j] == '-' && s[j] == '_'));
    }
    assert(dashed(s) =~= name);
}

/// Every EARS pattern is read back from its name, or from its other name, in any case and
/// with `_` or `-` between words; so different patterns' names never give the same pattern.
pub proof fn law_pattern_names_parse_to_their_pattern(p: Pattern, s: Seq<char>)
    requires
        spells(s, pattern_name(p)) || spells(s, pattern_short_name(p)),
    ensures
        spec_parse_pattern(s) == Some(p),
{
    reveal_strlit("ubiquitous");
    reveal_strlit("event-driven");
    reveal_strlit("event");
    reveal_strlit("state-driven");
    reveal_strlit("state");
    reveal_strlit("unwanted");
    reveal_strlit("unwanted-behaviour");
    reveal_strlit("unwanted-behavior");
    reveal_strlit("optional");
    reveal_strlit("complex");
    let n = if spells(s, pattern_name(p)) { pattern_name(p) } else { pattern_short_name(p) };
    assert forall|j: int| 0 <= j < n.len() implies !crate::text::is_upper_ascii(#[trigger] n[j]) && n[j] != '_' by {
    }
    lemma_spells_dashed(s, n);
    let t = dashed(s);
    assert(t == n);
    // the names are told apart by their length or first letter
    assert(t.len() != "ubiquitous"@.len() || t[0] != 'u' ==> t != "ubiquitous"@);
    assert(t.len() != "event-driven"@.len() || t[0] != 'e' ==> t != "event-driven"@);
    assert(t.len() != "event"@.len() || t[0] != 'e' ==> t != "event"@);
    assert(t.len() != "state-driven"@.len() || t[0] != 's' ==> t != "state-driven"@);
    assert(t.len() != "state"@.len() || t[0] != 's' ==> t != "state"@);
    assert(t.len() != "unwanted"@.len() || t[0] != 'u' ==> t != "unwanted"@);
    assert(t.len() != "unwanted-behaviour"@.len() ==> t != "unwanted-behaviour"@);
    assert(t.len() != "unwanted-behavior"@.len() ==> t != "unwanted-behavior"@);
    assert(t.len() != "optional"@.len() ==> t != "optional"@);
    assert(t.len() != "complex"@.len() ==> t != "complex"@);
}

} // verus!
