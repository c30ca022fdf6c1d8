//! Structured, transparent responses: facts backed by graph evidence,
//! inferences carrying a confidence percentage, and unknowns explaining
//! what was missing — rendered by a fixed plain-text template with no
//! silent gap-filling.

use vstd::prelude::*;
use vstd::string::StringExecFns;
use crate::primitives::NodeId;

verus! {

/// The decimal digit character for a value below ten.
pub open spec fn digit_char(d: nat) -> char {
    if d == 0 {
        '0'
    } else if d == 1 {
        '1'
    } else if d == 2 {
        '2'
    } else if d == 3 {
        '3'
    } else if d == 4 {
        '4'
    } else if d == 5 {
        '5'
    } else if d == 6 {
        '6'
    } else if d == 7 {
        '7'
    } else if d == 8 {
        '8'
    } else {
        '9'
    }
}

/// The decimal digits of a number, most significant first.
pub open spec fn dec_digits(n: nat) -> Seq<char>
    decreases n,
{
    if n < 10 {
        Seq::empty().push(digit_char(n))
    } else {
        dec_digits(n / 10).push(digit_char(n % 10))
    }
}

/// The one-character string for a decimal digit.
fn digit_str(d: u64) -> (r: &'static str)
    requires
        d < 10,
    ensures
        r@ == Seq::empty().push(digit_char(d as nat)),
{
    proof {
        reveal_strlit("0");
        reveal_strlit("1");
        reveal_strlit("2");
        reveal_strlit("3");
        reveal_strlit("4");
        reveal_strlit("5");
        reveal_strlit("6");
        reveal_strlit("7");
        reveal_strlit("8");
        reveal_strlit("9");
    }
    let r = if d == 0 {
        "0"
    } else if d == 1 {
        "1"
    } else if d == 2 {
        "2"
    } else if d == 3 {
        "3"
    } else if d == 4 {
        "4"
    } else if d == 5 {
        "5"
    } else if d == 6 {
        "6"
    } else if d == 7 {
        "7"
    } else if d == 8 {
        "8"
    } else {
        "9"
    };
    proof {
        assert(r@ =~= Seq::empty().push(digit_char(d as nat)));
    }
    r
}

/// Format a number in decimal.
pub fn u64_to_string(n: u64) -> (r: String)
    ensures
        r@ == dec_digits(n as nat),
    decreases n,
{
    if n < 10 {
        let mut s = String::new();
        s.append(digit_str(n));
        proof {
            assert(s@ =~= dec_digits(n as nat));
        }
        s
    } else {
        let mut s = u64_to_string(n / 10);
        s.append(digit_str(n % 10));
        proof {
            assert(s@ =~= dec_digits(n as nat));
        }
        s
    }
}

/// A fact: a statement directly supported by graph structure, with the
/// evidence path that supports it.
#[derive(Debug, Clone, PartialEq, Eq)]
pub struct Fact {
    /// The factual statement.
    pub statement: String,
    /// The nodes traversed as evidence.
    pub evidence_path: Vec<NodeId>,
}

impl Fact {
    /// A fact with its evidence.
    pub fn new(statement: String, evidence_path: Vec<NodeId>) -> (r: Fact)
        ensures
            r.statement == statement,
            r.evidence_path == evidence_path,
    {
        Fact { statement, evidence_path }
    }

    /// Whether any evidence backs the fact.
    pub fn has_evidence(&self) -> (r: bool)
        ensures
            r == (self.evidence_path@.len() > 0),
    {
        !self.evidence_path.is_empty()
    }
}

/// An inference: a deduction with a 0–100 confidence and its reasoning.
#[derive(Debug, Clone, PartialEq, Eq)]
pub struct Inference {
    /// The inferred statement.
    pub statement: String,
    /// Confidence, 0 to 100.
    pub confidence: u8,
    /// The reasoning behind the inference.
    pub reasoning: String,
}

impl Inference {
    /// An inference with its confidence clamped to 100.
    pub fn new(statement: String, confidence: u8, reasoning: String) -> (r: Inference)
        ensures
            r.statement == statement,
            r.confidence == (if confidence > 100 { 100u8 } else { confidence }),
            r.reasoning == reasoning,
    {
        Inference {
            statement,
            confidence: if confidence > 100 { 100 } else { confidence },
            reasoning,
        }
    }

    /// Whether the inference is high confidence (at least 70).
    pub fn is_high_confidence(&self) -> (r: bool)
        ensures
            r == (self.confidence >= 70),
    {
        self.confidence >= 70
    }

    /// Whether the inference is low confidence (below 50).
    pub fn is_low_confidence(&self) -> (r: bool)
        ensures
            r == (self.confidence < 50),
    {
        self.confidence < 50
    }
}

/// An unknown: a question the graph could not answer, with what was
/// missing.
#[derive(Debug, Clone, PartialEq, Eq)]
pub struct Unknown {
    /// The query that could not be answered.
    pub query: String,
    /// What structure was missing.
    pub explanation: String,
}

impl Unknown {
    /// An unknown with its explanation.
    pub fn new(query: String, explanation: String) -> (r: Unknown)
        ensures
            r.query == query,
            r.explanation == explanation,
    {
        Unknown { query, explanation }
    }
}

/// The rendered id list of an evidence path from position `i` on, each id
/// preceded by an arrow separator.
pub open spec fn path_tail_text(p: Seq<NodeId>, i: int) -> Seq<char>
    decreases p.len() - i,
{
    if i < 0 || i >= p.len() {
        Seq::empty()
    } else {
        "→"@ + dec_digits(p[i].0 as nat) + path_tail_text(p, i + 1)
    }
}

/// The rendered evidence path: ids joined by arrows, or a fixed marker
/// when there is none.
pub open spec fn path_text(p: Seq<NodeId>) -> Seq<char> {
    if p.len() == 0 {
        "no path"@
    } else {
        dec_digits(p[0].0 as nat) + path_tail_text(p, 1)
    }
}

/// One rendered fact line.
pub open spec fn fact_line(f: Fact) -> Seq<char> {
    "│ - "@ + f.statement@ + " [path: "@ + path_text(f.evidence_path@) + "]\n"@
}

/// One rendered inference line.
pub open spec fn inference_line(f: Inference) -> Seq<char> {
    "│ - "@ + f.statement@ + " ["@ + dec_digits(f.confidence as nat) + "% confidence]\n"@
}

/// One rendered unknown line.
pub open spec fn unknown_line(u: Unknown) -> Seq<char> {
    "│ - "@ + u.query@ + ": "@ + u.explanation@ + "\n"@
}

/// The rendered lines of a section from position `i` on, or the fixed
/// empty marker for an empty section.
pub open spec fn fact_lines(fs: Seq<Fact>, i: int) -> Seq<char>
    decreases fs.len() - i,
{
    if i < 0 || i >= fs.len() {
        Seq::empty()
    } else {
        fact_line(fs[i]) + fact_lines(fs, i + 1)
    }
}

/// The rendered inference lines from position `i` on.
pub open spec fn inference_lines(fs: Seq<Inference>, i: int) -> Seq<char>
    decreases fs.len() - i,
{
    if i < 0 || i >= fs.len() {
        Seq::empty()
    } else {
        inference_line(fs[i]) + inference_lines(fs, i + 1)
    }
}

/// The rendered unknown lines from position `i` on.
pub open spec fn unknown_lines(us: Seq<Unknown>, i: int) -> Seq<char>
    decreases us.len() - i,
{
    if i < 0 || i >= us.len() {
        Seq::empty()
    } else {
        unknown_line(us[i]) + unknown_lines(us, i + 1)
    }
}

/// The fixed line marking an empty section.
pub open spec fn none_line() -> Seq<char> {
    "│ - (none)                           │\n"@
}

/// A section body: its lines, or the empty marker.
pub open spec fn fact_section(fs: Seq<Fact>) -> Seq<char> {
    if fs.len() == 0 {
        none_line()
    } else {
        fact_lines(fs, 0)
    }
}

/// The inference section body.
pub open spec fn inference_section(fs: Seq<Inference>) -> Seq<char> {
    if fs.len() == 0 {
        none_line()
    } else {
        inference_lines(fs, 0)
    }
}

/// The unknown section body.
pub open spec fn unknown_section(us: Seq<Unknown>) -> Seq<char> {
    if us.len() == 0 {
        none_line()
    } else {
        unknown_lines(us, 0)
    }
}

/// The complete rendered response: the fixed template with the three
/// section bodies.
pub open spec fn response_text(r: HonestResponse) -> Seq<char> {
    "┌─────────────────────────────────────┐\n"@
        + "│ FACTS (Extracted from Core)        │\n"@
        + fact_section(r.facts@)
        + "├─────────────────────────────────────┤\n"@
        + "│ INFERENCES (Cortex deductions)     │\n"@
        + inference_section(r.inferences@)
        + "├─────────────────────────────────────┤\n"@
        + "│ UNKNOWN (Core returned None)       │\n"@
        + unknown_section(r.unknowns@)
        + "└─────────────────────────────────────┘\n"@
}

/// The complete transparent response: facts, inferences and unknowns,
/// clearly separated.
#[derive(Debug, Clone, PartialEq, Eq)]
pub struct HonestResponse {
    /// Facts extracted from the graph.
    pub facts: Vec<Fact>,
    /// Inferences deduced above the graph.
    pub inferences: Vec<Inference>,
    /// Questions the graph could not answer.
    pub unknowns: Vec<Unknown>,
}

impl HonestResponse {
    /// An empty response.
    pub fn new() -> (r: HonestResponse)
        ensures
            r.facts@.len() == 0,
            r.inferences@.len() == 0,
            r.unknowns@.len() == 0,
    {
        HonestResponse { facts: Vec::new(), inferences: Vec::new(), unknowns: Vec::new() }
    }

    /// Append a fact.
    pub fn add_fact(&mut self, fact: Fact)
        ensures
            final(self).facts@ == old(self).facts@.push(fact),
            final(self).inferences == old(self).inferences,
            final(self).unknowns == old(self).unknowns,
    {
        self.facts.push(fact);
    }

    /// Append an inference.
    pub fn add_inference(&mut self, inference: Inference)
        ensures
            final(self).inferences@ == old(self).inferences@.push(inference),
            final(self).facts == old(self).facts,
            final(self).unknowns == old(self).unknowns,
    {
        self.inferences.push(inference);
    }

    /// Append an unknown.
    pub fn add_unknown(&mut self, unknown: Unknown)
        ensures
            final(self).unknowns@ == old(self).unknowns@.push(unknown),
            final(self).facts == old(self).facts,
            final(self).inferences == old(self).inferences,
    {
        self.unknowns.push(unknown);
    }

    /// Whether the response carries any content at all.
    pub fn is_empty(&self) -> (r: bool)
        ensures
            r == (self.facts@.len() == 0 && self.inferences@.len() == 0 && self.unknowns@.len() == 0),
    {
        self.facts.is_empty() && self.inferences.is_empty() && self.unknowns.is_empty()
    }

    /// Render the response with the fixed plain-text template: exactly
    /// [`response_text`] of this value.
    pub fn to_text(&self) -> (r: String)
        ensures
            r@ == response_text(*self),
    {
        let mut out = String::new();
        out.append("┌─────────────────────────────────────┐\n");
        out.append("│ FACTS (Extracted from Core)        │\n");

        if self.facts.is_empty() {
            out.append("│ - (none)                           │\n");
        } else {
            let n = self.facts.len();
            let ghost base = out@;
            let mut i: usize = 0;
            while i < n
                invariant
                    i <= n,
                    n == self.facts@.len(),
                    n > 0,
                    out@ + fact_lines(self.facts@, i as int) == base + fact_lines(self.facts@, 0),
                decreases n - i,
            {
                let ghost before = out@;
                let f = &self.facts[i];
                out.append("│ - ");
                out.append(f.statement.as_str());
                out.append(" [path: ");
                if f.evidence_path.is_empty() {
                    out.append("no path");
                } else {
                    let p = &f.evidence_path;
                    let m = p.len();
                    out.append(u64_to_string(p[0].0).as_str());
                    let ghost pbase = out@;
                    let mut j: usize = 1;
                    while j < m
                        invariant
                            1 <= j <= m,
                            m == p@.len(),
                            out@ + path_tail_text(p@, j as int) == pbase + path_tail_text(p@, 1),
                        decreases m - j,
                    {
                        out.append("→");
                        out.append(u64_to_string(p[j].0).as_str());
                        j = j + 1;
                    }
                    proof {
                        assert(out@ =~= pbase + path_tail_text(p@, 1));
                    }
                }
                out.append("]\n");
                proof {
                    assert(out@ =~= before + fact_line(self.facts@[i as int]));
                    assert(out@ + fact_lines(self.facts@, i as int + 1)
                        =~= before + fact_lines(self.facts@, i as int));
                }
                i = i + 1;
            }
            proof {
                assert(out@ + Seq::<char>::empty() =~= out@);
                assert(out@ =~= base + fact_lines(self.facts@, 0));
            }
        }

        out.append("├─────────────────────────────────────┤\n");
        out.append("│ INFERENCES (Cortex deductions)     │\n");

        if self.inferences.is_empty() {
            out.append("│ - (none)                           │\n");
        } else {
            let n = self.inferences.len();
            let ghost base = out@;
            let mut i: usize = 0;
            while i < n
                invariant
                    i <= n,
                    n == self.inferences@.len(),
                    n > 0,
                    out@ + inference_lines(self.inferences@, i as int)
                        == base + inference_lines(self.inferences@, 0),
                decreases n - i,
            {
                let ghost before = out@;
                let f = &self.inferences[i];
                out.append("│ - ");
                out.append(f.statement.as_str());
                out.append(" [");
                out.append(u64_to_string(f.confidence as u64).as_str());
                out.append("% confidence]\n");
                proof {
                    assert(out@ =~= before + inference_line(self.inferences@[i as int]));
                    assert(out@ + inference_lines(self.inferences@, i as int + 1)
                        =~= before + inference_lines(self.inferences@, i as int));
                }
                i = i + 1;
            }
            proof {
                assert(out@ =~= base + inference_lines(self.inferences@, 0));
            }
        }

        out.append("├─────────────────────────────────────┤\n");
        out.append("│ UNKNOWN (Core returned None)       │\n");

        if self.unknowns.is_empty() {
            out.append("│ - (none)                           │\n");
        } else {
            let n = self.unknowns.len();
            let ghost base = out@;
            let mut i: usize = 0;
            while i < n
                invariant
                    i <= n,
                    n == self.unknowns@.len(),
                    n > 0,
                    out@ + unknown_lines(self.unknowns@, i as int)
                        == base + unknown_lines(self.unknowns@, 0),
                decreases n - i,
            {
                let ghost before = out@;
                let u = &self.unknowns[i];
                out.append("│ - ");
                out.append(u.query.as_str());
                out.append(": ");
                out.append(u.explanation.as_str());
                out.append("\n");
                proof {
                    assert(out@ =~= before + unknown_line(self.unknowns@[i as int]));
                    assert(out@ + unknown_lines(self.unknowns@, i as int + 1)
                        =~= before + unknown_lines(self.unknowns@, i as int));
                }
                i = i + 1;
            }
            proof {
                assert(out@ =~= base + unknown_lines(self.unknowns@, 0));
            }
        }

        out.append("└─────────────────────────────────────┘\n");
        proof {
            assert(out@ =~= response_text(*self));
        }
        out
    }
}

} // verus!
