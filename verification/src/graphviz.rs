//! A picture of the message graph in the DOT language, for diagnosis.

use crate::bytes32::HashVal;
use crate::chain::holds;
use crate::engine::Core;
use crate::model::CoreView;
use crate::msg::{ProposalView, SolicitView};
use crate::schedule::LeaderSchedule;
use vstd::prelude::*;

verus! {

/// The text that Rust's `Debug` writes for the string `s`: `s` between double
/// quotes, with its special characters escaped.
pub uninterp spec fn debug_quoted(s: Seq<char>) -> Seq<char>;

/// The text that `bytes` decode to as UTF-8, with each malformed part
/// replaced by U+FFFD.
pub uninterp spec fn utf8_lossy(bytes: Seq<u8>) -> Seq<char>;

/// The decimal digit of a value below 10.
pub open spec fn decimal_digit(n: int) -> char {
    seq!['0', '1', '2', '3', '4', '5', '6', '7', '8', '9'][n]
}

/// The decimal writing of `n`, without leading zeros.
pub open spec fn decimal(n: u64) -> Seq<char>
    decreases n,
{
    if n < 10 {
        seq![decimal_digit(n as int)]
    } else {
        decimal(n / 10).push(decimal_digit(n as int % 10))
    }
}

/// The hexadecimal digit, in lower case, of a value below 16.
pub open spec fn hex_digit(n: int) -> char {
    seq!['0', '1', '2', '3', '4', '5', '6', '7', '8', '9', 'a', 'b', 'c', 'd', 'e', 'f'][n]
}

/// The lower-case hexadecimal writing of `bytes`, two digits to a byte.
pub open spec fn hex_lower(bytes: Seq<u8>) -> Seq<char> {
    Seq::new(
        2 * bytes.len(),
        |i: int|
            if i % 2 == 0 {
                hex_digit(bytes[i / 2] as int / 16)
            } else {
                hex_digit(bytes[i / 2] as int % 16)
            },
    )
}

/// `String::push_str` appends the slice to the string.
pub assume_specification[ String::push_str ](s: &mut String, other: &str)
    ensures
        final(s)@ == old(s)@ + other@,
;

/// `hex::encode`, with which `tmelcrypt` prints a hash: it writes each byte
/// as two lower-case hexadecimal digits.
#[verifier::external_body]
fn hex_text(bytes: &Vec<u8>) -> (out: String)
    ensures
        out@ == hex_lower(bytes@),
{
    hex::encode(bytes)
}

/// `format!` with `{:?}` on a string: the `Debug` writing of the string,
/// which depends on its characters alone.
#[verifier::external_body]
fn quoted(s: &String) -> (out: String)
    ensures
        out@ == debug_quoted(s@),
{
    format!("{:?}", s)
}

/// `String::from_utf8_lossy`, as an owned string: the lossy decoding of the
/// bytes, which depends on the bytes alone.
#[verifier::external_body]
fn lossy_text(bytes: &Vec<u8>) -> (out: String)
    ensures
        out@ == utf8_lossy(bytes@),
{
    String::from_utf8_lossy(bytes).into_owned()
}

/// `u64::to_string` writes the number in decimal digits, the most
/// significant first, without sign or leading zeros.
#[verifier::external_body]
fn decimal_text(n: u64) -> (out: String)
    ensures
        out@ == decimal(n),
{
    n.to_string()
}

/// The name of a node in the picture: its hash in hexadecimal, quoted.
pub open spec fn node_name(h: HashVal) -> Seq<char> {
    debug_quoted(hex_lower(h.to_seq()))
}

/// The label of a solicit: the first eight digits of its hash, and its tick
/// in square brackets.
pub open spec fn solicit_label(h: HashVal, tick: u64) -> Seq<char> {
    debug_quoted(hex_lower(h.to_seq().subrange(0, 4)) + "["@ + decimal(tick) + "]"@)
}

/// The line of a proposal: a diamond labelled with the body.
pub open spec fn proposal_line(h: HashVal, p: ProposalView) -> Seq<char> {
    node_name(h) + " [label="@ + debug_quoted(utf8_lossy(p.body)) + ", shape=diamond];\n"@
}

/// The two lines of a solicit: a box, which is blue where the solicit ends a
/// longest notarized chain, and the edge to its parent.
pub open spec fn solicit_lines(c: CoreView, h: HashVal, s: SolicitView) -> Seq<char> {
    node_name(h) + " [label="@ + solicit_label(h, s.tick)
        + ", shape=box, style=filled, fillcolor="@ + (if c.is_tip(h) {
        "aliceblue"@
    } else {
        "whitesmoke"@
    }) + "];\n"@ + node_name(h) + " -> "@ + node_name(s.previous) + ";\n"@
}

/// The lines of the first `n` proposals.
pub open spec fn proposals_text(c: CoreView, n: int) -> Seq<char>
    decreases n,
{
    if n <= 0 {
        Seq::empty()
    } else {
        proposals_text(c, n - 1) + proposal_line(c.proposals[n - 1].0, c.proposals[n - 1].1)
    }
}

/// The lines of the first `n` solicits.
pub open spec fn solicits_text(c: CoreView, n: int) -> Seq<char>
    decreases n,
{
    if n <= 0 {
        Seq::empty()
    } else {
        solicits_text(c, n - 1) + solicit_lines(c, c.solicits[n - 1].0, c.solicits[n - 1].1)
    }
}

/// The whole picture: the proposals, then the solicits, each in hash order.
pub open spec fn graph_text(c: CoreView) -> Seq<char> {
    "digraph G {\n"@ + proposals_text(c, c.proposals.len() as int) + solicits_text(
        c,
        c.solicits.len() as int,
    ) + "}\n"@
}

/// The name of a node in the picture.
fn name_of(h: &HashVal) -> (out: String)
    ensures
        out@ == node_name(*h),
{
    let bytes = h.to_bytes();
    let mut all: Vec<u8> = Vec::new();
    let mut i: usize = 0;
    while i < 32
        invariant
            i <= 32,
            all@ == bytes@.take(i as int),
        decreases 32 - i,
    {
        all.push(bytes[i]);
        assert(all@ =~= bytes@.take(i + 1));
        i += 1;
    }
    assert(all@ =~= h.to_seq());
    let text = hex_text(&all);
    quoted(&text)
}

/// The label of a solicit in the picture.
fn label_of(h: &HashVal, tick: u64) -> (out: String)
    ensures
        out@ == solicit_label(*h, tick),
{
    let bytes = h.to_bytes();
    let mut head: Vec<u8> = Vec::new();
    let mut i: usize = 0;
    while i < 4
        invariant
            i <= 4,
            head@ == bytes@.take(i as int),
        decreases 4 - i,
    {
        head.push(bytes[i]);
        assert(head@ =~= bytes@.take(i + 1));
        i += 1;
    }
    assert(head@ =~= h.to_seq().subrange(0, 4));
    let mut text = hex_text(&head);
    text.push_str("[");
    let number = decimal_text(tick);
    text.push_str(number.as_str());
    text.push_str("]");
    quoted(&text)
}

impl<L: LeaderSchedule> Core<L> {
    /// Draws the proposals and solicits as a graph in the DOT language.
    pub fn debug_graphviz(&self) -> (output: String)
        requires
            self.wf(),
        ensures
            output@ == graph_text(self@),
    {
        let tips = self.get_lnc_tips();
        let mut output = String::new();
        output.push_str("digraph G {\n");
        let ghost opening = output@;
        assert(opening =~= "digraph G {\n"@);
        let mut i: usize = 0;
        while i < self.valid_proposals.len()
            invariant
                self.wf(),
                i <= self@.proposals.len(),
                output@ == opening + proposals_text(self@, i as int),
            decreases self@.proposals.len() - i,
        {
            let h = self.valid_proposals.key_at(i);
            let prop = self.valid_proposals.value_at(i);
            let ghost before = output@;
            let name = name_of(&h);
            output.push_str(name.as_str());
            output.push_str(" [label=");
            let body = lossy_text(&prop.body);
            let label = quoted(&body);
            output.push_str(label.as_str());
            output.push_str(", shape=diamond];\n");
            assert(output@ =~= before + proposal_line(h, prop@));
            assert(output@ =~= opening + proposals_text(self@, i + 1));
            i += 1;
        }
        let ghost roots = output@;
        let mut i: usize = 0;
        assert(roots =~= roots + solicits_text(self@, 0));
        while i < self.vote_solicits.len()
            invariant
                self.wf(),
                i <= self@.solicits.len(),
                forall|h: HashVal| tips@.contains(h) <==> self@.is_tip(h),
                output@ == roots + solicits_text(self@, i as int),
            decreases self@.solicits.len() - i,
        {
            let h = self.vote_solicits.key_at(i);
            let solc = self.vote_solicits.value_at(i);
            let ghost before = output@;
            let name = name_of(&h);
            output.push_str(name.as_str());
            output.push_str(" [label=");
            let label = label_of(&h, solc.tick);
            output.push_str(label.as_str());
            output.push_str(", shape=box, style=filled, fillcolor=");
            if holds(&tips, &h) {
                output.push_str("aliceblue");
            } else {
                output.push_str("whitesmoke");
            }
            output.push_str("];\n");
            output.push_str(name.as_str());
            output.push_str(" -> ");
            let parent = name_of(&solc.previous);
            output.push_str(parent.as_str());
            output.push_str(";\n");
            assert(output@ =~= before + solicit_lines(self@, h, solc@));
            assert(output@ =~= roots + solicits_text(self@, i + 1));
            i += 1;
        }
        output.push_str("}\n");
        assert(output@ =~= graph_text(self@));
        output
    }
}

} // verus!
