//! The three signed messages of the protocol.
//!
//! Every message names the instance it belongs to (`nonce`) and its author
//! (`source`), and carries the author's signature over the message's canonical
//! hash: the hash of the message written with an empty signature.

use crate::bytes32::{HashVal, PublicKey, SecretKey};
use crate::crypto::{digest, hash_of, public_of, sign, signature_by, signature_valid, verify};
use crate::ordered_map::Replicate;
use crate::wire::{
    encode_proposal, encode_solicit, encode_vote, proposal_wire, solicit_wire, vote_wire,
};
use vstd::prelude::*;

verus! {

/// What every message offers: its canonical hash, its author and signature.
pub trait Message {
    /// The canonical hash of the message.
    spec fn hash_spec(&self) -> HashVal;

    /// The author of the message.
    spec fn source_spec(&self) -> PublicKey;

    /// The signature that the message carries.
    spec fn signature_spec(&self) -> Seq<u8>;

    /// The hash of the message written with an empty signature.
    fn chash(&self) -> (h: HashVal)
        ensures
            h == self.hash_spec(),
    ;

    /// The author of the message.
    fn source(&self) -> (k: PublicKey)
        ensures
            k == self.source_spec(),
    ;

    /// The signature that the message carries.
    fn signature(&self) -> (s: &[u8])
        ensures
            s@ == self.signature_spec(),
    ;

    /// Whether the signature is the author's, over the canonical hash.
    fn verify_sig(&self) -> (ok: bool)
        ensures
            ok == signature_valid(self.source_spec(), self.hash_spec(), self.signature_spec()),
    {
        let key = self.source();
        let h = self.chash();
        verify(&key, &h, self.signature())
    }
}

/// The root of a chain: it carries the payload that may be decided.
#[derive(Debug)]
pub struct Proposal {
    pub nonce: u128,
    pub tick: u64,
    pub body: Vec<u8>,
    pub source: PublicKey,
    pub signature: Vec<u8>,
}

/// A link of a chain: it extends `previous` by one step and asks for votes.
#[derive(Debug)]
pub struct Solicit {
    pub nonce: u128,
    pub tick: u64,
    pub previous: HashVal,
    pub source: PublicKey,
    pub signature: Vec<u8>,
}

/// An endorsement of the proposal or solicit whose hash is `voting_for`.
#[derive(Debug)]
pub struct Vote {
    pub nonce: u128,
    pub voting_for: HashVal,
    pub source: PublicKey,
    pub signature: Vec<u8>,
}

/// A proposal as a mathematical value.
pub struct ProposalView {
    pub nonce: u128,
    pub tick: u64,
    pub body: Seq<u8>,
    pub source: PublicKey,
    pub signature: Seq<u8>,
}

/// A solicit as a mathematical value.
pub struct SolicitView {
    pub nonce: u128,
    pub tick: u64,
    pub previous: HashVal,
    pub source: PublicKey,
    pub signature: Seq<u8>,
}

/// A vote as a mathematical value.
pub struct VoteView {
    pub nonce: u128,
    pub voting_for: HashVal,
    pub source: PublicKey,
    pub signature: Seq<u8>,
}

/// One message of a diff between two participants' states.
#[derive(Debug)]
pub enum DiffMessage {
    Proposal(Proposal),
    Solicit(Solicit),
    Vote(Vote),
}

/// A diff message as a mathematical value.
pub enum DiffMessageView {
    Proposal(ProposalView),
    Solicit(SolicitView),
    Vote(VoteView),
}

impl ProposalView {
    /// The canonical hash: the digest of the writing with an empty signature.
    pub open spec fn chash(self) -> HashVal {
        digest(
            proposal_wire(self.nonce, self.tick, self.body, self.source.to_seq(), Seq::empty()),
        )
    }

    /// The signature is the author's, over the canonical hash.
    pub open spec fn signed(self) -> bool {
        signature_valid(self.source, self.chash(), self.signature)
    }

    /// The proposal that the holder of `secret` writes and signs.
    pub open spec fn authored(nonce: u128, tick: u64, body: Seq<u8>, secret: SecretKey) -> Self {
        let blank = ProposalView {
            nonce,
            tick,
            body,
            source: public_of(secret),
            signature: Seq::empty(),
        };
        ProposalView { signature: signature_by(secret, blank.chash()), ..blank }
    }
}

impl SolicitView {
    /// The canonical hash: the digest of the writing with an empty signature.
    pub open spec fn chash(self) -> HashVal {
        digest(
            solicit_wire(
                self.nonce,
                self.tick,
                self.previous.to_seq(),
                self.source.to_seq(),
                Seq::empty(),
            ),
        )
    }

    /// The signature is the author's, over the canonical hash.
    pub open spec fn signed(self) -> bool {
        signature_valid(self.source, self.chash(), self.signature)
    }

    /// The solicit that the holder of `secret` writes and signs.
    pub open spec fn authored(nonce: u128, tick: u64, previous: HashVal, secret: SecretKey) -> Self {
        let blank = SolicitView {
            nonce,
            tick,
            previous,
            source: public_of(secret),
            signature: Seq::empty(),
        };
        SolicitView { signature: signature_by(secret, blank.chash()), ..blank }
    }
}

impl VoteView {
    /// The canonical hash: the digest of the writing with an empty signature.
    pub open spec fn chash(self) -> HashVal {
        digest(vote_wire(self.nonce, self.voting_for.to_seq(), self.source.to_seq(), Seq::empty()))
    }

    /// The signature is the author's, over the canonical hash.
    pub open spec fn signed(self) -> bool {
        signature_valid(self.source, self.chash(), self.signature)
    }

    /// The vote that the holder of `secret` writes and signs.
    pub open spec fn authored(nonce: u128, voting_for: HashVal, secret: SecretKey) -> Self {
        let blank = VoteView {
            nonce,
            voting_for,
            source: public_of(secret),
            signature: Seq::empty(),
        };
        VoteView { signature: signature_by(secret, blank.chash()), ..blank }
    }
}

impl View for Proposal {
    type V = ProposalView;

    open spec fn view(&self) -> ProposalView {
        ProposalView {
            nonce: self.nonce,
            tick: self.tick,
            body: self.body@,
            source: self.source,
            signature: self.signature@,
        }
    }
}

impl View for Solicit {
    type V = SolicitView;

    open spec fn view(&self) -> SolicitView {
        SolicitView {
            nonce: self.nonce,
            tick: self.tick,
            previous: self.previous,
            source: self.source,
            signature: self.signature@,
        }
    }
}

impl View for Vote {
    type V = VoteView;

    open spec fn view(&self) -> VoteView {
        VoteView {
            nonce: self.nonce,
            voting_for: self.voting_for,
            source: self.source,
            signature: self.signature@,
        }
    }
}

impl View for DiffMessage {
    type V = DiffMessageView;

    open spec fn view(&self) -> DiffMessageView {
        match self {
            DiffMessage::Proposal(p) => DiffMessageView::Proposal(p@),
            DiffMessage::Solicit(s) => DiffMessageView::Solicit(s@),
            DiffMessage::Vote(v) => DiffMessageView::Vote(v@),
        }
    }
}

impl Proposal {
    /// Writes and signs a proposal.
    pub fn new(nonce: u128, tick: u64, body: Vec<u8>, my_sk: SecretKey) -> (p: Proposal)
        ensures
            p@ == ProposalView::authored(nonce, tick, body@, my_sk),
    {
        let mut template = Proposal {
            nonce,
            tick,
            body,
            source: my_sk.to_public(),
            signature: Vec::new(),
        };
        let h = template.chash();
        template.signature = sign(&my_sk, &h);
        template
    }
}

impl Solicit {
    /// Writes and signs a solicit.
    pub fn new(nonce: u128, tick: u64, previous: HashVal, my_sk: SecretKey) -> (s: Solicit)
        ensures
            s@ == SolicitView::authored(nonce, tick, previous, my_sk),
    {
        let mut template = Solicit {
            nonce,
            tick,
            previous,
            source: my_sk.to_public(),
            signature: Vec::new(),
        };
        let h = template.chash();
        template.signature = sign(&my_sk, &h);
        template
    }
}

impl Vote {
    /// Writes and signs a vote.
    pub fn new(nonce: u128, voting_for: HashVal, my_sk: SecretKey) -> (v: Vote)
        ensures
            v@ == VoteView::authored(nonce, voting_for, my_sk),
    {
        let mut template = Vote {
            nonce,
            voting_for,
            source: my_sk.to_public(),
            signature: Vec::new(),
        };
        let h = template.chash();
        template.signature = sign(&my_sk, &h);
        template
    }
}

impl Message for Proposal {
    open spec fn hash_spec(&self) -> HashVal {
        self@.chash()
    }

    open spec fn source_spec(&self) -> PublicKey {
        self.source
    }

    open spec fn signature_spec(&self) -> Seq<u8> {
        self.signature@
    }

    fn chash(&self) -> (h: HashVal) {
        let source = self.source.to_bytes();
        let blank: Vec<u8> = Vec::new();
        let wire = encode_proposal(self.nonce, self.tick, &self.body, &source, &blank);
        hash_of(wire.as_slice())
    }

    fn source(&self) -> (k: PublicKey) {
        self.source
    }

    fn signature(&self) -> (s: &[u8]) {
        self.signature.as_slice()
    }
}

impl Message for Solicit {
    open spec fn hash_spec(&self) -> HashVal {
        self@.chash()
    }

    open spec fn source_spec(&self) -> PublicKey {
        self.source
    }

    open spec fn signature_spec(&self) -> Seq<u8> {
        self.signature@
    }

    fn chash(&self) -> (h: HashVal) {
        let previous = self.previous.to_bytes();
        let source = self.source.to_bytes();
        let blank: Vec<u8> = Vec::new();
        let wire = encode_solicit(self.nonce, self.tick, &previous, &source, &blank);
        hash_of(wire.as_slice())
    }

    fn source(&self) -> (k: PublicKey) {
        self.source
    }

    fn signature(&self) -> (s: &[u8]) {
        self.signature.as_slice()
    }
}

impl Message for Vote {
    open spec fn hash_spec(&self) -> HashVal {
        self@.chash()
    }

    open spec fn source_spec(&self) -> PublicKey {
        self.source
    }

    open spec fn signature_spec(&self) -> Seq<u8> {
        self.signature@
    }

    fn chash(&self) -> (h: HashVal) {
        let voting_for = self.voting_for.to_bytes();
        let source = self.source.to_bytes();
        let blank: Vec<u8> = Vec::new();
        let wire = encode_vote(self.nonce, &voting_for, &source, &blank);
        hash_of(wire.as_slice())
    }

    fn source(&self) -> (k: PublicKey) {
        self.source
    }

    fn signature(&self) -> (s: &[u8]) {
        self.signature.as_slice()
    }
}

impl Replicate for Proposal {
    fn replicate(&self) -> (r: Proposal) {
        Proposal {
            nonce: self.nonce,
            tick: self.tick,
            body: self.body.clone(),
            source: self.source,
            signature: self.signature.clone(),
        }
    }
}

impl Replicate for Solicit {
    fn replicate(&self) -> (r: Solicit) {
        Solicit {
            nonce: self.nonce,
            tick: self.tick,
            previous: self.previous,
            source: self.source,
            signature: self.signature.clone(),
        }
    }
}

impl Replicate for Vote {
    fn replicate(&self) -> (r: Vote) {
        Vote {
            nonce: self.nonce,
            voting_for: self.voting_for,
            source: self.source,
            signature: self.signature.clone(),
        }
    }
}

impl Replicate for DiffMessage {
    fn replicate(&self) -> (r: DiffMessage) {
        match self {
            DiffMessage::Proposal(p) => DiffMessage::Proposal(p.replicate()),
            DiffMessage::Solicit(s) => DiffMessage::Solicit(s.replicate()),
            DiffMessage::Vote(v) => DiffMessage::Vote(v.replicate()),
        }
    }
}

impl Clone for DiffMessage {
    fn clone(&self) -> (r: DiffMessage)
        ensures
            r@ == self@,
    {
        self.replicate()
    }
}

impl Clone for Proposal {
    fn clone(&self) -> (r: Proposal)
        ensures
            r@ == self@,
    {
        self.replicate()
    }
}

impl Clone for Solicit {
    fn clone(&self) -> (r: Solicit)
        ensures
            r@ == self@,
    {
        self.replicate()
    }
}

impl Clone for Vote {
    fn clone(&self) -> (r: Vote)
        ensures
            r@ == self@,
    {
        self.replicate()
    }
}

} // verus!
