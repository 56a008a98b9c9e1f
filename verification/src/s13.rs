//! The signed exchange and its journal: the verifier signs its question, the
//! custodian its answer, and the policy's authority may countersign the answer
//! at its place in a sequence. The journal replays from itself alone.

use vstd::bytes::{spec_u64_to_le_bytes, u64_to_le_bytes};
use vstd::prelude::*;

use crate::bytes::{same_array, utf8};
use crate::canon::fields;
use crate::exchange::{S13Request, S13Response};
use crate::graph::{GraphView, TrustGraph};
use crate::keyring::KeyPair;
use crate::sign::{canonical_fields, signing_error, slice_views, SignatureSlot, SigningDomain};
use crate::signer::{check_signer, issued, registered, signer_check};
use crate::text::{cat2, cat3, cat5, decimal, number, same_text};
use crate::{ErrorView, SignatifError};

verus! {

/// A question with its verifier's signature.
#[derive(Debug, Clone, PartialEq, Eq)]
pub struct SignedS13Request {
    /// The question.
    pub request: S13Request,
    /// Who signs it.
    pub requester: String,
    /// The signature.
    pub signature: SignatureSlot,
}

impl SignedS13Request {
    /// What checking the signature gives.
    pub open spec fn check(self, graph: GraphView) -> Result<Seq<char>, ErrorView> {
        signer_check(
            graph,
            self.requester@,
            "s13 requester: "@,
            "s13 requester `"@ + self.requester@ + "` has no such key"@,
            self.signature@,
            SigningDomain::S13Message,
            self.request.bytes(),
        )
    }

    /// The verifier signs a question.
    pub fn issue(request: S13Request, requester: &str, key: &KeyPair) -> (r: Result<
        SignedS13Request,
        SignatifError,
    >)
        ensures
            r is Ok == key.slot(SigningDomain::S13Message, request.bytes()) is Some,
            r matches Ok(s) ==> s.request == request && s.requester@ == requester@ && issued(
                *key,
                SigningDomain::S13Message,
                request.bytes(),
                s.signature@,
            ),
            r matches Err(e) ==> e@ == signing_error(),
    {
        let bytes = request.canonical_bytes();
        match SignatureSlot::sign(key, SigningDomain::S13Message, bytes.as_slice()) {
            Err(e) => Err(e),
            Ok(signature) => Ok(
                SignedS13Request { request, requester: requester.to_owned(), signature },
            ),
        }
    }

    /// Checks the signature under the requester's registered key.
    pub fn verify(&self, graph: &TrustGraph) -> (r: Result<(), SignatifError>)
        ensures
            match self.check(graph@) {
                Ok(_) => r is Ok,
                Err(f) => r matches Err(e) && e@ == f,
            },
    {
        let missing = cat3("s13 requester `", self.requester.as_str(), "` has no such key");
        let bytes = self.request.canonical_bytes();
        match check_signer(
            graph,
            self.requester.as_str(),
            "s13 requester: ",
            missing.as_str(),
            &self.signature,
            SigningDomain::S13Message,
            bytes.as_slice(),
        ) {
            Err(e) => Err(e),
            Ok(_) => Ok(()),
        }
    }
}

/// An answer with its custodian's signature.
#[derive(Debug, Clone, PartialEq, Eq)]
pub struct SignedS13Response {
    /// The answer.
    pub response: S13Response,
    /// The custodian's signature.
    pub signature: SignatureSlot,
}

impl SignedS13Response {
    /// What checking the signature gives.
    pub open spec fn check(self, graph: GraphView) -> Result<Seq<char>, ErrorView> {
        signer_check(
            graph,
            self.response.custodian@,
            "s13 custodian: "@,
            "s13 custodian `"@ + self.response.custodian@ + "` has no such key"@,
            self.signature@,
            SigningDomain::S13Message,
            self.response.bytes(),
        )
    }

    /// The custodian signs an answer.
    pub fn issue(response: S13Response, key: &KeyPair) -> (r: Result<
        SignedS13Response,
        SignatifError,
    >)
        ensures
            r is Ok == key.slot(SigningDomain::S13Message, response.bytes()) is Some,
            r matches Ok(s) ==> s.response == response && issued(
                *key,
                SigningDomain::S13Message,
                response.bytes(),
                s.signature@,
            ),
            r matches Err(e) ==> e@ == signing_error(),
    {
        let bytes = response.canonical_bytes();
        match SignatureSlot::sign(key, SigningDomain::S13Message, bytes.as_slice()) {
            Err(e) => Err(e),
            Ok(signature) => Ok(SignedS13Response { response, signature }),
        }
    }

    /// Checks the signature under the custodian's registered key.
    pub fn verify(&self, graph: &TrustGraph) -> (r: Result<(), SignatifError>)
        ensures
            match self.check(graph@) {
                Ok(_) => r is Ok,
                Err(f) => r matches Err(e) && e@ == f,
            },
    {
        let missing = cat3(
            "s13 custodian `",
            self.response.custodian.as_str(),
            "` has no such key",
        );
        let bytes = self.response.canonical_bytes();
        match check_signer(
            graph,
            self.response.custodian.as_str(),
            "s13 custodian: ",
            missing.as_str(),
            &self.signature,
            SigningDomain::S13Message,
            bytes.as_slice(),
        ) {
            Err(e) => Err(e),
            Ok(_) => Ok(()),
        }
    }
}

/// An answer that the policy's authority countersigned at a place in the
/// sequence.
#[derive(Debug, Clone, PartialEq, Eq)]
pub struct NonRepudiableResponse {
    /// The custodian's answer.
    pub signed: SignedS13Response,
    /// The authority.
    pub authority: String,
    /// The authority's signature.
    pub authority_signature: SignatureSlot,
    /// The place in the sequence.
    pub sequence: u64,
}

/// What the authority signs: the digest of the answer, its place, and which
/// version of which policy it stands under.
pub open spec fn authority_payload(response: S13Response, sequence: u64) -> Seq<u8> {
    fields(
        seq![
            response.spec_digest(),
            spec_u64_to_le_bytes(sequence),
            utf8(response.governing_policy@),
            spec_u64_to_le_bytes(response.governing_policy_version),
        ],
    )
}

/// The error of an answer that stands at another place than expected.
pub open spec fn stale_error(sequence: u64, expected: u64) -> ErrorView {
    ErrorView::Crypto(
        "s13 non-repudiation: stale sequence "@ + decimal(sequence as nat) + " (expected "@
            + decimal(expected as nat) + ") — a replayed answer"@,
    )
}

impl NonRepudiableResponse {
    /// What checking the answer at an expected place gives.
    pub open spec fn check(self, graph: GraphView, expected: u64) -> Result<
        Seq<char>,
        ErrorView,
    > {
        match self.signed.check(graph) {
            Err(e) => Err(e),
            Ok(_) => if self.sequence != expected {
                Err(stale_error(self.sequence, expected))
            } else {
                signer_check(
                    graph,
                    self.authority@,
                    "s13 authority: "@,
                    "s13 authority `"@ + self.authority@ + "` has no such key"@,
                    self.authority_signature@,
                    SigningDomain::S13Message,
                    authority_payload(self.signed.response, self.sequence),
                )
            },
        }
    }

    fn authority_payload_for(response: &S13Response, sequence: u64) -> (r: Vec<u8>)
        ensures
            r@ == authority_payload(*response, sequence),
    {
        let digest = response.digest();
        let place = u64_to_le_bytes(sequence);
        let version = u64_to_le_bytes(response.governing_policy_version);
        let parts: [&[u8]; 4] = [
            digest.as_slice(),
            place.as_slice(),
            response.governing_policy.as_str().as_bytes(),
            version.as_slice(),
        ];
        let r = canonical_fields(parts.as_slice());
        assert(slice_views(parts@) =~= seq![
            response.spec_digest(),
            spec_u64_to_le_bytes(sequence),
            utf8(response.governing_policy@),
            spec_u64_to_le_bytes(response.governing_policy_version),
        ]);
        r
    }

    /// The authority countersigns an answer.
    pub fn issue(
        signed: SignedS13Response,
        authority: &str,
        authority_key: &KeyPair,
        sequence: u64,
    ) -> (r: Result<NonRepudiableResponse, SignatifError>)
        ensures
            r is Ok == authority_key.slot(
                SigningDomain::S13Message,
                authority_payload(signed.response, sequence),
            ) is Some,
            r matches Ok(n) ==> n.signed == signed && n.authority@ == authority@ && n.sequence
                == sequence && issued(
                *authority_key,
                SigningDomain::S13Message,
                authority_payload(signed.response, sequence),
                n.authority_signature@,
            ),
            r matches Err(e) ==> e@ == signing_error(),
    {
        let payload = NonRepudiableResponse::authority_payload_for(&signed.response, sequence);
        match SignatureSlot::sign(authority_key, SigningDomain::S13Message, payload.as_slice()) {
            Err(e) => Err(e),
            Ok(authority_signature) => Ok(
                NonRepudiableResponse {
                    signed,
                    authority: authority.to_owned(),
                    authority_signature,
                    sequence,
                },
            ),
        }
    }

    /// Checks both signatures, and that the answer stands at the expected
    /// place.
    pub fn verify(&self, graph: &TrustGraph, expected_sequence: u64) -> (r: Result<
        (),
        SignatifError,
    >)
        ensures
            match self.check(graph@, expected_sequence) {
                Ok(_) => r is Ok,
                Err(f) => r matches Err(e) && e@ == f,
            },
    {
        if let Err(e) = self.signed.verify(graph) {
            return Err(e);
        }
        if self.sequence != expected_sequence {
            let have = number(self.sequence);
            let want = number(expected_sequence);
            return Err(
                SignatifError::Crypto(
                    cat5(
                        "s13 non-repudiation: stale sequence ",
                        have.as_str(),
                        " (expected ",
                        want.as_str(),
                        ") — a replayed answer",
                    ),
                ),
            );
        }
        let missing = cat3("s13 authority `", self.authority.as_str(), "` has no such key");
        let payload = NonRepudiableResponse::authority_payload_for(
            &self.signed.response,
            self.sequence,
        );
        match check_signer(
            graph,
            self.authority.as_str(),
            "s13 authority: ",
            missing.as_str(),
            &self.authority_signature,
            SigningDomain::S13Message,
            payload.as_slice(),
        ) {
            Err(e) => Err(e),
            Ok(_) => Ok(()),
        }
    }
}

/// One message of the journal.
#[derive(Debug, Clone, PartialEq, Eq)]
pub enum S13JournalEntry {
    /// A question.
    Request(SignedS13Request),
    /// An answer.
    Response(SignedS13Response),
    /// A countersigned answer.
    Countersigned(NonRepudiableResponse),
}

/// Whose journal it is.
#[derive(Debug, Clone, Copy, PartialEq, Eq, Structural)]
pub enum S13Side {
    /// The side that asks.
    Verifier,
    /// The side that answers.
    Custodian,
}

/// A decision out of a journal.
#[derive(Debug, Clone, PartialEq, Eq)]
pub struct S13Decision {
    /// The digest of the question.
    pub request_digest: [u8; 32],
    /// The token of the answer.
    pub outcome: String,
    /// The policy that was evaluated.
    pub governing_policy: String,
    /// The version of that policy.
    pub governing_policy_version: u64,
}

/// A decision as a mathematical value.
#[verifier::ext_equal]
pub struct DecisionView {
    /// See [`S13Decision::request_digest`].
    pub request_digest: Seq<u8>,
    /// See [`S13Decision::outcome`].
    pub outcome: Seq<char>,
    /// See [`S13Decision::governing_policy`].
    pub governing_policy: Seq<char>,
    /// See [`S13Decision::governing_policy_version`].
    pub governing_policy_version: u64,
}

impl View for S13Decision {
    type V = DecisionView;

    open spec fn view(&self) -> DecisionView {
        DecisionView {
            request_digest: self.request_digest@,
            outcome: self.outcome@,
            governing_policy: self.governing_policy@,
            governing_policy_version: self.governing_policy_version,
        }
    }
}

/// The decisions of a list as mathematical values.
pub open spec fn decision_views(s: Seq<S13Decision>) -> Seq<DecisionView> {
    s.map_values(|d: S13Decision| d@)
}

/// The decision of an answer.
pub open spec fn decision(response: S13Response) -> DecisionView {
    DecisionView {
        request_digest: response.request_digest@,
        outcome: response.outcome.spec_token(),
        governing_policy: response.governing_policy@,
        governing_policy_version: response.governing_policy_version,
    }
}

fn decision_of(response: &S13Response) -> (r: S13Decision)
    ensures
        r@ == decision(*response),
{
    S13Decision {
        request_digest: response.request_digest,
        outcome: response.outcome.token().to_owned(),
        governing_policy: response.governing_policy.clone(),
        governing_policy_version: response.governing_policy_version,
    }
}

/// Whether entries hold a question with a digest.
pub open spec fn asked(entries: Seq<S13JournalEntry>, digest: Seq<u8>) -> bool {
    exists|i: int|
        0 <= i < entries.len() && (#[trigger] entries[i] matches S13JournalEntry::Request(q)
            && q.request.spec_digest() == digest)
}

/// The passport and the segment of the first question with a digest; two empty
/// texts if there is none.
pub open spec fn line_for(entries: Seq<S13JournalEntry>, digest: Seq<u8>) -> (Seq<char>, Seq<char>)
    decreases entries.len(),
{
    if entries.len() == 0 {
        (""@, ""@)
    } else if asked(entries.drop_last(), digest) {
        line_for(entries.drop_last(), digest)
    } else {
        match entries.last() {
            S13JournalEntry::Request(q) => if q.request.spec_digest() == digest {
                (q.request.subject@, q.request.segment@)
            } else {
                (""@, ""@)
            },
            _ => (""@, ""@),
        }
    }
}

/// The line of countersigned answers that an answer belongs to: the passport
/// and the segment of the question that it answers.
pub open spec fn line_of(all: Seq<S13JournalEntry>, response: S13Response) -> (
    Seq<char>,
    Seq<char>,
) {
    line_for(all, response.request_digest@)
}

/// The place of the last countersigned answer in a line; zero if there is
/// none.
pub open spec fn last_place(
    all: Seq<S13JournalEntry>,
    entries: Seq<S13JournalEntry>,
    line: (Seq<char>, Seq<char>),
) -> u64
    decreases entries.len(),
{
    if entries.len() == 0 {
        0
    } else {
        match entries.last() {
            S13JournalEntry::Countersigned(n) => if line_of(all, n.signed.response) == line {
                n.sequence
            } else {
                last_place(all, entries.drop_last(), line)
            },
            _ => last_place(all, entries.drop_last(), line),
        }
    }
}

/// The error of an answer to no question of the journal.
pub open spec fn unbound_error() -> ErrorView {
    ErrorView::Crypto("journal replay: an answer is bound to no journaled request"@)
}

/// What an entry gives after the entries before it: a decision if it is an
/// answer, or the error.
pub open spec fn entry_check(
    graph: GraphView,
    all: Seq<S13JournalEntry>,
    before: Seq<S13JournalEntry>,
    entry: S13JournalEntry,
) -> Result<Option<DecisionView>, ErrorView> {
    match entry {
        S13JournalEntry::Request(q) => match q.check(graph) {
            Err(e) => Err(e),
            Ok(_) => Ok(None),
        },
        S13JournalEntry::Response(a) => match a.check(graph) {
            Err(e) => Err(e),
            Ok(_) => if asked(before, a.response.request_digest@) {
                Ok(Some(decision(a.response)))
            } else {
                Err(unbound_error())
            },
        },
        S13JournalEntry::Countersigned(n) => {
            let last = last_place(all, before, line_of(all, n.signed.response));
            if !asked(before, n.signed.response.request_digest@) {
                Err(unbound_error())
            } else if last == u64::MAX {
                Err(ErrorView::Crypto("journal replay: the sequence is exhausted"@))
            } else {
                match n.check(graph, (last + 1) as u64) {
                    Err(e) => Err(ErrorView::Crypto("journal replay: "@ + e.text())),
                    Ok(_) => Ok(Some(decision(n.signed.response))),
                }
            }
        },
    }
}

/// What replaying entries of a journal gives: the decisions in sequence, or the
/// first error.
pub open spec fn replayed(
    graph: GraphView,
    all: Seq<S13JournalEntry>,
    entries: Seq<S13JournalEntry>,
) -> Result<Seq<DecisionView>, ErrorView>
    decreases entries.len(),
{
    if entries.len() == 0 {
        Ok(Seq::empty())
    } else {
        match replayed(graph, all, entries.drop_last()) {
            Err(e) => Err(e),
            Ok(decisions) => match entry_check(graph, all, entries.drop_last(), entries.last()) {
                Err(e) => Err(e),
                Ok(None) => Ok(decisions),
                Ok(Some(d)) => Ok(decisions.push(d)),
            },
        }
    }
}

proof fn lemma_replayed_error(
    graph: GraphView,
    all: Seq<S13JournalEntry>,
    entries: Seq<S13JournalEntry>,
    k: int,
)
    requires
        0 <= k <= entries.len(),
        replayed(graph, all, entries.take(k)) is Err,
    ensures
        replayed(graph, all, entries) == replayed(graph, all, entries.take(k)),
    decreases entries.len() - k,
{
    if k < entries.len() {
        assert(entries.take(k + 1).drop_last() =~= entries.take(k));
        lemma_replayed_error(graph, all, entries, k + 1);
    } else {
        assert(entries.take(k) =~= entries);
    }
}

proof fn lemma_asked_push(entries: Seq<S13JournalEntry>, digest: Seq<u8>)
    requires
        entries.len() > 0,
    ensures
        asked(entries, digest) == (asked(entries.drop_last(), digest) || (
        entries.last() matches S13JournalEntry::Request(q) && q.request.spec_digest() == digest)),
{
    let before = entries.drop_last();
    if asked(before, digest) {
        let i = choose|i: int|
            0 <= i < before.len() && (#[trigger] before[i] matches S13JournalEntry::Request(q)
                && q.request.spec_digest() == digest);
        assert(entries[i] == before[i]);
    }
    if asked(entries, digest) {
        let i = choose|i: int|
            0 <= i < entries.len() && (#[trigger] entries[i] matches S13JournalEntry::Request(q)
                && q.request.spec_digest() == digest);
        if i < before.len() {
            assert(before[i] == entries[i]);
        }
    }
    if entries.last() matches S13JournalEntry::Request(q) && q.request.spec_digest() == digest {
        assert(entries[entries.len() - 1] == entries.last());
    }
}

proof fn lemma_line_prefix(entries: Seq<S13JournalEntry>, digest: Seq<u8>, k: int)
    requires
        0 <= k <= entries.len(),
        asked(entries.take(k), digest),
    ensures
        line_for(entries, digest) == line_for(entries.take(k), digest),
    decreases entries.len() - k,
{
    if k < entries.len() {
        assert(entries.take(k + 1).drop_last() =~= entries.take(k));
        lemma_asked_push(entries.take(k + 1), digest);
        lemma_line_prefix(entries, digest, k + 1);
    } else {
        assert(entries.take(k) =~= entries);
    }
}

/// Whether the entries of a list before a position hold a question with a
/// digest.
fn asked_before(entries: &Vec<S13JournalEntry>, n: usize, digest: &[u8; 32]) -> (r: bool)
    requires
        n <= entries@.len(),
    ensures
        r == asked(entries@.take(n as int), digest@),
{
    let ghost all = entries@;
    let mut i: usize = 0;
    assert(!asked(all.take(0), digest@));
    while i < n
        invariant
            i <= n,
            n <= entries@.len(),
            all == entries@,
            !asked(all.take(i as int), digest@),
        decreases n - i,
    {
        proof {
            assert(all.take(i + 1).drop_last() =~= all.take(i as int));
            assert(all.take(i + 1).last() == all[i as int]);
            lemma_asked_push(all.take(i + 1), digest@);
        }
        if let S13JournalEntry::Request(q) = &entries[i] {
            let d = q.request.digest();
            if same_array(&d, digest) {
                proof {
                    assert(all.take(n as int)[i as int] == all[i as int]);
                }
                return true;
            }
        }
        i += 1;
    }
    false
}

/// The passport and the segment of a journaled question.
fn line_in(entries: &Vec<S13JournalEntry>, digest: &[u8; 32]) -> (r: (String, String))
    ensures
        (r.0@, r.1@) == line_for(entries@, digest@),
{
    let ghost all = entries@;
    let mut i: usize = 0;
    assert(!asked(all.take(0), digest@));
    assert(line_for(all.take(0), digest@) == (""@, ""@));
    while i < entries.len()
        invariant
            i <= entries.len(),
            all == entries@,
            !asked(all.take(i as int), digest@),
            line_for(all.take(i as int), digest@) == (""@, ""@),
        decreases entries.len() - i,
    {
        proof {
            assert(all.take(i + 1).drop_last() =~= all.take(i as int));
            assert(all.take(i + 1).last() == all[i as int]);
            lemma_asked_push(all.take(i + 1), digest@);
        }
        if let S13JournalEntry::Request(q) = &entries[i] {
            let d = q.request.digest();
            if same_array(&d, digest) {
                proof {
                    lemma_line_prefix(all, digest@, i + 1);
                }
                return (q.request.subject.clone(), q.request.segment.clone());
            }
        }
        i += 1;
    }
    assert(all.take(i as int) =~= all);
    ("".to_owned(), "".to_owned())
}

/// The journal of one side: what was asked and answered, in sequence.
#[derive(Debug, Clone, PartialEq, Eq)]
pub struct S13Journal {
    /// Whose journal it is.
    pub side: S13Side,
    /// The messages.
    pub entries: Vec<S13JournalEntry>,
}

impl S13Journal {
    /// An empty journal.
    pub fn new(side: S13Side) -> (r: S13Journal)
        ensures
            r.side == side,
            r.entries@ == Seq::<S13JournalEntry>::empty(),
    {
        S13Journal { side, entries: Vec::new() }
    }

    /// Appends a message and gives the new length.
    pub fn append(&mut self, entry: S13JournalEntry) -> (r: usize)
        ensures
            final(self).side == old(self).side,
            final(self).entries@ == old(self).entries@.push(entry),
            r == final(self).entries@.len(),
    {
        self.entries.push(entry);
        self.entries.len()
    }

    /// The number of messages.
    pub fn len(&self) -> (r: usize)
        ensures
            r == self.entries@.len(),
    {
        self.entries.len()
    }

    /// Whether there are no messages.
    pub fn is_empty(&self) -> (r: bool)
        ensures
            r == (self.entries@.len() == 0),
    {
        self.entries.len() == 0
    }

    /// The place of the last countersigned answer in a line among the first
    /// `n` messages.
    fn place_in(&self, n: usize, subject: &str, segment: &str) -> (r: u64)
        requires
            n <= self.entries@.len(),
        ensures
            r == last_place(
                self.entries@,
                self.entries@.take(n as int),
                (subject@, segment@),
            ),
    {
        let ghost all = self.entries@;
        let ghost line = (subject@, segment@);
        let mut last: u64 = 0;
        let mut i: usize = 0;
        assert(last_place(all, all.take(0), line) == 0);
        while i < n
            invariant
                i <= n,
                n <= self.entries@.len(),
                all == self.entries@,
                line == (subject@, segment@),
                last == last_place(all, all.take(i as int), line),
            decreases n - i,
        {
            proof {
                assert(all.take(i + 1).drop_last() =~= all.take(i as int));
                assert(all.take(i + 1).last() == all[i as int]);
            }
            if let S13JournalEntry::Countersigned(a) = &self.entries[i] {
                let own = line_in(&self.entries, &a.signed.response.request_digest);
                if same_text(own.0.as_str(), subject) && same_text(own.1.as_str(), segment) {
                    last = a.sequence;
                }
            }
            i += 1;
        }
        last
    }

    /// Checks the message at a position after those before it.
    fn step(&self, graph: &TrustGraph, i: usize) -> (r: Result<Option<S13Decision>, SignatifError>)
        requires
            i < self.entries@.len(),
        ensures
            match entry_check(
                graph@,
                self.entries@,
                self.entries@.take(i as int),
                self.entries@[i as int],
            ) {
                Err(f) => r matches Err(e) && e@ == f,
                Ok(None) => r matches Ok(None),
                Ok(Some(d)) => r matches Ok(Some(x)) && x@ == d,
            },
    {
        match &self.entries[i] {
            S13JournalEntry::Request(signed) => match signed.verify(graph) {
                Err(e) => Err(e),
                Ok(()) => Ok(None),
            },
            S13JournalEntry::Response(signed) => {
                if let Err(e) = signed.verify(graph) {
                    return Err(e);
                }
                if !asked_before(&self.entries, i, &signed.response.request_digest) {
                    return Err(
                        SignatifError::crypto(
                            "journal replay: an answer is bound to no journaled request",
                        ),
                    );
                }
                Ok(Some(decision_of(&signed.response)))
            },
            S13JournalEntry::Countersigned(nr) => {
                if !asked_before(&self.entries, i, &nr.signed.response.request_digest) {
                    return Err(
                        SignatifError::crypto(
                            "journal replay: an answer is bound to no journaled request",
                        ),
                    );
                }
                let own = line_in(&self.entries, &nr.signed.response.request_digest);
                let last = self.place_in(i, own.0.as_str(), own.1.as_str());
                if last == 0xffff_ffff_ffff_ffff {
                    return Err(SignatifError::crypto("journal replay: the sequence is exhausted"));
                }
                if let Err(e) = nr.verify(graph, last + 1) {
                    let why = e.to_string();
                    return Err(SignatifError::Crypto(cat2("journal replay: ", why.as_str())));
                }
                Ok(Some(decision_of(&nr.signed.response)))
            },
        }
    }

    /// Replays the journal: every message verifies, every answer belongs to a
    /// question before it, and countersigned answers stand in sequence. Gives
    /// the decisions.
    pub fn replay(&self, graph: &TrustGraph) -> (r: Result<Vec<S13Decision>, SignatifError>)
        ensures
            match replayed(graph@, self.entries@, self.entries@) {
                Ok(d) => r matches Ok(v) && decision_views(v@) == d,
                Err(f) => r matches Err(e) && e@ == f,
            },
    {
        let ghost all = self.entries@;
        let mut decisions: Vec<S13Decision> = Vec::new();
        let mut i: usize = 0;
        assert(all.take(0) =~= Seq::<S13JournalEntry>::empty());
        assert(decision_views(decisions@) =~= Seq::<DecisionView>::empty());
        while i < self.entries.len()
            invariant
                i <= self.entries.len(),
                all == self.entries@,
                replayed(graph@, all, all.take(i as int)) == Ok::<Seq<DecisionView>, ErrorView>(
                    decision_views(decisions@),
                ),
            decreases self.entries.len() - i,
        {
            proof {
                assert(all.take(i + 1).drop_last() =~= all.take(i as int));
                assert(all.take(i + 1).last() == all[i as int]);
            }
            match self.step(graph, i) {
                Err(e) => {
                    proof {
                        lemma_replayed_error(graph@, all, all, i + 1);
                    }
                    return Err(e);
                },
                Ok(None) => {},
                Ok(Some(d)) => {
                    let ghost before = decision_views(decisions@);
                    decisions.push(d);
                    assert(decision_views(decisions@) =~= before.push(d@));
                },
            }
            i += 1;
        }
        assert(all.take(i as int) =~= all);
        Ok(decisions)
    }
}

proof fn lemma_replayed_prefix(
    graph: GraphView,
    all: Seq<S13JournalEntry>,
    entries: Seq<S13JournalEntry>,
    k: int,
)
    requires
        0 <= k <= entries.len(),
        replayed(graph, all, entries) is Ok,
    ensures
        replayed(graph, all, entries.take(k)) is Ok,
    decreases entries.len(),
{
    if k < entries.len() {
        assert(entries.take(k) =~= entries.drop_last().take(k));
        lemma_replayed_prefix(graph, all, entries.drop_last(), k);
    } else {
        assert(entries.take(k) =~= entries);
    }
}

/// Whether an entry of a journal is bound: its signatures verify, an answer
/// follows its question, and a countersigned answer takes the next place in its
/// line.
pub open spec fn is_bound(graph: GraphView, all: Seq<S13JournalEntry>, i: int) -> bool {
    match all[i] {
        S13JournalEntry::Request(q) => q.check(graph) is Ok,
        S13JournalEntry::Response(a) => a.check(graph) is Ok && asked(
            all.take(i),
            a.response.request_digest@,
        ),
        S13JournalEntry::Countersigned(n) => n.check(graph, n.sequence) is Ok && asked(
            all.take(i),
            n.signed.response.request_digest@,
        ) && n.sequence == last_place(all, all.take(i), line_of(all, n.signed.response)) + 1,
    }
}

/// A journal that replays holds no message without its signer's signature, and
/// no answer before its question.
pub proof fn replayed_journals_are_bound(
    graph: GraphView,
    entries: Seq<S13JournalEntry>,
    i: int,
)
    requires
        replayed(graph, entries, entries) is Ok,
        0 <= i < entries.len(),
    ensures
        is_bound(graph, entries, i),
{
    lemma_replayed_prefix(graph, entries, entries, i + 1);
    assert(entries.take(i + 1).drop_last() =~= entries.take(i));
    assert(entries.take(i + 1).last() == entries[i]);
}

/// A countersigned answer cannot be replayed: after it, the same answer stands
/// at the wrong place.
pub proof fn replayed_answers_fail(
    graph: GraphView,
    entries: Seq<S13JournalEntry>,
    answer: NonRepudiableResponse,
)
    requires
        entries.len() > 0,
        entries.last() == S13JournalEntry::Countersigned(answer),
    ensures
        ({
            let twice = entries.push(S13JournalEntry::Countersigned(answer));
            replayed(graph, twice, twice) is Err
        }),
{
    let twice = entries.push(S13JournalEntry::Countersigned(answer));
    if replayed(graph, twice, twice) is Ok {
        replayed_journals_are_bound(graph, twice, entries.len() as int);
        assert(twice.take(entries.len() as int) =~= entries);
    }
}

/// A question that the requester issued verifies wherever the requester's key is
/// registered.
pub proof fn issued_questions_verify(q: SignedS13Request, key: KeyPair, graph: GraphView)
    requires
        issued(key, SigningDomain::S13Message, q.request.bytes(), q.signature@),
        registered(graph, q.requester@, key),
    ensures
        q.check(graph) is Ok,
{
}

/// An answer that the custodian issued verifies wherever the custodian's key is
/// registered.
pub proof fn issued_answers_verify(a: SignedS13Response, key: KeyPair, graph: GraphView)
    requires
        issued(key, SigningDomain::S13Message, a.response.bytes(), a.signature@),
        registered(graph, a.response.custodian@, key),
    ensures
        a.check(graph) is Ok,
{
}

/// An answer that both the custodian and the authority signed verifies at its
/// own place in the sequence, and at no other.
pub proof fn countersigned_answers_verify_at_their_place(
    n: NonRepudiableResponse,
    custodian: KeyPair,
    authority: KeyPair,
    graph: GraphView,
    expected: u64,
)
    requires
        issued(custodian, SigningDomain::S13Message, n.signed.response.bytes(), n.signed.signature@),
        registered(graph, n.signed.response.custodian@, custodian),
        issued(
            authority,
            SigningDomain::S13Message,
            authority_payload(n.signed.response, n.sequence),
            n.authority_signature@,
        ),
        registered(graph, n.authority@, authority),
    ensures
        n.check(graph, expected) is Ok == (expected == n.sequence),
{
}

proof fn lemma_bound_prefix(graph: GraphView, all: Seq<S13JournalEntry>, n: int)
    requires
        0 <= n <= all.len(),
        forall|i: int| 0 <= i < n ==> #[trigger] is_bound(graph, all, i),
    ensures
        replayed(graph, all, all.take(n)) is Ok,
    decreases n,
{
    if n > 0 {
        lemma_bound_prefix(graph, all, n - 1);
        assert(is_bound(graph, all, n - 1));
        assert(all.take(n).drop_last() =~= all.take(n - 1));
        assert(all.take(n).last() == all[n - 1]);
    }
}

/// A journal replays if every entry in it is bound.
pub proof fn bound_journals_replay(graph: GraphView, entries: Seq<S13JournalEntry>)
    requires
        forall|i: int| 0 <= i < entries.len() ==> #[trigger] is_bound(graph, entries, i),
    ensures
        replayed(graph, entries, entries) is Ok,
{
    lemma_bound_prefix(graph, entries, entries.len() as int);
    assert(entries.take(entries.len() as int) =~= entries);
}

} // verus!
