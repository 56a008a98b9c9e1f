//! What a reader of canonical bytes gets back: which part stands where.

use vstd::bytes::{spec_u32_to_le_bytes, spec_u64_to_le_bytes};
use vstd::prelude::*;

use crate::accreditation::{grant_bytes, sorted_bytes};
use crate::anchor::tree_head_bytes;
use crate::bytes::utf8;
use crate::canon::{
    fields, i64_bytes, split_field, split_fields, split_fields_inverts_fields, text_field,
};
use crate::device::{certificate_bytes, prefix_bytes, slot_bytes};
use crate::digest::sha256_of;
use crate::exchange::{S13Request, S13Response};
use crate::graph::{credential_bytes, witness_bytes};
use crate::hierarchy::{calibration_bytes, link_bytes, text_or_nothing, HierarchyTier};
use crate::laws::encodings::fits;
use crate::revoke::{quorum_bytes, RevocationView};
use crate::s13::authority_payload;
use crate::scope::ScopeView;
use crate::sovereign::AttestationStatement;
use crate::time::Timestamp;
use crate::transport::relay_bytes;
use crate::verify::stamp;

verus! {

/// Whether each of some parts has a length that is a machine number.
pub open spec fn parts_fit(parts: Seq<Seq<u8>>) -> bool {
    forall|i: int| 0 <= i < parts.len() ==> (#[trigger] parts[i]).len() <= u64::MAX
}

proof fn lemma_fields_read(parts: Seq<Seq<u8>>)
    requires
        parts_fit(parts),
    ensures
        split_fields(fields(parts)) == Some(parts),
{
    split_fields_inverts_fields(parts);
}

/// A delegation reads back as the parent, the child and the scope.
pub proof fn delegations_read_back(p: Seq<char>, c: Seq<char>, s: ScopeView)
    requires
        parts_fit(seq![utf8(p), utf8(c), s.bytes()]),
    ensures
        split_fields(credential_bytes(p, c, s)) == Some(seq![utf8(p), utf8(c), s.bytes()]),
{
    lemma_fields_read(seq![utf8(p), utf8(c), s.bytes()]);
}

/// A chain link reads back as the two tiers from above to below, the child and
/// the scope.
pub proof fn links_read_back(f: HierarchyTier, t: HierarchyTier, c: Seq<char>, s: ScopeView)
    requires
        parts_fit(seq![utf8(f.spec_token()), utf8(t.spec_token()), utf8(c), s.bytes()]),
    ensures
        split_fields(link_bytes(f, t, c, s)) == Some(
            seq![utf8(f.spec_token()), utf8(t.spec_token()), utf8(c), s.bytes()],
        ),
{
    lemma_fields_read(seq![utf8(f.spec_token()), utf8(t.spec_token()), utf8(c), s.bytes()]);
}

/// A witness's attestation reads back as the root, and the seconds and the
/// nanoseconds of the moment.
pub proof fn witnesses_read_back(n: Seq<char>, t: Timestamp)
    requires
        parts_fit(seq![utf8(n), i64_bytes(t.secs), spec_u32_to_le_bytes(t.nanos)]),
    ensures
        split_fields(witness_bytes(n, t)) == Some(
            seq![utf8(n), i64_bytes(t.secs), spec_u32_to_le_bytes(t.nanos)],
        ),
{
    lemma_fields_read(seq![utf8(n), i64_bytes(t.secs), spec_u32_to_le_bytes(t.nanos)]);
}

/// A device certificate reads back as the device, its key, the segment and the
/// commitment; a slot credential as the device, the slot's key, the segment, the
/// start and the end; a committed prefix as its length and its state.
pub proof fn devices_read_back(
    d: Seq<char>,
    k: Seq<char>,
    g: Seq<char>,
    h: Seq<u8>,
    f: Seq<char>,
    t: Option<Seq<char>>,
    n: u64,
)
    requires
        parts_fit(
            seq![
                utf8(d),
                utf8(k),
                utf8(g),
                h,
                utf8(f),
                utf8(text_or_nothing(t)),
                spec_u64_to_le_bytes(n),
            ],
        ),
    ensures
        split_fields(certificate_bytes(d, k, g, h)) == Some(seq![utf8(d), utf8(k), utf8(g), h]),
        split_fields(slot_bytes(d, k, g, f, t)) == Some(
            seq![utf8(d), utf8(k), utf8(g), utf8(f), utf8(text_or_nothing(t))],
        ),
        split_fields(prefix_bytes(n, h)) == Some(seq![spec_u64_to_le_bytes(n), h]),
{
    let all = seq![
        utf8(d),
        utf8(k),
        utf8(g),
        h,
        utf8(f),
        utf8(text_or_nothing(t)),
        spec_u64_to_le_bytes(n),
    ];
    assert(all[0].len() <= u64::MAX && all[1].len() <= u64::MAX && all[2].len() <= u64::MAX);
    assert(all[3].len() <= u64::MAX && all[4].len() <= u64::MAX && all[5].len() <= u64::MAX);
    assert(all[6].len() <= u64::MAX);
    lemma_fields_read(seq![utf8(d), utf8(k), utf8(g), h]);
    lemma_fields_read(seq![utf8(d), utf8(k), utf8(g), utf8(f), utf8(text_or_nothing(t))]);
    lemma_fields_read(seq![spec_u64_to_le_bytes(n), h]);
}

/// A calibration reads back as the device, the measurand, the result, the
/// uncertainty, the unit, the start, the end and the laboratory.
pub proof fn calibrations_read_back(x: Seq<Seq<char>>, t: Option<Seq<char>>)
    requires
        x.len() == 7,
        parts_fit(
            seq![
                utf8(x[0]),
                utf8(x[1]),
                utf8(x[2]),
                utf8(x[3]),
                utf8(x[4]),
                utf8(x[5]),
                utf8(text_or_nothing(t)),
                utf8(x[6]),
            ],
        ),
    ensures
        split_fields(calibration_bytes(x[0], x[1], x[2], x[3], x[4], x[5], t, x[6])) == Some(
            seq![
                utf8(x[0]),
                utf8(x[1]),
                utf8(x[2]),
                utf8(x[3]),
                utf8(x[4]),
                utf8(x[5]),
                utf8(text_or_nothing(t)),
                utf8(x[6]),
            ],
        ),
{
    lemma_fields_read(
        seq![
            utf8(x[0]),
            utf8(x[1]),
            utf8(x[2]),
            utf8(x[3]),
            utf8(x[4]),
            utf8(x[5]),
            utf8(text_or_nothing(t)),
            utf8(x[6]),
        ],
    );
}

/// A grant reads back as whom it accredits, the authority, the version, the two
/// sorted lists, the start and the end.
pub proof fn grants_read_back(
    p: Seq<char>,
    a: Seq<char>,
    v: u64,
    s: Seq<Seq<char>>,
    c: Seq<Seq<char>>,
    f: Seq<char>,
    t: Option<Seq<char>>,
)
    requires
        parts_fit(
            seq![
                utf8(p),
                utf8(a),
                spec_u64_to_le_bytes(v),
                sorted_bytes(s),
                sorted_bytes(c),
                utf8(f),
                utf8(text_or_nothing(t)),
            ],
        ),
    ensures
        split_fields(grant_bytes(p, a, v, s, c, f, t)) == Some(
            seq![
                utf8(p),
                utf8(a),
                spec_u64_to_le_bytes(v),
                sorted_bytes(s),
                sorted_bytes(c),
                utf8(f),
                utf8(text_or_nothing(t)),
            ],
        ),
{
    lemma_fields_read(
        seq![
            utf8(p),
            utf8(a),
            spec_u64_to_le_bytes(v),
            sorted_bytes(s),
            sorted_bytes(c),
            utf8(f),
            utf8(text_or_nothing(t)),
        ],
    );
}

/// A statement reads back as the segment, the commitment to its state, the
/// claim, the value, the moment, the policy, its version and the passport.
pub proof fn statements_read_back(s: AttestationStatement)
    requires
        parts_fit(
            seq![
                utf8(s.segment@),
                s.state_commitment@,
                utf8(s.claim.spec_token()),
                utf8(s.value@),
                utf8(s.as_of@),
                utf8(s.governing_policy@),
                spec_u64_to_le_bytes(s.governing_policy_version),
                utf8(s.subject@),
            ],
        ),
    ensures
        split_fields(s.bytes()) == Some(
            seq![
                utf8(s.segment@),
                s.state_commitment@,
                utf8(s.claim.spec_token()),
                utf8(s.value@),
                utf8(s.as_of@),
                utf8(s.governing_policy@),
                spec_u64_to_le_bytes(s.governing_policy_version),
                utf8(s.subject@),
            ],
        ),
{
    lemma_fields_read(
        seq![
            utf8(s.segment@),
            s.state_commitment@,
            utf8(s.claim.spec_token()),
            utf8(s.value@),
            utf8(s.as_of@),
            utf8(s.governing_policy@),
            spec_u64_to_le_bytes(s.governing_policy_version),
            utf8(s.subject@),
        ],
    );
}

/// A question reads back as the verifier, the passport, the profile, the segment
/// and the moment.
pub proof fn questions_read_back(q: S13Request)
    requires
        parts_fit(
            seq![
                utf8(q.verifier@),
                utf8(q.subject@),
                utf8(q.profile@),
                utf8(q.segment@),
                utf8(q.at@),
            ],
        ),
    ensures
        split_fields(q.bytes()) == Some(
            seq![
                utf8(q.verifier@),
                utf8(q.subject@),
                utf8(q.profile@),
                utf8(q.segment@),
                utf8(q.at@),
            ],
        ),
{
    lemma_fields_read(
        seq![
            utf8(q.verifier@),
            utf8(q.subject@),
            utf8(q.profile@),
            utf8(q.segment@),
            utf8(q.at@),
        ],
    );
}

/// An answer reads back as the digest of its question, the custodian, the
/// outcome, the policy and its version; what is countersigned as the digest of
/// the answer, its place, the policy and its version.
pub proof fn answers_read_back(a: S13Response, place: u64)
    requires
        parts_fit(
            seq![
                a.request_digest@,
                utf8(a.custodian@),
                utf8(a.outcome.spec_token()),
                utf8(a.governing_policy@),
                spec_u64_to_le_bytes(a.governing_policy_version),
                sha256_of(a.bytes()),
                spec_u64_to_le_bytes(place),
            ],
        ),
    ensures
        split_fields(a.bytes()) == Some(
            seq![
                a.request_digest@,
                utf8(a.custodian@),
                utf8(a.outcome.spec_token()),
                utf8(a.governing_policy@),
                spec_u64_to_le_bytes(a.governing_policy_version),
            ],
        ),
        split_fields(authority_payload(a, place)) == Some(
            seq![
                sha256_of(a.bytes()),
                spec_u64_to_le_bytes(place),
                utf8(a.governing_policy@),
                spec_u64_to_le_bytes(a.governing_policy_version),
            ],
        ),
{
    let all = seq![
        a.request_digest@,
        utf8(a.custodian@),
        utf8(a.outcome.spec_token()),
        utf8(a.governing_policy@),
        spec_u64_to_le_bytes(a.governing_policy_version),
        sha256_of(a.bytes()),
        spec_u64_to_le_bytes(place),
    ];
    assert(all[0].len() <= u64::MAX && all[1].len() <= u64::MAX && all[2].len() <= u64::MAX);
    assert(all[3].len() <= u64::MAX && all[4].len() <= u64::MAX && all[5].len() <= u64::MAX);
    assert(all[6].len() <= u64::MAX);
    lemma_fields_read(
        seq![
            a.request_digest@,
            utf8(a.custodian@),
            utf8(a.outcome.spec_token()),
            utf8(a.governing_policy@),
            spec_u64_to_le_bytes(a.governing_policy_version),
        ],
    );
    lemma_fields_read(
        seq![
            sha256_of(a.bytes()),
            spec_u64_to_le_bytes(place),
            utf8(a.governing_policy@),
            spec_u64_to_le_bytes(a.governing_policy_version),
        ],
    );
}

/// A relay reads back as the hub, the digest of the evidence, the sender, the
/// receiver and the class.
pub proof fn relays_read_back(
    h: Seq<char>,
    e: Seq<u8>,
    f: Seq<char>,
    t: Seq<char>,
    c: Seq<char>,
)
    requires
        parts_fit(seq![utf8(h), sha256_of(e), utf8(f), utf8(t), utf8(c)]),
    ensures
        split_fields(relay_bytes(h, e, f, t, c)) == Some(
            seq![utf8(h), sha256_of(e), utf8(f), utf8(t), utf8(c)],
        ),
{
    lemma_fields_read(seq![utf8(h), sha256_of(e), utf8(f), utf8(t), utf8(c)]);
}

/// A declaration of distrust reads back as the label of its subject, the token
/// of its reason, its declarer, and the seconds at which its window starts and
/// ends; the last second there is stands for no end.
pub proof fn declarations_of_distrust_read_back(r: RevocationView)
    requires
        parts_fit(
            seq![
                utf8(r.subject.label()),
                utf8(r.reason.token()),
                utf8(r.declared_by),
                i64_bytes(r.window.from.secs),
                i64_bytes(r.end_secs()),
            ],
        ),
    ensures
        split_fields(r.statement()) == Some(
            seq![
                utf8(r.subject.label()),
                utf8(r.reason.token()),
                utf8(r.declared_by),
                i64_bytes(r.window.from.secs),
                i64_bytes(
                    if r.window.to is Some {
                        r.window.to->0.secs
                    } else {
                        i64::MAX
                    },
                ),
            ],
        ),
{
    lemma_fields_read(
        seq![
            utf8(r.subject.label()),
            utf8(r.reason.token()),
            utf8(r.declared_by),
            i64_bytes(r.window.from.secs),
            i64_bytes(r.end_secs()),
        ],
    );
}

/// What a quorum signs starts with the quorum and the threshold, and ends with
/// the statement; what a notary signs starts with the passport and the moment,
/// and ends with the state; what an operator signs starts with the log, the size
/// and the moment, and ends with the root.
pub proof fn stamps_and_heads_read_back(
    name: Seq<char>,
    threshold: usize,
    rest: Seq<u8>,
    t: Timestamp,
    size: u64,
)
    requires
        fits(name),
    ensures
        split_field(quorum_bytes(rest, name, threshold)) == Some(
            (utf8(name), spec_u32_to_le_bytes(threshold as u32) + rest),
        ),
        split_field(stamp(name, t, rest)) == Some(
            (utf8(name), i64_bytes(t.secs) + spec_u32_to_le_bytes(t.nanos) + rest),
        ),
        split_field(tree_head_bytes(name, size, t, rest)) == Some(
            (
                utf8(name),
                spec_u64_to_le_bytes(size) + i64_bytes(t.secs) + spec_u32_to_le_bytes(t.nanos)
                    + rest,
            ),
        ),
{
    let one = seq![utf8(name)];
    assert(one.drop_last() =~= Seq::<Seq<u8>>::empty());
    reveal_with_fuel(fields, 2);
    assert(fields(one) =~= text_field(name));
    let a = spec_u32_to_le_bytes(threshold as u32) + rest;
    let b = i64_bytes(t.secs) + spec_u32_to_le_bytes(t.nanos) + rest;
    let c = spec_u64_to_le_bytes(size) + i64_bytes(t.secs) + spec_u32_to_le_bytes(t.nanos) + rest;
    assert(quorum_bytes(rest, name, threshold) =~= text_field(name) + a);
    assert(stamp(name, t, rest) =~= text_field(name) + b);
    assert(tree_head_bytes(name, size, t, rest) =~= text_field(name) + c);
    crate::canon::lemma_split_field(utf8(name), a);
    crate::canon::lemma_split_field(utf8(name), b);
    crate::canon::lemma_split_field(utf8(name), c);
}

} // verus!
