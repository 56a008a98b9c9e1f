//! What signatures, co-signatures and acceptance policies promise.

use vstd::prelude::*;

use crate::curve::{ed25519_accepts, point_log};
use crate::graph::KeyDirectory;
use crate::keyring::{p256_accepts, p256_key_valid, p256_signature_valid, KeyView};
use crate::sign::{
    framed, held_suites, slot_verdict, slot_verdicts, suites_in_order, verified_among, verified_in,
    AcceptancePolicy, CoSignatureView, CompositeView, SigningDomain, SlotVerdictView, SlotView,
    Suite,
};

verus! {

/// Whether a slot holds a signature of a payload in a domain that a key
/// accepts: of the key's own suite, one of the two that are computed.
pub open spec fn sound_under(
    slot: SlotView,
    domain: SigningDomain,
    payload: Seq<u8>,
    key: KeyView,
) -> bool {
    slot.suite == key.suite && (slot.signature matches Some(sig) && sig.len() == 64 && match key.suite {
        Suite::Ed25519 => point_log(key.bytes) is Some && ed25519_accepts(
            key.bytes,
            framed(domain, payload),
            sig,
        ),
        Suite::EcdsaP256 => p256_key_valid(key.bytes) && p256_signature_valid(sig)
            && p256_accepts(key.bytes, framed(domain, payload), sig),
        _ => false,
    })
}

/// Whether a slot holds a signature that the key listed under its key id
/// accepts.
pub open spec fn sound(
    slot: SlotView,
    domain: SigningDomain,
    payload: Seq<u8>,
    keys: KeyDirectory,
) -> bool {
    keys.lookup(slot.key_id) matches Some(key) && sound_under(slot, domain, payload, key)
}

/// A slot passes under a key exactly when the key accepts its signature.
pub proof fn slots_pass_when_the_key_accepts(
    slot: SlotView,
    domain: SigningDomain,
    payload: Seq<u8>,
    key: KeyView,
)
    ensures
        slot.check(domain, payload, key) is Ok == sound_under(slot, domain, payload, key),
        slot.verifies(domain, payload, key) == sound_under(slot, domain, payload, key),
{
}

/// The verdict on a slot: unknown without a key under its id, deferred where
/// its suite is not computed, verified when the key accepts, and invalid
/// otherwise. It names the slot's own suite and key.
pub proof fn verdicts_follow_the_signature(
    slot: SlotView,
    domain: SigningDomain,
    payload: Seq<u8>,
    keys: KeyDirectory,
)
    ensures
        ({
            let v = slot_verdict(slot, domain, payload, keys);
            let known = keys.lookup(slot.key_id) is Some;
            let computed = slot.suite == Suite::Ed25519 || slot.suite == Suite::EcdsaP256;
            &&& !known <==> v == (SlotVerdictView::UnknownKey {
                suite: slot.suite,
                key_id: slot.key_id,
            })
            &&& known && !computed <==> v is Deferred
            &&& sound(slot, domain, payload, keys) <==> v == (SlotVerdictView::Verified {
                suite: slot.suite,
                key_id: slot.key_id,
            })
            &&& v is Verified <==> sound(slot, domain, payload, keys)
            &&& v is Invalid <==> known && computed && !sound(slot, domain, payload, keys)
        }),
{
}

/// Whether every member of a composite is sound, and there is one.
pub open spec fn whole(c: CompositeView, keys: KeyDirectory) -> bool {
    c.members.len() > 0 && forall|i: int|
        0 <= i < c.members.len() ==> sound(#[trigger] c.members[i], c.domain, c.payload, keys)
}

/// A composite holds exactly when it has members and the keys accept every one.
pub proof fn composites_hold_as_a_whole(c: CompositeView, keys: KeyDirectory)
    ensures
        c.holds(keys) == whole(c, keys),
        forall|s: Suite| #[trigger]
            c.suites().contains(s) <==> (exists|i: int|
                0 <= i < c.members.len() && (#[trigger] c.members[i]).suite == s),
{
    let all = c.members.map_values(|m: SlotView| m.suite);
    assert forall|s: Suite| #[trigger] c.suites().contains(s) <==> (exists|i: int|
        0 <= i < c.members.len() && (#[trigger] c.members[i]).suite == s) by {
        if c.suites().contains(s) {
            let i = all.index_of(s);
            assert(c.members[i].suite == s);
        }
        if exists|i: int| 0 <= i < c.members.len() && (#[trigger] c.members[i]).suite == s {
            let i = choose|i: int| 0 <= i < c.members.len() && (#[trigger] c.members[i]).suite == s;
            assert(all[i] == s);
        }
    }
    if whole(c, keys) {
        assert forall|i: int| 0 <= i < c.members.len() implies slot_verdict(
            #[trigger] c.members[i],
            c.domain,
            c.payload,
            keys,
        ) is Verified by {
            assert(sound(c.members[i], c.domain, c.payload, keys));
        }
    }
    if c.holds(keys) {
        assert forall|i: int| 0 <= i < c.members.len() implies sound(
            #[trigger] c.members[i],
            c.domain,
            c.payload,
            keys,
        ) by {
            assert(slot_verdict(c.members[i], c.domain, c.payload, keys) is Verified);
        }
    }
}

proof fn lemma_verified_in(
    slots: Seq<SlotView>,
    domain: SigningDomain,
    payload: Seq<u8>,
    keys: KeyDirectory,
    s: Suite,
)
    ensures
        verified_in(slot_verdicts(slots, domain, payload, keys)).contains(s) <==> (exists|i: int|
            0 <= i < slots.len() && (#[trigger] slots[i]).suite == s && sound(
                slots[i],
                domain,
                payload,
                keys,
            )),
    decreases slots.len(),
{
    let verdicts = slot_verdicts(slots, domain, payload, keys);
    if slots.len() > 0 {
        let short = slots.drop_last();
        lemma_verified_in(short, domain, payload, keys, s);
        assert(verdicts.drop_last() =~= slot_verdicts(short, domain, payload, keys));
        let n = slots.len() - 1;
        assert(verdicts.last() == slot_verdict(slots[n], domain, payload, keys));
        if exists|i: int|
            0 <= i < short.len() && (#[trigger] short[i]).suite == s && sound(
                short[i],
                domain,
                payload,
                keys,
            ) {
            let i = choose|i: int|
                0 <= i < short.len() && (#[trigger] short[i]).suite == s && sound(
                    short[i],
                    domain,
                    payload,
                    keys,
                );
            assert(slots[i].suite == s);
        }
        if exists|i: int|
            0 <= i < slots.len() && (#[trigger] slots[i]).suite == s && sound(
                slots[i],
                domain,
                payload,
                keys,
            ) {
            let i = choose|i: int|
                0 <= i < slots.len() && (#[trigger] slots[i]).suite == s && sound(
                    slots[i],
                    domain,
                    payload,
                    keys,
                );
            if i < n {
                assert(short[i].suite == s);
            }
        }
    }
}

/// Whether a composite that is whole has a member of a suite.
pub open spec fn wholly_signed_in(c: CompositeView, keys: KeyDirectory, s: Suite) -> bool {
    whole(c, keys) && exists|k: int| 0 <= k < c.members.len() && (#[trigger] c.members[k]).suite == s
}

proof fn lemma_held_suites(composites: Seq<CompositeView>, keys: KeyDirectory, s: Suite)
    ensures
        held_suites(composites, keys).contains(s) <==> (exists|j: int|
            0 <= j < composites.len() && wholly_signed_in(#[trigger] composites[j], keys, s)),
    decreases composites.len(),
{
    if composites.len() > 0 {
        let short = composites.drop_last();
        let n = composites.len() - 1;
        lemma_held_suites(short, keys, s);
        composites_hold_as_a_whole(composites[n], keys);
        if exists|j: int| 0 <= j < short.len() && wholly_signed_in(#[trigger] short[j], keys, s) {
            let j = choose|j: int|
                0 <= j < short.len() && wholly_signed_in(#[trigger] short[j], keys, s);
            assert(wholly_signed_in(composites[j], keys, s));
        }
        if exists|j: int|
            0 <= j < composites.len() && wholly_signed_in(#[trigger] composites[j], keys, s) {
            let j = choose|j: int|
                0 <= j < composites.len() && wholly_signed_in(#[trigger] composites[j], keys, s);
            if j < n {
                assert(wholly_signed_in(short[j], keys, s));
            }
        }
    }
}

/// A suite counts as verified for a co-signature exactly when a slot of that
/// suite is sound, or a composite with a member of that suite is whole.
pub proof fn suites_verify_by_sound_slots(c: CoSignatureView, keys: KeyDirectory, s: Suite)
    ensures
        c.verified_suites(keys).contains(s) <==> ((exists|i: int|
            0 <= i < c.slots.len() && (#[trigger] c.slots[i]).suite == s && sound(
                c.slots[i],
                c.domain,
                c.payload,
                keys,
            )) || (exists|j: int|
            0 <= j < c.composites.len() && wholly_signed_in(
                #[trigger] c.composites[j],
                keys,
                s,
            ))),
{
    lemma_verified_in(c.slots, c.domain, c.payload, keys, s);
    lemma_held_suites(c.composites, keys, s);
}

/// The suites in two sets at once.
pub open spec fn in_both(a: Set<Suite>, b: Set<Suite>) -> Set<Suite> {
    a.filter(|s: Suite| b.contains(s))
}

proof fn lemma_in_order(set: Set<Suite>, n: int)
    requires
        0 <= n <= 8,
    ensures
        suites_in_order(set, n).no_duplicates(),
    decreases n,
{
    crate::sign::lemma_all_ranks();
    if n > 0 {
        lemma_in_order(set, n - 1);
        crate::sign::lemma_in_order_members(set, n - 1);
        let front = suites_in_order(set, n - 1);
        let last = Suite::ALL@[n - 1];
        assert(last.rank() == n - 1);
        assert(!front.contains(last));
        assert forall|i: int, j: int|
            0 <= i < front.push(last).len() && 0 <= j < front.push(last).len() && i
                != j implies front.push(last)[i] != front.push(last)[j] by {
            if i < front.len() {
                assert(front.contains(front[i]));
            }
            if j < front.len() {
                assert(front.contains(front[j]));
            }
        }
    }
}

/// The members of a set of suites in order are as many as the set has.
pub proof fn suites_are_counted_once(set: Set<Suite>)
    ensures
        set.finite(),
        suites_in_order(set, 8).len() == set.len(),
        suites_in_order(set, 8).to_set() == set,
{
    lemma_in_order(set, 8);
    crate::sign::lemma_in_order_members(set, 8);
    crate::sign::lemma_all_ranks();
    let q = suites_in_order(set, 8);
    assert forall|s: Suite| #[trigger] q.to_set().contains(s) == set.contains(s) by {
        assert(q.to_set().contains(s) == q.contains(s));
        assert(0 <= s.rank() < 8);
    }
    assert(q.to_set() =~= set);
    q.unique_seq_to_set();
}

/// A policy accepts exactly when some suite both verified and is allowed, and
/// as many distinct such suites did as it demands. What it reports is those.
pub proof fn policies_count_allowed_suites_only(policy: AcceptancePolicy, verified: Set<Suite>)
    ensures
        ({
            let both = in_both(verified, policy.allowed_suites@);
            &&& policy.accepts(verified) <==> both.len() >= 1 && both.len()
                >= policy.min_verified_suites
            &&& policy.counted(verified) == both
        }),
{
    let both = in_both(verified, policy.allowed_suites@);
    assert(policy.counted(verified) =~= both);
    suites_are_counted_once(both);
    if both.len() == 0 {
        assert(both =~= Set::<Suite>::empty());
    } else {
        assert(both.contains(both.choose()));
    }
}

/// Suites that a policy does not allow never change its decision.
pub proof fn disallowed_suites_change_nothing(
    policy: AcceptancePolicy,
    a: Set<Suite>,
    b: Set<Suite>,
)
    requires
        forall|s: Suite|
            policy.allowed_suites@.contains(s) ==> (#[trigger] a.contains(s) == b.contains(s)),
    ensures
        policy.accepts(a) == policy.accepts(b),
        policy.counted(a) == policy.counted(b),
{
    policies_count_allowed_suites_only(policy, a);
    policies_count_allowed_suites_only(policy, b);
    assert(in_both(a, policy.allowed_suites@) =~= in_both(b, policy.allowed_suites@)) by {
        assert forall|s: Suite| in_both(a, policy.allowed_suites@).contains(s) == in_both(
            b,
            policy.allowed_suites@,
        ).contains(s) by {
            assert(policy.allowed_suites@.contains(s) ==> a.contains(s) == b.contains(s));
        }
    }
}

/// More verified suites never lose an acceptance, and a lower demand neither.
pub proof fn policies_are_monotone(
    policy: AcceptancePolicy,
    laxer: AcceptancePolicy,
    a: Set<Suite>,
    b: Set<Suite>,
)
    requires
        policy.accepts(a),
        a.subset_of(b),
        policy.allowed_suites@.subset_of(laxer.allowed_suites@),
        laxer.min_verified_suites <= policy.min_verified_suites,
    ensures
        laxer.accepts(b),
{
    policies_count_allowed_suites_only(policy, a);
    policies_count_allowed_suites_only(laxer, b);
    let x = in_both(a, policy.allowed_suites@);
    let y = in_both(b, laxer.allowed_suites@);
    suites_are_counted_once(x);
    suites_are_counted_once(y);
    assert(x.subset_of(y));
    vstd::set_lib::lemma_len_subset(x, y);
}

/// The post-quantum suites are the lattice and the hash-based ones; two suites
/// are computed; a carrier has a place for all but Ed25519 and the hash-based.
pub proof fn suites_have_their_classes(s: Suite)
    ensures
        s.post_quantum() <==> s == Suite::MlDsa44 || s == Suite::MlDsa65 || s == Suite::MlDsa87
            || s == Suite::SlhDsa128s || s == Suite::SlhDsa192s,
        s.computed() <==> s == Suite::Ed25519 || s == Suite::EcdsaP256,
        s.refusal() is None <==> s == Suite::Ed25519 || s == Suite::EcdsaP256,
        s.carrier() is None <==> s == Suite::Ed25519 || s == Suite::SlhDsa128s || s
            == Suite::SlhDsa192s,
        s.carrier() matches Some(core) ==> Suite::of_carrier(core) == s,
{
}

/// The number of verdicts that verified is the number of them that are so.
pub proof fn verified_verdicts_are_counted(verdicts: Seq<SlotVerdictView>)
    ensures
        verified_among(verdicts) == verdicts.filter(|v: SlotVerdictView| v is Verified).len(),
    decreases verdicts.len(),
{
    reveal(Seq::filter);
    if verdicts.len() > 0 {
        verified_verdicts_are_counted(verdicts.drop_last());
    }
}

/// Different suites have different codes, and the suites of a set come in the
/// order in which the suites are listed.
pub proof fn suites_have_their_own_codes(a: Suite, b: Suite, set: Set<Suite>, n: int)
    requires
        0 <= n <= 8,
    ensures
        a.spec_code() == b.spec_code() ==> a == b,
        forall|i: int, j: int|
            0 <= i < j < suites_in_order(set, n).len() ==> (
            #[trigger] suites_in_order(set, n)[i]).rank() < (
            #[trigger] suites_in_order(set, n)[j]).rank(),
    decreases n,
{
    crate::sign::lemma_all_ranks();
    if n > 0 {
        suites_have_their_own_codes(a, b, set, n - 1);
        crate::sign::lemma_in_order_members(set, n - 1);
        let front = suites_in_order(set, n - 1);
        let all = suites_in_order(set, n);
        assert forall|i: int, j: int| 0 <= i < j < all.len() implies (#[trigger] all[i]).rank() < (
        #[trigger] all[j]).rank() by {
            assert(front.contains(front[i]));
            if j < front.len() {
                assert(front[i].rank() < front[j].rank());
            }
        }
    }
}

/// The length of a signature follows from the suite's parameters: two numbers of
/// 32 bytes on the curves; for ML-DSA the challenge, the packed response and the
/// hints; for SLH-DSA as many hashes as the randomiser, the few-time signature,
/// the tree paths and the chains take.
pub proof fn signatures_have_the_length_of_their_parameters(s: Suite)
    ensures
        s == Suite::Ed25519 || s == Suite::EcdsaP256 || s == Suite::Sm2 ==> s.spec_signature_len()
            == 2 * 32,
        s == Suite::MlDsa44 ==> s.spec_signature_len() == 32 + 4 * 32 * 18 + 80 + 4,
        s == Suite::MlDsa65 ==> s.spec_signature_len() == 48 + 5 * 32 * 20 + 55 + 6,
        s == Suite::MlDsa87 ==> s.spec_signature_len() == 64 + 7 * 32 * 20 + 75 + 8,
        s == Suite::SlhDsa128s ==> s.spec_signature_len() == (1 + 14 * 13 + 63 + 7 * 35) * 16,
        s == Suite::SlhDsa192s ==> s.spec_signature_len() == (1 + 17 * 15 + 63 + 7 * 51) * 24,
{
}

} // verus!
