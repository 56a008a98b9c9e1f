//! What envelopes promise: what is bound by sealing, and what it takes to open.

use vstd::prelude::*;

use crate::bytes::utf8;
use crate::envelope::{
    aes_opened, aes_sealed, block_for, blocks_of, clamped, decapsulation, encapsulation,
    envelope_of, kem_key_id, kem_of_token, opened, unwrapped, wrap_of, BlockView, EnvelopeView,
    KemView,
};
use crate::text::{hex_text, unhex_inverts_hex, unhex_text};
use crate::ErrorView;

verus! {

proof fn lemma_hex(b: Seq<u8>)
    ensures
        unhex_text(hex_text(b)) == Some(b),
{
    unhex_inverts_hex(b);
}

proof fn lemma_blocks(keys: Seq<KemView>, content_key: Seq<u8>, seed: Seq<u8>)
    ensures
        blocks_of(keys, content_key, seed) is Ok <==> forall|i: int|
            0 <= i < keys.len() ==> wrap_of(
                #[trigger] keys[i],
                i as nat,
                content_key,
                seed,
            ) is Ok,
        blocks_of(keys, content_key, seed) matches Ok(blocks) ==> blocks.len() == keys.len()
            && forall|i: int|
            0 <= i < keys.len() ==> (wrap_of(#[trigger] keys[i], i as nat, content_key, seed)
                matches Ok(w) && blocks[i] == (BlockView {
                kem: keys[i].suite.token(),
                key_id: kem_key_id(keys[i]),
                encapsulated_key: hex_text(w.encapsulated_key),
                wrapped_key: hex_text(w.wrapped_key),
                wrap_nonce: hex_text(w.wrap_nonce),
            })),
    decreases keys.len(),
{
    if keys.len() > 0 {
        let short = keys.drop_last();
        let n = keys.len() - 1;
        lemma_blocks(short, content_key, seed);
        assert forall|i: int| 0 <= i < n implies short[i] == #[trigger] keys[i] by {}
        if blocks_of(short, content_key, seed) is Err {
            let i = choose|i: int|
                0 <= i < short.len() && wrap_of(
                    #[trigger] short[i],
                    i as nat,
                    content_key,
                    seed,
                ) is Err;
            assert(wrap_of(keys[i], i as nat, content_key, seed) is Err);
        } else {
            assert forall|i: int| 0 <= i < n implies wrap_of(
                #[trigger] keys[i],
                i as nat,
                content_key,
                seed,
            ) is Ok by {
                assert(wrap_of(short[i], i as nat, content_key, seed) is Ok);
            }
            assert(keys[n] == keys.last());
        }
    }
}

/// Whether a part gives a content key to one recipient: it names the recipient's
/// suite and key, and the content key is sealed in it with the recipient's key
/// id associated, under the key that is encapsulated in it.
pub open spec fn gives_key(
    block: BlockView,
    key: KemView,
    index: nat,
    content_key: Seq<u8>,
    seed: Seq<u8>,
) -> bool {
    &&& block.kem == key.suite.token()
    &&& block.key_id == kem_key_id(key)
    &&& unhex_text(block.encapsulated_key) matches Some(encapsulated) && (unhex_text(
        block.wrapped_key,
    ) matches Some(wrapped) && (unhex_text(block.wrap_nonce) matches Some(nonce) && (
    encapsulation(key, index, seed) matches Ok(x) && x.0 == encapsulated && aes_sealed(
        x.1,
        nonce,
        content_key,
        utf8(kem_key_id(key)),
    ) == Some(wrapped))))
}

/// An envelope holds the payload sealed once with what is associated, which it
/// tells, and for each recipient, in order, a part that gives the content key to
/// that recipient. Nothing is sealed for nobody.
pub proof fn envelopes_give_each_recipient_the_key(
    payload: Seq<u8>,
    aad: Seq<u8>,
    recipients: Seq<KemView>,
    seed: Seq<u8>,
)
    ensures
        recipients.len() == 0 ==> envelope_of(payload, aad, recipients, seed) is Err,
        envelope_of(payload, aad, recipients, seed) matches Ok(e) ==> exists|
            content_key: Seq<u8>,
            nonce: Seq<u8>,
        |
            {
                &&& #[trigger] aes_sealed(content_key, nonce, payload, aad) is Some
                &&& unhex_text(e.ciphertext) == aes_sealed(content_key, nonce, payload, aad)
                &&& unhex_text(e.nonce) == Some(nonce)
                &&& unhex_text(e.aad) == Some(aad)
                &&& e.recipients.len() == recipients.len()
                &&& forall|i: int|
                    0 <= i < recipients.len() ==> gives_key(
                        #[trigger] e.recipients[i],
                        recipients[i],
                        i as nat,
                        content_key,
                        seed,
                    )
            },
{
    if let Ok(e) = envelope_of(payload, aad, recipients, seed) {
        let content_key = crate::envelope::derived(seed, "content-key"@, 32);
        let nonce = crate::envelope::derived(seed, "content-nonce"@, 12);
        let c = aes_sealed(content_key, nonce, payload, aad)->0;
        lemma_hex(c);
        lemma_hex(nonce);
        lemma_hex(aad);
        lemma_blocks(recipients, content_key, seed);
        assert forall|i: int| 0 <= i < recipients.len() implies gives_key(
            #[trigger] e.recipients[i],
            recipients[i],
            i as nat,
            content_key,
            seed,
        ) by {
            let w = wrap_of(recipients[i], i as nat, content_key, seed)->Ok_0;
            assert(recipients[i] == recipients[i]);
            lemma_hex(w.encapsulated_key);
            lemma_hex(w.wrapped_key);
            lemma_hex(w.wrap_nonce);
        }
        assert(aes_sealed(content_key, nonce, payload, aad) is Some);
    }
}

/// Whether a part is the first with a key id.
pub open spec fn first_with(blocks: Seq<BlockView>, k: int, key_id: Seq<char>) -> bool {
    0 <= k < blocks.len() && blocks[k].key_id == key_id && forall|j: int|
        0 <= j < k ==> (#[trigger] blocks[j]).key_id != key_id
}

proof fn lemma_block_for(blocks: Seq<BlockView>, key_id: Seq<char>)
    ensures
        block_for(blocks, key_id) is None <==> forall|j: int|
            0 <= j < blocks.len() ==> (#[trigger] blocks[j]).key_id != key_id,
        block_for(blocks, key_id) matches Some(b) ==> exists|k: int| #[trigger]
            first_with(blocks, k, key_id) && blocks[k] == b,
    decreases blocks.len(),
{
    if blocks.len() > 0 {
        let short = blocks.drop_last();
        let n = blocks.len() - 1;
        lemma_block_for(short, key_id);
        assert forall|j: int| 0 <= j < n implies short[j] == #[trigger] blocks[j] by {}
        match block_for(short, key_id) {
            Some(b) => {
                let k = choose|k: int| #[trigger] first_with(short, k, key_id) && short[k] == b;
                assert(blocks[k].key_id == key_id);
                assert(first_with(blocks, k, key_id));
            },
            None => {
                assert forall|j: int| 0 <= j < n implies (#[trigger] blocks[j]).key_id
                    != key_id by {
                    assert(short[j].key_id != key_id);
                }
                if blocks[n].key_id == key_id {
                    assert(first_with(blocks, n, key_id));
                }
            },
        }
    }
}

/// Whether a recipient gets a content key of 32 bytes out of a part: their
/// secret gives the key that authenticates the part with its key id.
pub open spec fn gets_key(block: BlockView, key: KemView, secret: Seq<u8>, content_key: Seq<u8>) -> bool {
    &&& content_key.len() == 32
    &&& unhex_text(block.encapsulated_key) matches Some(encapsulated) && (unhex_text(
        block.wrapped_key,
    ) matches Some(wrapped) && (unhex_text(block.wrap_nonce) matches Some(nonce) && nonce.len()
        == 12 && (decapsulation(key, secret, encapsulated) matches Ok(kek) && aes_opened(
        kek,
        nonce,
        wrapped,
        utf8(block.key_id),
    ) == Some(content_key))))
}

/// An envelope opens to a payload for a recipient exactly when the first part
/// with the recipient's key id is of the recipient's suite and gives a content
/// key, and under that key the ciphertext authenticates with what is associated
/// and gives the payload.
pub proof fn envelopes_open_under_the_content_key(
    e: EnvelopeView,
    key: KemView,
    secret: Seq<u8>,
    payload: Seq<u8>,
)
    ensures
        opened(e, key, secret) == Ok::<Seq<u8>, ErrorView>(payload) <==> exists|
            k: int,
            content_key: Seq<u8>,
        |
            {
                &&& first_with(e.recipients, k, kem_key_id(key))
                &&& kem_of_token(e.recipients[k].kem) == Some(key.suite)
                &&& #[trigger] gets_key(e.recipients[k], key, secret, content_key)
                &&& unhex_text(e.nonce) matches Some(nonce) && nonce.len() == 12 && (unhex_text(
                    e.aad,
                ) matches Some(aad) && (unhex_text(e.ciphertext) matches Some(c) && aes_opened(
                    content_key,
                    nonce,
                    c,
                    aad,
                ) == Some(payload)))
            },
{
    let id = kem_key_id(key);
    lemma_block_for(e.recipients, id);
    if let Some(b) = block_for(e.recipients, id) {
        let k = choose|k: int| #[trigger] first_with(e.recipients, k, id) && e.recipients[k] == b;
        assert forall|m: int| #[trigger] first_with(e.recipients, m, id) implies m == k by {
            assert(e.recipients[m].key_id == id);
            assert(e.recipients[k].key_id == id);
        }
        if let Ok(ck) = unwrapped(key, secret, b) {
            assert(gets_key(e.recipients[k], key, secret, ck));
        }
        assert forall|ck: Seq<u8>| #[trigger] gets_key(e.recipients[k], key, secret, ck) implies
            unwrapped(key, secret, b) == Ok::<Seq<u8>, ErrorView>(ck) by {}
    } else {
        assert forall|m: int| !#[trigger] first_with(e.recipients, m, id) by {}
    }
}

/// A clamped scalar is a multiple of eight with its highest bit but one set and
/// the highest clear; the other bytes stay.
pub proof fn clamped_scalars_are_in_range(b: Seq<u8>)
    requires
        b.len() == 32,
    ensures
        clamped(b).len() == 32,
        clamped(b)[0] % 8 == 0 && b[0] - 8 < clamped(b)[0] <= b[0],
        64 <= clamped(b)[31] < 128 && clamped(b)[31] % 64 == b[31] % 64,
        forall|i: int| 0 < i < 31 ==> #[trigger] clamped(b)[i] == b[i],
{
    let x = b[0];
    let y = b[31];
    assert((x & 248) % 8 == 0 && x - 8 < (x & 248) && (x & 248) <= x) by (bit_vector);
    assert(64 <= ((y & 127) | 64) && ((y & 127) | 64) < 128 && ((y & 127) | 64) % 64 == y % 64)
        by (bit_vector);
}

} // verus!
