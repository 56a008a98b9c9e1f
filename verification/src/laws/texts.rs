//! What numbers, ids and keys in text promise.

use vstd::prelude::*;

use crate::ceremony::{
    all_digits, digits_value, init_command, number_in, parsed, quorum_group, share_report,
    sign_command, signature_report, verify_command, verify_share_command, with_value, CommandView,
    Flag, OptionsView,
};
use crate::graph::node_id_of;
use crate::keyring::{first_colon, key_in_text, key_of_bytes, KeyView};
use crate::provenance::after_slash;
use crate::sign::{suite_of_token, suite_tokens_parse_back, without_separators, Suite};
use crate::text::{
    all_graphic, ascii_lower, decimal, digit, hex_text, is_graphic, is_space, lowered, text_lt,
    trimmed, trimmed_end, trimmed_start, unhex_inverts_hex, unhex_text,
};
use crate::threshold::{group_in, share_check, share_in, signature_check, signature_in};
use crate::ErrorView;

verus! {

/// A number in decimal reads back: its digits are digits, their value is the
/// number, and none but zero starts with a zero.
pub proof fn decimals_read_back(n: nat)
    ensures
        decimal(n).len() > 0,
        all_digits(decimal(n)),
        digits_value(decimal(n)) == n,
        n > 0 ==> decimal(n)[0] != '0',
    decreases n,
{
    let s = decimal(n);
    if n < 10 {
        assert(s.drop_last() =~= Seq::<char>::empty());
        assert(digits_value(s.drop_last()) == 0);
        lemma_digit(n);
    } else {
        decimals_read_back(n / 10);
        lemma_digit(n % 10);
        assert(s.drop_last() =~= decimal(n / 10));
        assert forall|i: int| 0 <= i < s.len() implies '0' <= #[trigger] s[i] && s[i] <= '9' by {
            if i < s.len() - 1 {
                assert(decimal(n / 10)[i] == s[i]);
            }
        }
        assert(s[0] == decimal(n / 10)[0]);
    }
}

proof fn lemma_digit(n: nat)
    requires
        n < 10,
    ensures
        '0' <= digit(n) <= '9',
        digit(n) as nat - '0' as nat == n,
        n > 0 ==> digit(n) != '0',
{
}

/// Different numbers have different decimals, and what is given for a number on
/// the command line is read as that number.
pub proof fn decimals_tell_the_number(m: nat, n: nat)
    ensures
        decimal(m) == decimal(n) ==> m == n,
        n <= usize::MAX ==> number_in(decimal(n)) == Some(n as usize),
{
    decimals_read_back(m);
    decimals_read_back(n);
    let s = decimal(n);
    assert('0' <= s[0]);
}

/// Text is no number if it is empty or has a character that is no digit, but
/// for a plus in front.
pub proof fn numbers_are_digits(s: Seq<char>, i: int)
    requires
        0 <= i < s.len(),
        !('0' <= s[i] <= '9'),
        i > 0 || s[0] != '+' || s.len() == 1,
    ensures
        number_in(s) is None,
{
    let d = crate::ceremony::unsigned(s);
    if s[0] == '+' && s.len() > 1 {
        assert(d[i - 1] == s[i]);
    } else if s[0] == '+' {
        assert(d.len() == 0);
    } else {
        assert(d[i] == s[i]);
    }
}

/// Whether a character is white space in none of the ways that count, in print,
/// and not a capital letter.
pub open spec fn is_small(c: char) -> bool {
    '!' <= c <= '~' && !('A' <= c <= 'Z')
}

/// A node id has 1 to 128 printing characters, none of them a capital letter or
/// white space, and denotes itself.
pub proof fn node_ids_are_small_print(raw: Seq<char>)
    ensures
        node_id_of(raw) matches Some(id) ==> 1 <= id.len() <= 128 && (forall|i: int|
            0 <= i < id.len() ==> is_small(#[trigger] id[i])) && node_id_of(id) == Some(id),
{
    if let Some(id) = node_id_of(raw) {
        assert forall|i: int| 0 <= i < id.len() implies is_small(#[trigger] id[i]) by {
            assert(is_graphic(id[i]));
            assert(id[i] == ascii_lower(trimmed(raw)[i]));
        }
        lemma_small_text(id);
    }
}

proof fn lemma_small_text(s: Seq<char>)
    requires
        s.len() > 0,
        forall|i: int| 0 <= i < s.len() ==> is_small(#[trigger] s[i]),
    ensures
        lowered(trimmed(s)) == s,
        all_graphic(s),
{
    assert(is_small(s[0]));
    assert(is_small(s[s.len() - 1]));
    assert(trimmed_start(s) == s);
    assert(trimmed_end(s) == s);
    assert forall|i: int| 0 <= i < s.len() implies lowered(s)[i] == s[i] by {
        assert(is_small(s[i]));
    }
    assert(lowered(s) =~= s);
}

/// Two texts that differ only in the case of letters and in the white space
/// around them denote the same node.
pub proof fn node_ids_ignore_case_and_margins(a: Seq<char>, b: Seq<char>)
    requires
        lowered(trimmed(a)) == lowered(trimmed(b)),
    ensures
        node_id_of(a) == node_id_of(b),
{
}

proof fn lemma_first_colon(s: Seq<char>, k: int)
    requires
        0 <= k < s.len(),
        s[k] == ':',
        forall|i: int| 0 <= i < k ==> #[trigger] s[i] != ':',
    ensures
        first_colon(s) == Some(k),
    decreases s.len(),
{
    let short = s.drop_last();
    if k < short.len() {
        assert(short[k] == ':');
        assert forall|i: int| 0 <= i < k implies #[trigger] short[i] != ':' by {
            assert(s[i] != ':');
        }
        lemma_first_colon(short, k);
    } else {
        lemma_no_colon(short);
    }
}

proof fn lemma_no_colon(s: Seq<char>)
    ensures
        (forall|i: int| 0 <= i < s.len() ==> #[trigger] s[i] != ':') ==> first_colon(s) is None,
    decreases s.len(),
{
    if s.len() > 0 && (forall|i: int| 0 <= i < s.len() ==> #[trigger] s[i] != ':') {
        let short = s.drop_last();
        assert forall|i: int| 0 <= i < short.len() implies #[trigger] short[i] != ':' by {
            assert(s[i] != ':');
        }
        lemma_no_colon(short);
        assert(s[s.len() - 1] != ':');
    }
}

proof fn lemma_tokens_have_no_colon(key: KeyView)
    requires
        key.suite == Suite::Ed25519 || key.suite == Suite::EcdsaP256,
    ensures
        forall|i: int| 0 <= i < key.suite.token().len() ==> #[trigger] key.suite.token()[i] != ':',
{
    reveal_strlit("ed25519");
    reveal_strlit("ecdsa-p256");
}

/// A public key is read from the text that names its suite, a colon, and its
/// bytes in hexadecimal.
pub proof fn keys_read_back_from_text(key: KeyView)
    requires
        key_of_bytes(key.bytes) == Some(key),
    ensures
        key_in_text(key.suite.token() + seq![':'] + hex_text(key.bytes)) == Ok::<
            KeyView,
            Seq<char>,
        >(key),
{
    let t = key.suite.token();
    let h = hex_text(key.bytes);
    let s = t + seq![':'] + h;
    lemma_tokens_have_no_colon(key);
    assert forall|i: int| 0 <= i < t.len() implies #[trigger] s[i] != ':' by {
        assert(s[i] == t[i]);
    }
    assert(s[t.len() as int] == ':');
    lemma_first_colon(s, t.len() as int);
    assert(s.take(t.len() as int) =~= t);
    assert(s.skip(t.len() as int + 1) =~= h);
    suite_tokens_parse_back(key.suite);
    unhex_inverts_hex(key.bytes);
}

/// Keys of 32 bytes are Ed25519 keys, keys of 65 that start with the byte of an
/// uncompressed point P-256 keys, and nothing else is a key.
pub proof fn keys_are_told_by_their_length(b: Seq<u8>)
    ensures
        key_of_bytes(b) matches Some(k) ==> k.bytes == b && ((k.suite == Suite::Ed25519 && b.len()
            == 32) || (k.suite == Suite::EcdsaP256 && b.len() == 65 && b[0] == 4)),
        b.len() == 32 || (b.len() == 65 && b[0] == 4) ==> key_of_bytes(b) is Some,
{
}

/// A flag sets its own option and no other: a share is added to those given, any
/// other value takes the place of the one before.
pub proof fn flags_set_their_own_option(o: OptionsView, flag: Flag, raw: Seq<char>)
    ensures
        with_value(o, flag, raw) matches Ok(p) ==> {
            &&& p.threshold == (if flag is Threshold {
                number_in(raw)
            } else {
                o.threshold
            })
            &&& p.members == (if flag is Members {
                number_in(raw)
            } else {
                o.members
            })
            &&& p.seed == (if flag is Seed {
                Some(raw)
            } else {
                o.seed
            })
            &&& p.out == (if flag is Out {
                Some(raw)
            } else {
                o.out
            })
            &&& p.group == (if flag is Group {
                Some(raw)
            } else {
                o.group
            })
            &&& p.shares == (if flag is Share {
                o.shares.push(raw)
            } else {
                o.shares
            })
            &&& p.message == (if flag is Message {
                Some(raw)
            } else {
                o.message
            })
            &&& p.signature == (if flag is Signature {
                Some(raw)
            } else {
                o.signature
            })
        },
        with_value(o, flag, raw) is Err <==> (flag is Threshold || flag is Members) && number_in(
            raw,
        ) is None,
{
}

/// Arguments are read from left to right: what the first of them give is where
/// the others start from, and an error among the first is the error of all.
pub proof fn arguments_are_read_in_order(a: Seq<Seq<char>>, b: Seq<Seq<char>>, o: OptionsView)
    ensures
        parsed(a, o) matches Ok(p) ==> parsed(a + b, o) == parsed(b, p),
        a.len() % 2 == 0 && parsed(a, o) is Err ==> parsed(a + b, o) == parsed(a, o),
    decreases a.len(),
{
    if a.len() == 0 {
        assert(a + b =~= b);
    } else if a.len() >= 2 {
        assert((a + b)[0] == a[0]);
        assert((a + b)[1] == a[1]);
        assert((a + b).skip(2) =~= a.skip(2) + b);
        if let Some(flag) = crate::ceremony::flag_of(a[0]) {
            if let Ok(next) = with_value(o, flag, a[1]) {
                arguments_are_read_in_order(a.skip(2), b, next);
            }
        }
    } else {
        assert((a + b)[0] == a[0]);
    }
}

/// A set of shares qualifies for a group exactly when there are as many as the
/// threshold, no fewer and no more.
pub proof fn quorums_are_exact(group_text: Seq<char>, given: nat)
    ensures
        quorum_group(group_text, given) is Ok <==> (group_in(group_text) matches Ok(g) && given
            == g.threshold),
        quorum_group(group_text, given) matches Ok(g) ==> group_in(group_text) matches Ok(h) && h
            == g,
{
}

/// Whether a character is a hexadecimal digit in lower case of a value.
pub open spec fn is_hex(c: char, v: int) -> bool {
    (0 <= v <= 9 && c as int == '0' as int + v) || (10 <= v <= 15 && c as int == 'a' as int + v - 10)
}

/// Bytes in hexadecimal are two lower-case digits each, the high one first.
pub proof fn bytes_are_two_digits_each(b: Seq<u8>, i: int)
    requires
        0 <= i < b.len(),
    ensures
        hex_text(b).len() == 2 * b.len(),
        is_hex(hex_text(b)[2 * i], b[i] as int / 16),
        is_hex(hex_text(b)[2 * i + 1], b[i] as int % 16),
{
    let h = hex_text(b);
    assert((2 * i) / 2 == i && (2 * i) % 2 == 0);
    assert((2 * i + 1) / 2 == i && (2 * i + 1) % 2 == 1);
    assert(0 <= b[i] as int / 16 < 16);
}

/// A command asks for what its options give, and only if none that it needs is
/// missing: `init` a threshold, members and a directory, and a seed that is
/// hexadecimal if there is one; `verify-share` a group and a share, the first
/// one; `sign` a group, a message and at least one share; `verify` a group, a
/// signature and a message.
pub proof fn commands_need_their_options(o: OptionsView)
    ensures
        init_command(o) is Ok <==> o.threshold is Some && o.members is Some && o.out is Some && (
        o.seed matches Some(s) ==> unhex_text(s) is Some),
        init_command(o) matches Ok(c) ==> c == (CommandView::Init {
            threshold: o.threshold->0,
            members: o.members->0,
            directory: o.out->0,
            seed: if o.seed is Some {
                unhex_text(o.seed->0)
            } else {
                None
            },
        }),
        verify_share_command(o) is Ok <==> o.group is Some && o.shares.len() > 0,
        verify_share_command(o) matches Ok(c) ==> c == (CommandView::VerifyShare {
            group: o.group->0,
            share: o.shares[0],
        }),
        sign_command(o) is Ok <==> o.group is Some && o.message is Some && o.shares.len() > 0,
        sign_command(o) matches Ok(c) ==> c == (CommandView::Sign {
            group: o.group->0,
            shares: o.shares,
            message: o.message->0,
            out: o.out,
        }),
        verify_command(o) is Ok <==> o.group is Some && o.signature is Some && o.message is Some,
        verify_command(o) matches Ok(c) ==> c == (CommandView::Verify {
            group: o.group->0,
            signature: o.signature->0,
            message: o.message->0,
        }),
{
}

/// A share is reported to match exactly when both files can be read and the
/// share passes the group's check, and a signature exactly when it passes.
pub proof fn reports_follow_the_checks(
    group_text: Seq<char>,
    share_text: Seq<char>,
    signature_text: Seq<char>,
    message: Seq<u8>,
)
    ensures
        share_report(group_text, share_text) is Ok <==> (group_in(group_text) matches Ok(g) && (
        share_in(share_text) matches Ok(s) && share_check(g, s) == Ok::<bool, ErrorView>(true))),
        signature_report(group_text, signature_text, message) is Ok <==> (group_in(
            group_text,
        ) matches Ok(g) && (signature_in(signature_text) matches Ok(s) && signature_check(
            g,
            message,
            s,
        ) is Ok)),
{
}

proof fn lemma_left_margin(l: Seq<char>, s: Seq<char>)
    requires
        forall|i: int| 0 <= i < l.len() ==> is_space(#[trigger] l[i]),
        s.len() > 0,
        !is_space(s[0]),
    ensures
        trimmed_start(l + s) == s,
    decreases l.len(),
{
    if l.len() > 0 {
        assert((l + s)[0] == l[0]);
        assert((l + s).skip(1) =~= l.skip(1) + s);
        assert forall|i: int| 0 <= i < l.skip(1).len() implies is_space(#[trigger] l.skip(1)[i]) by {
            assert(is_space(l[i + 1]));
        }
        lemma_left_margin(l.skip(1), s);
    } else {
        assert(l + s =~= s);
    }
}

proof fn lemma_right_margin(s: Seq<char>, r: Seq<char>)
    requires
        forall|i: int| 0 <= i < r.len() ==> is_space(#[trigger] r[i]),
        s.len() > 0,
        !is_space(s.last()),
    ensures
        trimmed_end(s + r) == s,
    decreases r.len(),
{
    if r.len() > 0 {
        assert((s + r).last() == r[r.len() - 1]);
        assert((s + r).drop_last() =~= s + r.drop_last());
        lemma_right_margin(s, r.drop_last());
    } else {
        assert(s + r =~= s);
    }
}

/// White space on both sides of a text is dropped, and nothing else; capital
/// letters become small ones, and nothing else changes.
pub proof fn margins_and_capitals_are_dropped(l: Seq<char>, s: Seq<char>, r: Seq<char>, i: int)
    requires
        forall|i: int| 0 <= i < l.len() ==> is_space(#[trigger] l[i]),
        forall|i: int| 0 <= i < r.len() ==> is_space(#[trigger] r[i]),
        s.len() > 0,
        !is_space(s[0]),
        !is_space(s.last()),
        0 <= i < s.len(),
    ensures
        trimmed(l + s + r) == s,
        lowered(s).len() == s.len(),
        'A' <= s[i] <= 'Z' ==> lowered(s)[i] as int == s[i] as int + 32,
        !('A' <= s[i] <= 'Z') ==> lowered(s)[i] == s[i],
{
    assert(l + s + r =~= l + (s + r));
    assert((s + r)[0] == s[0]);
    lemma_left_margin(l, s + r);
    lemma_right_margin(s, r);
}

proof fn lemma_joined_separators(a: Seq<char>, b: Seq<char>)
    ensures
        without_separators(a + b) == without_separators(a) + without_separators(b),
    decreases b.len(),
{
    if b.len() > 0 {
        assert((a + b).last() == b.last());
        assert((a + b).drop_last() =~= a + b.drop_last());
        lemma_joined_separators(a, b.drop_last());
        assert(without_separators(a + b) =~= without_separators(a) + without_separators(b));
    } else {
        assert(a + b =~= a);
        assert(without_separators(a) + without_separators(b) =~= without_separators(a));
    }
}

/// A hyphen or an underscore within a text does not change which suite it names.
pub proof fn suites_are_named_whatever_the_separators(a: Seq<char>, b: Seq<char>, c: char)
    requires
        a.len() > 0,
        !is_space(a[0]),
        b.len() > 0,
        !is_space(b.last()),
        c == '-' || c == '_',
    ensures
        suite_of_token(a + seq![c] + b) == suite_of_token(a + b),
{
    let with = a + seq![c] + b;
    let plain = a + b;
    assert(with[0] == a[0] && with.last() == b.last());
    assert(plain[0] == a[0] && plain.last() == b.last());
    let none = Seq::<char>::empty();
    margins_and_capitals_are_dropped(none, with, none, 0);
    margins_and_capitals_are_dropped(none, plain, none, 0);
    assert(none + with + none =~= with);
    assert(none + plain + none =~= plain);
    assert(lowered(with) =~= lowered(a) + seq![c] + lowered(b));
    assert(lowered(plain) =~= lowered(a) + lowered(b));
    lemma_joined_separators(lowered(a) + seq![c], lowered(b));
    lemma_joined_separators(lowered(a), seq![c]);
    lemma_joined_separators(lowered(a), lowered(b));
    let mark = seq![c];
    assert(mark.last() == c);
    assert(mark.drop_last() =~= none);
    assert(without_separators(none) == none);
    assert(without_separators(mark) == none);
    assert(without_separators(lowered(a)) + none =~= without_separators(lowered(a)));
}

/// The part of a text after its last slash ends the text, holds no slash, and
/// begins behind a slash or at the start.
pub proof fn names_follow_the_last_slash(s: Seq<char>)
    ensures
        after_slash(s).len() <= s.len(),
        s.skip(s.len() - after_slash(s).len()) == after_slash(s),
        forall|i: int| 0 <= i < after_slash(s).len() ==> #[trigger] after_slash(s)[i] != '/',
        after_slash(s).len() < s.len() ==> s[s.len() - after_slash(s).len() - 1] == '/',
    decreases s.len(),
{
    if s.len() > 0 && s.last() != '/' {
        let short = s.drop_last();
        names_follow_the_last_slash(short);
        let t = after_slash(s);
        assert forall|i: int| 0 <= i < t.len() implies #[trigger] t[i] != '/' by {
            if i < t.len() - 1 {
                assert(t[i] == after_slash(short)[i]);
            }
        }
        assert forall|i: int| 0 <= i < t.len() implies s.skip(s.len() - t.len())[i] == t[i] by {
            if i < t.len() - 1 {
                assert(short.skip(short.len() - after_slash(short).len())[i] == after_slash(
                    short,
                )[i]);
            }
        }
        assert(s.skip(s.len() - t.len()) =~= t);
    }
}

/// Whether one text comes before another: where they first differ it ends, or
/// has the smaller character.
pub open spec fn comes_before(a: Seq<char>, b: Seq<char>) -> bool {
    exists|k: int|
        0 <= k <= a.len() && k < b.len() && #[trigger] a.take(k) == b.take(k) && (k == a.len() || (
        a[k] as int) < (b[k] as int))
}

/// Texts are ordered by where they first differ.
pub proof fn texts_are_ordered_by_the_first_difference(a: Seq<char>, b: Seq<char>)
    ensures
        text_lt(a, b) <==> comes_before(a, b),
    decreases a.len(),
{
    if b.len() > 0 {
        if a.len() == 0 || (a[0] as int) < (b[0] as int) {
            assert(a.take(0) =~= b.take(0));
        } else {
            let (p, q) = (a.skip(1), b.skip(1));
            if a[0] == b[0] {
                texts_are_ordered_by_the_first_difference(p, q);
                if comes_before(p, q) {
                    let k = choose|k: int|
                        0 <= k <= p.len() && k < q.len() && #[trigger] p.take(k) == q.take(k) && (k
                            == p.len() || (p[k] as int) < (q[k] as int));
                    assert forall|i: int| 0 <= i < k + 1 implies a[i] == b[i] by {
                        if i > 0 {
                            assert(p.take(k)[i - 1] == q.take(k)[i - 1]);
                        }
                    }
                    assert(a.take(k + 1) =~= b.take(k + 1));
                }
            }
            if comes_before(a, b) {
                let k = choose|k: int|
                    0 <= k <= a.len() && k < b.len() && #[trigger] a.take(k) == b.take(k) && (k
                        == a.len() || (a[k] as int) < (b[k] as int));
                assert(k > 0);
                assert(a.take(k)[0] == b.take(k)[0]);
                assert forall|i: int| 0 <= i < k - 1 implies p[i] == q[i] by {
                    assert(a.take(k)[i + 1] == b.take(k)[i + 1]);
                }
                assert(p.take(k - 1) =~= q.take(k - 1));
            }
        }
    }
}

} // verus!
