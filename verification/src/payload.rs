use vstd::prelude::*;
use vstd::utf8::{decode_utf8, encode_utf8, is_ascii_chars, valid_utf8};
use crate::codec::{
    base64_decode, base64_decoding, base64_encode, base64_encoding, bytes_text, is_utf8,
    lemma_decoding_encoding, lemma_encoding_shape, text_bytes,
};

verus! {

/// Alpha value of a fully opaque pixel, which carries no hidden byte.
pub const OPAQUE: u8 = 0xff;

/// The alpha bytes that are not fully opaque, in order.
pub open spec fn translucent(alpha: Seq<u8>) -> Seq<u8>
    decreases alpha.len(),
{
    if alpha.len() == 0 {
        Seq::empty()
    } else if alpha.last() != OPAQUE {
        translucent(alpha.drop_last()).push(alpha.last())
    } else {
        translucent(alpha.drop_last())
    }
}

/// `n` fully opaque alpha bytes.
pub open spec fn opaque(n: nat) -> Seq<u8> {
    Seq::new(n, |i: int| OPAQUE)
}

/// The alpha bytes that hide `data`: the ASCII text of its base64 encoding.
pub open spec fn embedding_of(data: Seq<u8>) -> Seq<u8> {
    encode_utf8(base64_encoding(data))
}

/// The payload hidden in an alpha channel whose translucent bytes are UTF-8
/// text: the base64 decoding of that text, or nothing when it is no base64.
pub open spec fn payload_of(alpha: Seq<u8>) -> Seq<u8> {
    match base64_decoding(decode_utf8(translucent(alpha))) {
        Some(data) => data,
        None => Seq::empty(),
    }
}

pub proof fn lemma_translucent_concat(a: Seq<u8>, b: Seq<u8>)
    ensures
        translucent(a + b) == translucent(a) + translucent(b),
    decreases b.len(),
{
    if b.len() == 0 {
        assert(a + b =~= a);
        assert(translucent(a) + translucent(b) =~= translucent(a));
    } else {
        lemma_translucent_concat(a, b.drop_last());
        assert((a + b).drop_last() =~= a + b.drop_last());
        assert((a + b).last() == b.last());
        if b.last() != OPAQUE {
            assert(translucent(a + b) =~= translucent(a) + translucent(b));
        } else {
            assert(translucent(a + b) =~= translucent(a) + translucent(b));
        }
    }
}

pub proof fn lemma_translucent_keeps_ascii(s: Seq<u8>)
    requires
        forall|i: int| 0 <= i < s.len() ==> s[i] < 128,
    ensures
        translucent(s) == s,
    decreases s.len(),
{
    if s.len() > 0 {
        lemma_translucent_keeps_ascii(s.drop_last());
        assert(translucent(s) =~= s);
    }
}

pub proof fn lemma_translucent_opaque(n: nat)
    ensures
        translucent(opaque(n)) == Seq::<u8>::empty(),
    decreases n,
{
    if n > 0 {
        assert(opaque(n).drop_last() =~= opaque((n - 1) as nat));
        lemma_translucent_opaque((n - 1) as nat);
    }
}

/// The alpha bytes of `alpha` that are not fully opaque.
pub fn drop_opaque(alpha: &[u8]) -> (kept: Vec<u8>)
    ensures
        kept@ == translucent(alpha@),
{
    let mut kept: Vec<u8> = Vec::new();
    let mut i: usize = 0;
    while i < alpha.len()
        invariant
            i <= alpha@.len(),
            kept@ == translucent(alpha@.take(i as int)),
        decreases alpha@.len() - i,
    {
        assert(alpha@.take(i + 1).drop_last() =~= alpha@.take(i as int));
        if alpha[i] != OPAQUE {
            kept.push(alpha[i]);
        }
        i = i + 1;
    }
    assert(alpha@.take(i as int) =~= alpha@);
    kept
}

/// Whether the translucent alpha bytes form UTF-8 text, which reading a
/// hidden payload needs.
pub fn hidden_text_is_utf8(alpha: &[u8]) -> (b: bool)
    ensures
        b == valid_utf8(translucent(alpha@)),
{
    let kept = drop_opaque(alpha);
    is_utf8(kept.as_slice())
}

/// Reads the payload hidden in a carrier's alpha channel: drops the opaque
/// bytes, reads the rest as text and decodes it from base64; text that is not
/// base64 gives an empty payload.
pub fn recover_payload(alpha: &[u8]) -> (payload: Vec<u8>)
    requires
        valid_utf8(translucent(alpha@)),
    ensures
        payload@ == payload_of(alpha@),
{
    let kept = drop_opaque(alpha);
    let text = bytes_text(kept.as_slice());
    match base64_decode(text) {
        Ok(bytes) => bytes,
        Err(_) => Vec::new(),
    }
}

/// The alpha bytes that hide `data` in a carrier: the ASCII text of its base64
/// encoding. Written over the first alpha bytes of a carrier whose remaining
/// alpha bytes are opaque, they give `data` back to `recover_payload`.
pub fn hide_payload(data: &[u8]) -> (embedded: Vec<u8>)
    ensures
        embedded@ == embedding_of(data@),
        forall|n: nat|
            valid_utf8(translucent(#[trigger] (embedded@ + opaque(n)))) && payload_of(
                embedded@ + opaque(n),
            ) == data@,
{
    let text = base64_encode(data);
    let bytes = text_bytes(&text);
    let mut embedded: Vec<u8> = Vec::new();
    let mut i: usize = 0;
    while i < bytes.len()
        invariant
            i <= bytes@.len(),
            embedded@ == bytes@.take(i as int),
        decreases bytes@.len() - i,
    {
        embedded.push(bytes[i]);
        i = i + 1;
        assert(embedded@ =~= bytes@.take(i as int));
    }
    assert(bytes@.take(i as int) =~= bytes@);
    proof {
        let t = text@;
        lemma_encoding_shape(data@);
        lemma_decoding_encoding(data@);
        vstd::utf8::is_ascii_chars_encode_utf8(t);
        vstd::utf8::is_ascii_chars_nat_bound(t);
        assert forall|j: int| 0 <= j < embedded@.len() implies embedded@[j] < 128 by {
            assert(t[j] as u8 == encode_utf8(t)[j]);
            assert((t[j] as nat) < 128);
        }
        lemma_translucent_keeps_ascii(embedded@);
        assert forall|n: nat|
            valid_utf8(translucent(#[trigger] (embedded@ + opaque(n)))) && payload_of(
                embedded@ + opaque(n),
            ) == data@ by {
            lemma_translucent_concat(embedded@, opaque(n));
            lemma_translucent_opaque(n);
            assert(translucent(embedded@ + opaque(n)) =~= embedded@);
            vstd::utf8::encode_utf8_valid_utf8(t);
            vstd::utf8::encode_utf8_decode_utf8(t);
        }
    }
    embedded
}

/// Takes one view of a picture whose payload starts with its view counter:
/// when views remain, the counter goes down by one and the view is granted;
/// otherwise nothing changes.
pub fn consume_view(payload: &mut Vec<u8>) -> (granted: bool)
    requires
        old(payload)@.len() >= 1,
    ensures
        granted == (old(payload)@[0] > 0),
        granted ==> final(payload)@ == old(payload)@.update(0, (old(payload)@[0] - 1) as u8),
        !granted ==> final(payload)@ == old(payload)@,
{
    if payload[0] > 0 {
        let remaining = payload[0] - 1;
        payload.set(0, remaining);
        true
    } else {
        false
    }
}

/// Adds `extra` views to the counter at the start of a payload.
pub fn grant_views(payload: &mut Vec<u8>, extra: u8)
    requires
        old(payload)@.len() >= 1,
        old(payload)@[0] + extra <= u8::MAX,
    ensures
        final(payload)@ == old(payload)@.update(0, (old(payload)@[0] + extra) as u8),
{
    let total = payload[0] + extra;
    payload.set(0, total);
}

} // verus!
