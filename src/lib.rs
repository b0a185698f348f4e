use vstd::prelude::*;

mod ops;
pub mod util;

pub use ops::Acorn128;
use ops::{
    clock_bits,
    lemma_byte_round_trip,
    lemma_clock_bits_register,
    lemma_init_register,
    ct_stream,
    dec_state,
    init_state,
    is_register,
    pack,
    pt_stream,
    tag_of_register,
};

verus! {

/// Control mask with every bit set: the gated feedback term takes part.
pub const MASK_ON: u8 = 0xff;

/// Control mask with every bit clear: the gated feedback term is left out.
pub const MASK_OFF: u8 = 0x00;

/// Bytes of padding after the associated data and after the message.
pub const PAD_BYTES: usize = 8;

/// Leading padding bytes during which the `ca` feedback term stays on.
pub const PAD_CA_BYTES: usize = 4;

/// Why decryption returned no plaintext.
#[derive(Debug, Clone, Copy, PartialEq, Eq, Structural)]
pub enum DecryptFail {
    /// The supplied tag is not 16 bytes long; nothing was clocked.
    TagLengthError,
    /// The recomputed tag differs from the supplied one.
    AuthenticationFail,
}

/// Input byte `i` of a padding run: 1 first, then zeros.
pub open spec fn pad_input(i: nat) -> u8 {
    if i == 0 {
        1
    } else {
        0
    }
}

/// `ca` mask of padding byte `i`.
pub open spec fn pad_ca(i: nat) -> u8 {
    if i < PAD_CA_BYTES {
        MASK_ON
    } else {
        MASK_OFF
    }
}

/// Register after encrypt-clocking every byte of `bytes` under the masks `ca`, `cb`.
pub open spec fn absorb(s: Seq<u8>, bytes: Seq<u8>, ca: u8, cb: u8) -> Seq<u8>
    decreases bytes.len(),
{
    if bytes.len() == 0 {
        s
    } else {
        clock_bits(absorb(s, bytes.drop_last(), ca, cb), bytes.last(), ca, cb, 8)
    }
}

/// Register after the first `n` padding bytes, with `cb` fixed.
pub open spec fn pad(s: Seq<u8>, cb: u8, n: nat) -> Seq<u8>
    decreases n,
{
    if n == 0 {
        s
    } else {
        let i = (n - 1) as nat;
        clock_bits(pad(s, cb, i), pad_input(i), pad_ca(i), cb, 8)
    }
}

/// Ciphertext of `m` from the register `s` in the message phase.
pub open spec fn encrypt_bytes(s: Seq<u8>, m: Seq<u8>) -> Seq<u8>
    decreases m.len(),
{
    if m.len() == 0 {
        Seq::empty()
    } else {
        let pre = m.drop_last();
        encrypt_bytes(s, pre).push(
            pack(ct_stream(absorb(s, pre, MASK_ON, MASK_OFF), m.last(), MASK_ON, MASK_OFF), 8),
        )
    }
}

/// Register after decrypt-clocking every byte of `c` in the message phase.
pub open spec fn dec_absorb(s: Seq<u8>, c: Seq<u8>) -> Seq<u8>
    decreases c.len(),
{
    if c.len() == 0 {
        s
    } else {
        dec_state(dec_absorb(s, c.drop_last()), c.last(), MASK_ON, MASK_OFF, 8)
    }
}

/// Plaintext recovered from `c` by the register `s` in the message phase.
pub open spec fn decrypt_bytes(s: Seq<u8>, c: Seq<u8>) -> Seq<u8>
    decreases c.len(),
{
    if c.len() == 0 {
        Seq::empty()
    } else {
        let pre = c.drop_last();
        decrypt_bytes(s, pre).push(
            pack(pt_stream(dec_absorb(s, pre), c.last(), MASK_ON, MASK_OFF), 8),
        )
    }
}

/// Register after initialization, the associated data, and the padding that follows it.
pub open spec fn after_aad(key: Seq<u8>, iv: Seq<u8>, aad: Seq<u8>) -> Seq<u8> {
    pad(absorb(init_state(key, iv), aad, MASK_ON, MASK_ON), MASK_ON, PAD_BYTES as nat)
}

/// Ciphertext that encryption produces.
pub open spec fn ciphertext_of(key: Seq<u8>, iv: Seq<u8>, message: Seq<u8>, aad: Seq<u8>) -> Seq<
    u8,
> {
    encrypt_bytes(after_aad(key, iv, aad), message)
}

/// Tag that encryption produces.
pub open spec fn tag_of(key: Seq<u8>, iv: Seq<u8>, message: Seq<u8>, aad: Seq<u8>) -> Seq<u8> {
    tag_of_register(
        pad(absorb(after_aad(key, iv, aad), message, MASK_ON, MASK_OFF), MASK_OFF, PAD_BYTES as nat),
    )
}

/// Candidate plaintext that decryption recovers from `ciphertext`.
pub open spec fn plaintext_of(key: Seq<u8>, iv: Seq<u8>, ciphertext: Seq<u8>, aad: Seq<u8>) -> Seq<
    u8,
> {
    decrypt_bytes(after_aad(key, iv, aad), ciphertext)
}

/// Tag that decryption recomputes for `ciphertext`.
pub open spec fn expected_tag(key: Seq<u8>, iv: Seq<u8>, ciphertext: Seq<u8>, aad: Seq<u8>) -> Seq<
    u8,
> {
    tag_of_register(
        pad(dec_absorb(after_aad(key, iv, aad), ciphertext), MASK_OFF, PAD_BYTES as nat),
    )
}

/// Outcome of decryption: the tag length is checked first, then the recomputed tag.
pub open spec fn decrypt_outcome(
    key: Seq<u8>,
    iv: Seq<u8>,
    ciphertext: Seq<u8>,
    aad: Seq<u8>,
    tag: Seq<u8>,
) -> Result<Seq<u8>, DecryptFail> {
    if tag.len() != 16 {
        Err(DecryptFail::TagLengthError)
    } else if tag == expected_tag(key, iv, ciphertext, aad) {
        Ok(plaintext_of(key, iv, ciphertext, aad))
    } else {
        Err(DecryptFail::AuthenticationFail)
    }
}


/// Encrypt-clocks every byte of `bytes` under the masks `ca`, `cb`, discarding the output.
fn absorb_bytes(acorn: &mut Acorn128, bytes: &[u8], ca: u8, cb: u8)
    requires
        old(acorn).wf(),
    ensures
        final(acorn).wf(),
        final(acorn)@ == absorb(old(acorn)@, bytes@, ca, cb),
{
    let ghost s0 = acorn@;
    let mut i: usize = 0;
    while i < bytes.len()
        invariant
            i <= bytes@.len(),
            acorn.wf(),
            acorn@ == absorb(s0, bytes@.take(i as int), ca, cb),
        decreases bytes@.len() - i,
    {
        assert(bytes@.take(i + 1).drop_last() =~= bytes@.take(i as int));
        acorn.enc_onebyte(bytes[i], ca, cb);
        i = i + 1;
    }
    assert(bytes@.take(i as int) =~= bytes@);
}

/// Clocks the padding that closes a phase: input 1 then zeros, `ca` on for the leading bytes.
fn pad_session(acorn: &mut Acorn128, cb: u8)
    requires
        old(acorn).wf(),
    ensures
        final(acorn).wf(),
        final(acorn)@ == pad(old(acorn)@, cb, PAD_BYTES as nat),
{
    let ghost s0 = acorn@;
    let mut i: usize = 0;
    while i < PAD_BYTES
        invariant
            i <= PAD_BYTES,
            acorn.wf(),
            acorn@ == pad(s0, cb, i as nat),
        decreases PAD_BYTES - i,
    {
        acorn.enc_onebyte(
            if i == 0 {
                1
            } else {
                0
            },
            if i < PAD_CA_BYTES {
                MASK_ON
            } else {
                MASK_OFF
            },
            cb,
        );
        i = i + 1;
    }
}

/// Initializes a session and absorbs the associated data and its padding.
fn start_session(key: &[u8], iv: &[u8], aad: &[u8]) -> (r: Acorn128)
    requires
        key@.len() == 16,
        iv@.len() == 16,
    ensures
        r.wf(),
        r@ == after_aad(key@, iv@, aad@),
{
    let mut acorn = Acorn128::init(key, iv);
    absorb_bytes(&mut acorn, aad, MASK_ON, MASK_ON);
    pad_session(&mut acorn, MASK_ON);
    acorn
}

/// Encrypts `message` under `key` and `iv`, authenticating it together with `aad`; returns
/// the ciphertext and the 16-byte tag.
pub fn aead_encrypt(key: &[u8], iv: &[u8], message: &[u8], aad: &[u8]) -> (r: (Vec<u8>, [u8; 16]))
    requires
        key@.len() == 16,
        iv@.len() == 16,
    ensures
        r.0@ == ciphertext_of(key@, iv@, message@, aad@),
        r.0@.len() == message@.len(),
        r.1@ == tag_of(key@, iv@, message@, aad@),
{
    let mut output: Vec<u8> = Vec::with_capacity(message.len());
    let mut acorn = start_session(key, iv, aad);
    let ghost s0 = acorn@;
    let mut i: usize = 0;
    while i < message.len()
        invariant
            i <= message@.len(),
            acorn.wf(),
            acorn@ == absorb(s0, message@.take(i as int), MASK_ON, MASK_OFF),
            output@ == encrypt_bytes(s0, message@.take(i as int)),
        decreases message@.len() - i,
    {
        assert(message@.take(i + 1).drop_last() =~= message@.take(i as int));
        let (b, _) = acorn.enc_onebyte(message[i], MASK_ON, MASK_OFF);
        output.push(b);
        i = i + 1;
    }
    assert(message@.take(i as int) =~= message@);
    proof {
        lemma_encrypt_bytes_len(s0, message@);
    }
    pad_session(&mut acorn, MASK_OFF);
    (output, acorn.tag_generation())
}

/// Decrypts `ciphertext` and checks `tag` against the one recomputed from the associated data
/// and the recovered plaintext. The plaintext is returned only when the tags match.
pub fn aead_decrypt(key: &[u8], iv: &[u8], ciphertext: &[u8], aad: &[u8], tag: &[u8]) -> (r:
    Result<Vec<u8>, DecryptFail>)
    requires
        key@.len() == 16,
        iv@.len() == 16,
    ensures
        (match r {
            Ok(p) => decrypt_outcome(key@, iv@, ciphertext@, aad@, tag@) == Ok::<
                Seq<u8>,
                DecryptFail,
            >(p@),
            Err(e) => decrypt_outcome(key@, iv@, ciphertext@, aad@, tag@) == Err::<
                Seq<u8>,
                DecryptFail,
            >(e),
        }),
{
    if tag.len() != 16 {
        return Err(DecryptFail::TagLengthError);
    }
    let mut output: Vec<u8> = Vec::with_capacity(ciphertext.len());
    let mut acorn = start_session(key, iv, aad);
    let ghost s0 = acorn@;
    let mut i: usize = 0;
    while i < ciphertext.len()
        invariant
            i <= ciphertext@.len(),
            acorn.wf(),
            acorn@ == dec_absorb(s0, ciphertext@.take(i as int)),
            output@ == decrypt_bytes(s0, ciphertext@.take(i as int)),
        decreases ciphertext@.len() - i,
    {
        assert(ciphertext@.take(i + 1).drop_last() =~= ciphertext@.take(i as int));
        let b = acorn.dec_onebyte(ciphertext[i], MASK_ON, MASK_OFF);
        output.push(b);
        i = i + 1;
    }
    assert(ciphertext@.take(i as int) =~= ciphertext@);
    pad_session(&mut acorn, MASK_OFF);
    let expected = acorn.tag_generation();
    if util::eq(expected.as_slice(), tag) {
        Ok(output)
    } else {
        Err(DecryptFail::AuthenticationFail)
    }
}

proof fn lemma_encrypt_bytes_len(s: Seq<u8>, m: Seq<u8>)
    ensures
        encrypt_bytes(s, m).len() == m.len(),
    decreases m.len(),
{
    if m.len() > 0 {
        lemma_encrypt_bytes_len(s, m.drop_last());
    }
}


proof fn lemma_absorb_register(s: Seq<u8>, bytes: Seq<u8>, ca: u8, cb: u8)
    requires
        is_register(s),
    ensures
        is_register(absorb(s, bytes, ca, cb)),
    decreases bytes.len(),
{
    if bytes.len() > 0 {
        lemma_absorb_register(s, bytes.drop_last(), ca, cb);
        lemma_clock_bits_register(absorb(s, bytes.drop_last(), ca, cb), bytes.last(), ca, cb, 8);
    }
}

proof fn lemma_pad_register(s: Seq<u8>, cb: u8, n: nat)
    requires
        is_register(s),
    ensures
        is_register(pad(s, cb, n)),
    decreases n,
{
    if n > 0 {
        let i = (n - 1) as nat;
        lemma_pad_register(s, cb, i);
        lemma_clock_bits_register(pad(s, cb, i), pad_input(i), pad_ca(i), cb, 8);
    }
}

/// Decrypting the ciphertext of `m` from the same register recovers `m` and leaves the
/// register as encrypting `m` left it.
proof fn lemma_message_round_trip(s: Seq<u8>, m: Seq<u8>)
    requires
        is_register(s),
    ensures
        dec_absorb(s, encrypt_bytes(s, m)) == absorb(s, m, MASK_ON, MASK_OFF),
        decrypt_bytes(s, encrypt_bytes(s, m)) == m,
    decreases m.len(),
{
    if m.len() > 0 {
        let pre = m.drop_last();
        let c = encrypt_bytes(s, m);
        lemma_message_round_trip(s, pre);
        assert(c.drop_last() =~= encrypt_bytes(s, pre));
        lemma_absorb_register(s, pre, MASK_ON, MASK_OFF);
        lemma_byte_round_trip(absorb(s, pre, MASK_ON, MASK_OFF), m.last(), MASK_ON, MASK_OFF);
        assert(decrypt_bytes(s, c) =~= m);
    }
}

/// Round trip: decrypting what encryption produced, under the same key, IV and associated
/// data, with the tag it produced, succeeds and returns the message. Associated data and
/// message may have any length, zero included.
pub proof fn lemma_round_trip(key: Seq<u8>, iv: Seq<u8>, message: Seq<u8>, aad: Seq<u8>)
    requires
        key.len() == 16,
        iv.len() == 16,
    ensures
        tag_of(key, iv, message, aad).len() == 16,
        decrypt_outcome(
            key,
            iv,
            ciphertext_of(key, iv, message, aad),
            aad,
            tag_of(key, iv, message, aad),
        ) == Ok::<Seq<u8>, DecryptFail>(message),
{
    let s = after_aad(key, iv, aad);
    lemma_init_register(key, iv, 1536);
    lemma_absorb_register(init_state(key, iv), aad, MASK_ON, MASK_ON);
    lemma_pad_register(absorb(init_state(key, iv), aad, MASK_ON, MASK_ON), MASK_ON, PAD_BYTES as nat);
    lemma_message_round_trip(s, message);
}

/// A tag of the right length that differs from the one encryption produced is refused with
/// an authentication failure, whatever bits of it were changed.
pub proof fn lemma_tampered_tag_refused(
    key: Seq<u8>,
    iv: Seq<u8>,
    message: Seq<u8>,
    aad: Seq<u8>,
    tag: Seq<u8>,
)
    requires
        key.len() == 16,
        iv.len() == 16,
        tag.len() == 16,
        tag != tag_of(key, iv, message, aad),
    ensures
        decrypt_outcome(key, iv, ciphertext_of(key, iv, message, aad), aad, tag) == Err::<
            Seq<u8>,
            DecryptFail,
        >(DecryptFail::AuthenticationFail),
{
    lemma_round_trip(key, iv, message, aad);
}

/// A tag whose length is not 16 is refused with a tag length error, whatever the other
/// inputs are.
pub proof fn lemma_tag_length_gate(
    key: Seq<u8>,
    iv: Seq<u8>,
    ciphertext: Seq<u8>,
    aad: Seq<u8>,
    tag: Seq<u8>,
)
    requires
        tag.len() != 16,
    ensures
        decrypt_outcome(key, iv, ciphertext, aad, tag) == Err::<Seq<u8>, DecryptFail>(
            DecryptFail::TagLengthError,
        ),
{
}

} // verus!
