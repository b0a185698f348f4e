use vstd::prelude::*;

verus! {

/// Majority of three bits.
pub open spec fn spec_maj(x: u8, y: u8, z: u8) -> u8 {
    (x & y) ^ (x & z) ^ (y & z)
}

/// Chooses `y` where `x` is set and `z` where it is clear.
pub open spec fn spec_ch(x: u8, y: u8, z: u8) -> u8 {
    (x & y) ^ ((x ^ 1) & z)
}

/// Every cell holds 0 or 1.
pub open spec fn is_bits(s: Seq<u8>) -> bool {
    forall|i: int| 0 <= i < s.len() ==> #[trigger] s[i] <= 1
}

/// A well-formed register: 293 cells, each a single bit.
pub open spec fn is_register(s: Seq<u8>) -> bool {
    s.len() == 293 && is_bits(s)
}

/// Keystream bit read off a register.
pub open spec fn spec_ksg(s: Seq<u8>) -> u8 {
    s[12] ^ s[154] ^ spec_maj(s[235], s[61], s[193])
}

/// Feedback bit of a register under the control bits `ca`, `cb`.
pub open spec fn spec_fbk(s: Seq<u8>, ca: u8, cb: u8) -> u8 {
    s[0] ^ (s[107] ^ 1) ^ spec_maj(s[244], s[23], s[160]) ^ spec_ch(s[230], s[111], s[66]) ^ (ca
        & s[196]) ^ (cb & spec_ksg(s))
}

/// The six in-place linear updates that open every clock, in order.
pub open spec fn diffuse(s: Seq<u8>) -> Seq<u8> {
    let s1 = s.update(289, s[289] ^ (s[235] ^ s[230]));
    let s2 = s1.update(230, s1[230] ^ (s1[196] ^ s1[193]));
    let s3 = s2.update(193, s2[193] ^ (s2[160] ^ s2[154]));
    let s4 = s3.update(154, s3[154] ^ (s3[111] ^ s3[107]));
    let s5 = s4.update(107, s4[107] ^ (s4[66] ^ s4[61]));
    s5.update(61, s5[61] ^ (s5[23] ^ s5[0]))
}

/// The keystream bit that a clock of `s` emits.
pub open spec fn keystream_bit(s: Seq<u8>) -> u8 {
    spec_ksg(diffuse(s))
}

/// One clock: diffuse, shift towards index 0, and inject `input` masked by the feedback.
pub open spec fn clock(s: Seq<u8>, input: u8, ca: u8, cb: u8) -> Seq<u8> {
    let d = diffuse(s);
    d.subrange(1, 293).push(spec_fbk(d, ca, cb) ^ input)
}

/// Bit `i` (least significant first) of a byte.
pub open spec fn bit_of(b: u8, i: nat) -> u8 {
    (b >> (i as u8)) & 1
}

/// The byte whose bit `k` is `f(k)` for `k < n` (each `f(k)` a single bit).
pub open spec fn pack(f: spec_fn(nat) -> u8, n: nat) -> u8
    decreases n,
{
    if n == 0 {
        0
    } else {
        pack(f, (n - 1) as nat) | (f((n - 1) as nat) << ((n - 1) as u8))
    }
}

/// Register after `n` encrypt-clocks that inject the low `n` bits of `p`.
pub open spec fn clock_bits(s: Seq<u8>, p: u8, ca: u8, cb: u8, n: nat) -> Seq<u8>
    decreases n,
{
    if n == 0 {
        s
    } else {
        let k = (n - 1) as nat;
        clock(clock_bits(s, p, ca, cb, k), bit_of(p, k), bit_of(ca, k), bit_of(cb, k))
    }
}

/// Keystream bits emitted while encrypting the byte `p`.
pub open spec fn ks_stream(s: Seq<u8>, p: u8, ca: u8, cb: u8) -> spec_fn(nat) -> u8 {
    |k: nat| keystream_bit(clock_bits(s, p, ca, cb, k))
}

/// Ciphertext bits emitted while encrypting the byte `p`.
pub open spec fn ct_stream(s: Seq<u8>, p: u8, ca: u8, cb: u8) -> spec_fn(nat) -> u8 {
    |k: nat| keystream_bit(clock_bits(s, p, ca, cb, k)) ^ bit_of(p, k)
}

/// Register after `n` decrypt-clocks on the ciphertext byte `c`.
pub open spec fn dec_state(s: Seq<u8>, c: u8, ca: u8, cb: u8, n: nat) -> Seq<u8>
    decreases n,
{
    if n == 0 {
        s
    } else {
        let k = (n - 1) as nat;
        let prev = dec_state(s, c, ca, cb, k);
        clock(prev, keystream_bit(prev) ^ bit_of(c, k), bit_of(ca, k), bit_of(cb, k))
    }
}

/// Plaintext bits recovered while decrypting the byte `c`.
pub open spec fn pt_stream(s: Seq<u8>, c: u8, ca: u8, cb: u8) -> spec_fn(nat) -> u8 {
    |k: nat| keystream_bit(dec_state(s, c, ca, cb, k)) ^ bit_of(c, k)
}

fn maj(x: u8, y: u8, z: u8) -> (r: u8)
    ensures
        r == spec_maj(x, y, z),
{
    (x & y) ^ (x & z) ^ (y & z)
}

fn ch(x: u8, y: u8, z: u8) -> (r: u8)
    ensures
        r == spec_ch(x, y, z),
{
    (x & y) ^ ((x ^ 1) & z)
}

fn ksg128(state: &[u8; 293]) -> (r: u8)
    ensures
        r == spec_ksg(state@),
{
    state[12] ^ state[154] ^ maj(state[235], state[61], state[193])
}

/// Returns (feedback bit, keystream bit).
fn fbk128(state: &[u8; 293], ca: u8, cb: u8) -> (r: (u8, u8))
    ensures
        r == (spec_fbk(state@, ca, cb), spec_ksg(state@)),
{
    let ks = ksg128(state);
    (state[0] ^ (state[107] ^ 1) ^ maj(state[244], state[23], state[160]) ^ ch(
        state[230],
        state[111],
        state[66],
    ) ^ (ca & state[196]) ^ (cb & ks), ks)
}

/// Diffuses, then shifts the register and injects `f ^ input`; returns (f, keystream bit).
fn clock_in_place(state: &mut [u8; 293], ca: u8, cb: u8) -> (r: (u8, u8))
    ensures
        r == (spec_fbk(diffuse(old(state)@), ca, cb), keystream_bit(old(state)@)),
        final(state)@.len() == 293,
        forall|k: int| 0 <= k < 292 ==> #[trigger] final(state)@[k] == diffuse(old(state)@)[k + 1],
{
    state[289] = state[289] ^ (state[235] ^ state[230]);
    state[230] = state[230] ^ (state[196] ^ state[193]);
    state[193] = state[193] ^ (state[160] ^ state[154]);
    state[154] = state[154] ^ (state[111] ^ state[107]);
    state[107] = state[107] ^ (state[66] ^ state[61]);
    state[61] = state[61] ^ (state[23] ^ state[0]);
    let ghost d = state@;
    assert(d =~= diffuse(old(state)@));
    let (f, ks) = fbk128(state, ca, cb);
    let mut j: usize = 0;
    while j < 292
        invariant
            j <= 292,
            state@.len() == 293,
            forall|k: int| 0 <= k < j ==> #[trigger] state@[k] == d[k + 1],
            forall|k: int| j <= k < 293 ==> #[trigger] state@[k] == d[k],
        decreases 292 - j,
    {
        state[j] = state[j + 1];
        j = j + 1;
    }
    (f, ks)
}

/// returns (ciphertextbit, ks)
fn encrypt_state_update_128(state: &mut [u8; 293], plaintextbit: u8, ca: u8, cb: u8) -> (r: (
    u8,
    u8,
))
    ensures
        final(state)@ == clock(old(state)@, plaintextbit, ca, cb),
        r == (keystream_bit(old(state)@) ^ plaintextbit, keystream_bit(old(state)@)),
{
    let (f, ks) = clock_in_place(state, ca, cb);
    state[292] = f ^ plaintextbit;
    assert(state@ =~= clock(old(state)@, plaintextbit, ca, cb));
    (ks ^ plaintextbit, ks)
}

/// returns (plaintextbit, ks)
fn decrypt_state_update_128(state: &mut [u8; 293], ciphertextbit: u8, ca: u8, cb: u8) -> (r: (
    u8,
    u8,
))
    ensures
        r == (keystream_bit(old(state)@) ^ ciphertextbit, keystream_bit(old(state)@)),
        final(state)@ == clock(old(state)@, r.0, ca, cb),
{
    let (f, ks) = clock_in_place(state, ca, cb);
    let plaintextbit = ks ^ ciphertextbit;
    state[292] = f ^ plaintextbit;
    assert(state@ =~= clock(old(state)@, plaintextbit, ca, cb));
    (plaintextbit, ks)
}


/// Bit `i` of the 1536-bit initialization sequence: 127 key bits, 127 IV bits from position
/// 128, and a single 1 at position 256.
pub open spec fn init_bit(key: Seq<u8>, iv: Seq<u8>, i: int) -> u8 {
    if 0 <= i < 127 {
        bit_of(key[i / 8], (i % 8) as nat)
    } else if 128 <= i < 255 {
        bit_of(iv[(i - 128) / 8], ((i - 128) % 8) as nat)
    } else if i == 256 {
        1
    } else {
        0
    }
}

/// Register after the first `n` initialization clocks, starting from all zeros.
pub open spec fn init_clocks(key: Seq<u8>, iv: Seq<u8>, n: nat) -> Seq<u8>
    decreases n,
{
    if n == 0 {
        Seq::new(293, |i: int| 0u8)
    } else {
        let k = (n - 1) as nat;
        clock(init_clocks(key, iv, k), init_bit(key, iv, k as int), 1, 1)
    }
}

/// Register of a fresh session for `key` and `iv`.
pub open spec fn init_state(key: Seq<u8>, iv: Seq<u8>) -> Seq<u8> {
    init_clocks(key, iv, 1536)
}

/// Register after `n` finalization bytes (zero input, full feedback).
pub open spec fn final_clocks(s: Seq<u8>, n: nat) -> Seq<u8>
    decreases n,
{
    if n == 0 {
        s
    } else {
        clock_bits(final_clocks(s, (n - 1) as nat), 0, 0xff, 0xff, 8)
    }
}

/// The 16-byte tag of a register: the keystream bytes of the last 16 of 64 finalization bytes.
pub open spec fn tag_of_register(s: Seq<u8>) -> Seq<u8> {
    Seq::new(16, |j: int| pack(ks_stream(final_clocks(s, (48 + j) as nat), 0, 0xff, 0xff), 8))
}

/// One cipher session: the 293-cell register bound to a key and IV. It can be neither copied
/// nor cloned, so once `tag_generation` has consumed it no handle to the register is left.
pub struct Acorn128 {
    state: [u8; 293],
}

impl View for Acorn128 {
    type V = Seq<u8>;

    closed spec fn view(&self) -> Seq<u8> {
        self.state@
    }
}

impl Acorn128 {
    /// Every cell of the register holds 0 or 1.
    pub open spec fn wf(&self) -> bool {
        is_register(self@)
    }

    pub fn init(key: &[u8], iv: &[u8]) -> (r: Acorn128)
        requires
            key@.len() == 16,
            iv@.len() == 16,
        ensures
            r@ == init_state(key@, iv@),
            r.wf(),
    {
        let mut m = [0u8; 1536];
        let mut acorn = Acorn128 { state: [0u8; 293] };
        let mut i: usize = 0;
        while i < 127
            invariant
                i <= 127,
                key@.len() == 16,
                iv@.len() == 16,
                forall|k: int|
                    0 <= k < 1536 ==> #[trigger] m@[k] == (if k < i {
                        init_bit(key@, iv@, k)
                    } else if 128 <= k < 128 + i {
                        init_bit(key@, iv@, k)
                    } else {
                        0
                    }),
            decreases 127 - i,
        {
            m[i] = key[i / 8] >> ((i % 8) as u8) & 1;
            m[i + 128] = iv[i / 8] >> ((i % 8) as u8) & 1;
            i = i + 1;
        }
        m[256] = 1;
        assert(acorn.state@ =~= init_clocks(key@, iv@, 0));
        let mut i: usize = 0;
        while i < 1536
            invariant
                i <= 1536,
                key@.len() == 16,
                iv@.len() == 16,
                forall|k: int| 0 <= k < 1536 ==> #[trigger] m@[k] == init_bit(key@, iv@, k),
                acorn.state@ == init_clocks(key@, iv@, i as nat),
                is_register(acorn.state@),
            decreases 1536 - i,
        {
            proof {
                lemma_init_bit(key@, iv@, i as int);
                lemma_clock_register(acorn.state@, m@[i as int], 1, 1);
            }
            encrypt_state_update_128(&mut acorn.state, m[i], 1, 1);
            i = i + 1;
        }
        acorn
    }

    /// returns (ciphertextbyte, ksbyte)
    pub fn enc_onebyte(&mut self, plaintextbyte: u8, cabyte: u8, cbbyte: u8) -> (r: (u8, u8))
        requires
            old(self).wf(),
        ensures
            final(self).wf(),
            final(self)@ == clock_bits(old(self)@, plaintextbyte, cabyte, cbbyte, 8),
            r.0 == pack(ct_stream(old(self)@, plaintextbyte, cabyte, cbbyte), 8),
            r.1 == pack(ks_stream(old(self)@, plaintextbyte, cabyte, cbbyte), 8),
    {
        let ghost s0 = self@;
        let mut ciphertextbyte: u8 = 0;
        let mut ksbyte: u8 = 0;
        let mut i: u8 = 0;
        while i < 8
            invariant
                i <= 8,
                self@ == clock_bits(s0, plaintextbyte, cabyte, cbbyte, i as nat),
                is_register(self@),
                ciphertextbyte == pack(ct_stream(s0, plaintextbyte, cabyte, cbbyte), i as nat),
                ksbyte == pack(ks_stream(s0, plaintextbyte, cabyte, cbbyte), i as nat),
            decreases 8 - i,
        {
            let ca = (cabyte >> i) & 1;
            let cb = (cbbyte >> i) & 1;
            let plaintextbit = (plaintextbyte >> i) & 1;
            proof {
                lemma_bit_of_bit(plaintextbyte, i as nat);
                lemma_clock_register(self@, plaintextbit, ca, cb);
            }
            let (ctb, kst) = encrypt_state_update_128(&mut self.state, plaintextbit, ca, cb);
            ciphertextbyte = ciphertextbyte | (ctb << i);
            ksbyte = ksbyte | (kst << i);
            i = i + 1;
        }
        (ciphertextbyte, ksbyte)
    }

    /// returns plaintextbyte
    pub fn dec_onebyte(&mut self, ciphertextbyte: u8, cabyte: u8, cbbyte: u8) -> (r: u8)
        requires
            old(self).wf(),
        ensures
            final(self).wf(),
            final(self)@ == dec_state(old(self)@, ciphertextbyte, cabyte, cbbyte, 8),
            r == pack(pt_stream(old(self)@, ciphertextbyte, cabyte, cbbyte), 8),
    {
        let ghost s0 = self@;
        let mut plaintextbyte: u8 = 0;
        let mut i: u8 = 0;
        while i < 8
            invariant
                i <= 8,
                self@ == dec_state(s0, ciphertextbyte, cabyte, cbbyte, i as nat),
                is_register(self@),
                plaintextbyte == pack(pt_stream(s0, ciphertextbyte, cabyte, cbbyte), i as nat),
            decreases 8 - i,
        {
            let ca = (cabyte >> i) & 1;
            let cb = (cbbyte >> i) & 1;
            let ciphertextbit = (ciphertextbyte >> i) & 1;
            proof {
                lemma_keystream_bit(self@);
                lemma_bit_of_bit(ciphertextbyte, i as nat);
                let ks = keystream_bit(self@);
                assert(ks <= 1 && ciphertextbit <= 1 ==> ks ^ ciphertextbit <= 1) by (bit_vector);
                lemma_clock_register(self@, ks ^ ciphertextbit, ca, cb);
            }
            let (ptb, _) = decrypt_state_update_128(&mut self.state, ciphertextbit, ca, cb);
            plaintextbyte = plaintextbyte | (ptb << i);
            i = i + 1;
        }
        plaintextbyte
    }

    /// Consumes the session and returns its 16-byte tag.
    pub fn tag_generation(self) -> (r: [u8; 16])
        requires
            self.wf(),
        ensures
            r@ == tag_of_register(self@),
    {
        let ghost s0 = self@;
        let mut acorn = self;
        let mut output = [0u8; 16];
        let mut i: usize = 0;
        while i < 64
            invariant
                i <= 64,
                acorn.wf(),
                acorn@ == final_clocks(s0, i as nat),
                forall|j: int|
                    0 <= j < 16 && 48 + j < i ==> #[trigger] output@[j] == tag_of_register(s0)[j],
            decreases 64 - i,
        {
            let (_, ksbyte) = acorn.enc_onebyte(0, 0xff, 0xff);
            if i >= 48 {
                output[i - 48] = ksbyte;
            }
            i = i + 1;
        }
        assert(output@ =~= tag_of_register(s0));
        output
    }
}

proof fn lemma_bit_of_bit(b: u8, i: nat)
    ensures
        bit_of(b, i) <= 1,
        bit_of(b, i) == (b >> (i as u8)) & 1,
{
    let j = i as u8;
    assert((b >> j) & 1 <= 1) by (bit_vector);
}

pub proof fn lemma_init_bit(key: Seq<u8>, iv: Seq<u8>, i: int)
    requires
        key.len() == 16,
        iv.len() == 16,
    ensures
        init_bit(key, iv, i) <= 1,
{
    if 0 <= i < 127 {
        lemma_bit_of_bit(key[i / 8], (i % 8) as nat);
    } else if 128 <= i < 255 {
        lemma_bit_of_bit(iv[(i - 128) / 8], ((i - 128) % 8) as nat);
    }
}

proof fn lemma_xor3_bits(x: u8, y: u8, z: u8)
    requires
        x <= 1,
        y <= 1,
        z <= 1,
    ensures
        x ^ (y ^ z) <= 1,
{
    assert(x <= 1 && y <= 1 && z <= 1 ==> x ^ (y ^ z) <= 1) by (bit_vector);
}

proof fn lemma_diffuse_bits(s: Seq<u8>)
    requires
        is_register(s),
    ensures
        is_register(diffuse(s)),
{
    let s1 = s.update(289, s[289] ^ (s[235] ^ s[230]));
    lemma_xor3_bits(s[289], s[235], s[230]);
    let s2 = s1.update(230, s1[230] ^ (s1[196] ^ s1[193]));
    lemma_xor3_bits(s1[230], s1[196], s1[193]);
    let s3 = s2.update(193, s2[193] ^ (s2[160] ^ s2[154]));
    lemma_xor3_bits(s2[193], s2[160], s2[154]);
    let s4 = s3.update(154, s3[154] ^ (s3[111] ^ s3[107]));
    lemma_xor3_bits(s3[154], s3[111], s3[107]);
    let s5 = s4.update(107, s4[107] ^ (s4[66] ^ s4[61]));
    lemma_xor3_bits(s4[107], s4[66], s4[61]);
    lemma_xor3_bits(s5[61], s5[23], s5[0]);
    assert(is_register(s1));
    assert(is_register(s2));
    assert(is_register(s3));
    assert(is_register(s4));
    assert(is_register(s5));
}

proof fn lemma_ksg_bit(s: Seq<u8>)
    requires
        is_register(s),
    ensures
        spec_ksg(s) <= 1,
{
    let (a, b, c, d, e) = (s[12], s[154], s[235], s[61], s[193]);
    assert(a <= 1 && b <= 1 && c <= 1 && d <= 1 && e <= 1 ==> a ^ b ^ ((c & d) ^ (c & e) ^ (d
        & e)) <= 1) by (bit_vector);
}

/// The keystream bit of a well-formed register is a single bit.
pub proof fn lemma_keystream_bit(s: Seq<u8>)
    requires
        is_register(s),
    ensures
        keystream_bit(s) <= 1,
{
    lemma_diffuse_bits(s);
    lemma_ksg_bit(diffuse(s));
}

/// A clock that injects a single bit keeps the register well formed.
pub proof fn lemma_clock_register(s: Seq<u8>, input: u8, ca: u8, cb: u8)
    requires
        is_register(s),
        input <= 1,
    ensures
        is_register(clock(s, input, ca, cb)),
{
    let d = diffuse(s);
    lemma_diffuse_bits(s);
    lemma_ksg_bit(d);
    let (a, b, c1, c2, c3, h1, h2, h3, g, k) = (
        d[0],
        d[107],
        d[244],
        d[23],
        d[160],
        d[230],
        d[111],
        d[66],
        d[196],
        spec_ksg(d),
    );
    assert(a <= 1 && b <= 1 && c1 <= 1 && c2 <= 1 && c3 <= 1 && h1 <= 1 && h2 <= 1 && h3 <= 1
        && g <= 1 && k <= 1 && input <= 1 ==> a ^ (b ^ 1) ^ ((c1 & c2) ^ (c1 & c3) ^ (c2 & c3)) ^ ((
    h1 & h2) ^ ((h1 ^ 1) & h3)) ^ (ca & g) ^ (cb & k) ^ input <= 1) by (bit_vector);
    assert(is_register(clock(s, input, ca, cb)));
}


/// Initialization keeps the register well formed.
pub proof fn lemma_init_register(key: Seq<u8>, iv: Seq<u8>, n: nat)
    requires
        key.len() == 16,
        iv.len() == 16,
    ensures
        is_register(init_clocks(key, iv, n)),
    decreases n,
{
    if n > 0 {
        let k = (n - 1) as nat;
        lemma_init_register(key, iv, k);
        lemma_init_bit(key, iv, k as int);
        lemma_clock_register(init_clocks(key, iv, k), init_bit(key, iv, k as int), 1, 1);
    }
}

/// Encrypting the bits of a byte keeps the register well formed.
pub proof fn lemma_clock_bits_register(s: Seq<u8>, p: u8, ca: u8, cb: u8, n: nat)
    requires
        is_register(s),
    ensures
        is_register(clock_bits(s, p, ca, cb, n)),
    decreases n,
{
    if n > 0 {
        let k = (n - 1) as nat;
        lemma_clock_bits_register(s, p, ca, cb, k);
        lemma_bit_of_bit(p, k);
        lemma_clock_register(clock_bits(s, p, ca, cb, k), bit_of(p, k), bit_of(ca, k), bit_of(cb, k));
    }
}

/// Bit `k` of `pack(f, n)` is `f(k)` below `n` and 0 from `n` on.
proof fn lemma_pack_bit(f: spec_fn(nat) -> u8, n: nat, k: nat)
    requires
        n <= 8,
        k < 8,
        forall|j: nat| j < n ==> #[trigger] f(j) <= 1,
    ensures
        bit_of(pack(f, n), k) == (if k < n { f(k) } else { 0 }),
    decreases n,
{
    if n > 0 {
        let m = (n - 1) as nat;
        lemma_pack_bit(f, m, k);
        let acc = pack(f, m);
        let b = f(m);
        let mm = m as u8;
        let kk = k as u8;
        assert(pack(f, n) == acc | (b << mm));
        assert(b <= 1 && mm < 8 ==> ((acc | (b << mm)) >> mm) & 1 == ((acc >> mm) & 1) | b)
            by (bit_vector);
        assert(b <= 1 && mm < 8 && kk < 8 && kk != mm ==> ((acc | (b << mm)) >> kk) & 1 == (acc
            >> kk) & 1) by (bit_vector);
        if k == m {
            assert(bit_of(acc, k) == 0);
            assert(((acc >> kk) & 1) == 0);
            assert(0u8 | b == b) by (bit_vector);
        }
    } else {
        let kk = k as u8;
        assert((0u8 >> kk) & 1 == 0) by (bit_vector);
    }
}

/// Two bytes with the same eight bits are equal.
proof fn lemma_byte_from_bits(a: u8, b: u8)
    requires
        forall|k: nat| k < 8 ==> #[trigger] bit_of(a, k) == bit_of(b, k),
    ensures
        a == b,
{
    assert(bit_of(a, 0) == bit_of(b, 0));
    assert(bit_of(a, 1) == bit_of(b, 1));
    assert(bit_of(a, 2) == bit_of(b, 2));
    assert(bit_of(a, 3) == bit_of(b, 3));
    assert(bit_of(a, 4) == bit_of(b, 4));
    assert(bit_of(a, 5) == bit_of(b, 5));
    assert(bit_of(a, 6) == bit_of(b, 6));
    assert(bit_of(a, 7) == bit_of(b, 7));
    assert((a >> 0u8) & 1 == (b >> 0u8) & 1 && (a >> 1u8) & 1 == (b >> 1u8) & 1 && (a >> 2u8) & 1
        == (b >> 2u8) & 1 && (a >> 3u8) & 1 == (b >> 3u8) & 1 && (a >> 4u8) & 1 == (b >> 4u8) & 1
        && (a >> 5u8) & 1 == (b >> 5u8) & 1 && (a >> 6u8) & 1 == (b >> 6u8) & 1 && (a >> 7u8) & 1
        == (b >> 7u8) & 1 ==> a == b) by (bit_vector);
}

proof fn lemma_ct_stream_bits(s: Seq<u8>, p: u8, ca: u8, cb: u8)
    requires
        is_register(s),
    ensures
        forall|j: nat| #[trigger] ct_stream(s, p, ca, cb)(j) <= 1,
{
    assert forall|j: nat| #[trigger] ct_stream(s, p, ca, cb)(j) <= 1 by {
        lemma_clock_bits_register(s, p, ca, cb, j);
        lemma_keystream_bit(clock_bits(s, p, ca, cb, j));
        lemma_bit_of_bit(p, j);
        let x = keystream_bit(clock_bits(s, p, ca, cb, j));
        let y = bit_of(p, j);
        assert(x <= 1 && y <= 1 ==> x ^ y <= 1) by (bit_vector);
    }
}

/// Decrypting the first `n` bits of an encrypted byte walks the register through the same
/// states as encrypting them did.
proof fn lemma_dec_state_matches(s: Seq<u8>, p: u8, ca: u8, cb: u8, n: nat)
    requires
        is_register(s),
        n <= 8,
    ensures
        dec_state(s, pack(ct_stream(s, p, ca, cb), 8), ca, cb, n) == clock_bits(s, p, ca, cb, n),
    decreases n,
{
    if n > 0 {
        let k = (n - 1) as nat;
        let c = pack(ct_stream(s, p, ca, cb), 8);
        lemma_dec_state_matches(s, p, ca, cb, k);
        lemma_ct_stream_bits(s, p, ca, cb);
        lemma_pack_bit(ct_stream(s, p, ca, cb), 8, k);
        let x = keystream_bit(clock_bits(s, p, ca, cb, k));
        let y = bit_of(p, k);
        assert(x ^ (x ^ y) == y) by (bit_vector);
    }
}

/// Decrypting the byte that encryption produced from `p`, in the same register, gives `p`
/// back and leaves the register as encryption left it.
pub proof fn lemma_byte_round_trip(s: Seq<u8>, p: u8, ca: u8, cb: u8)
    requires
        is_register(s),
    ensures
        dec_state(s, pack(ct_stream(s, p, ca, cb), 8), ca, cb, 8) == clock_bits(s, p, ca, cb, 8),
        pack(pt_stream(s, pack(ct_stream(s, p, ca, cb), 8), ca, cb), 8) == p,
{
    let c = pack(ct_stream(s, p, ca, cb), 8);
    let pt = pt_stream(s, c, ca, cb);
    lemma_dec_state_matches(s, p, ca, cb, 8);
    lemma_ct_stream_bits(s, p, ca, cb);
    assert forall|j: nat| j < 8 implies #[trigger] pt(j) == bit_of(p, j) by {
        lemma_dec_state_matches(s, p, ca, cb, j);
        lemma_pack_bit(ct_stream(s, p, ca, cb), 8, j);
        let x = keystream_bit(clock_bits(s, p, ca, cb, j));
        let y = bit_of(p, j);
        assert(x ^ (x ^ y) == y) by (bit_vector);
    }
    assert forall|j: nat| j < 8 implies #[trigger] pt(j) <= 1 by {
        lemma_bit_of_bit(p, j);
    }
    assert forall|k: nat| k < 8 implies #[trigger] bit_of(pack(pt, 8), k) == bit_of(p, k) by {
        lemma_pack_bit(pt, 8, k);
    }
    lemma_byte_from_bits(pack(pt, 8), p);
}

} // verus!
