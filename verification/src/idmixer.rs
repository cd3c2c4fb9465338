use vstd::prelude::*;

use crate::encoder::custom::all_in_alphabet;
use crate::encoder::custom::encode_spec;
use crate::encoder::custom::first_invalid_at;
use crate::encoder::custom::lemma_codec_round_trip;
use crate::encoder::custom::overflow_at;
use crate::encoder::custom::str_value;
use crate::encoder::custom::valid_alphabet;
use crate::encoder::traits::EncoderDecoder;
use crate::err::ChecksumStage;
use crate::err::MixError;
use crate::sizeclass::classify;
use crate::sizeclass::classify_spec;
use crate::sizeclass::mask;
use crate::sizeclass::mask_of;
use crate::sizeclass::salt_shift;
use crate::sizeclass::salt_shift_of;
use crate::sizeclass::SizeClass;
use crate::MAX_U16;
use crate::MAX_U32;
use crate::MAX_U56;
use crate::MAX_U64;

verus! {

/// Parity of the set bits of `x`: 1 when their number is odd, 0 when even.
pub open spec fn parity(x: u64) -> u8
    decreases x,
{
    if x == 0 {
        0u8
    } else {
        ((x % 2) as u8) ^ parity(x / 2)
    }
}

/// The parity of any value is a single bit.
pub proof fn lemma_parity_le_one(x: u64)
    ensures
        parity(x) <= 1,
    decreases x,
{
    if x > 0 {
        lemma_parity_le_one(x / 2);
        let p = parity(x / 2);
        assert(((x % 2) as u8) ^ p <= 1) by (bit_vector)
            requires
                p <= 1,
        ;
    }
}

/// The recursion step of `parity` holds of zero as well.
proof fn lemma_parity_split(a: u64)
    ensures
        parity(a) == ((a % 2) as u8) ^ parity(a / 2),
{
    if a == 0 {
        assert(((0u64 % 2) as u8) ^ 0u8 == 0u8) by (bit_vector);
    }
}

/// Parity distributes over exclusive or.
pub proof fn lemma_parity_xor(a: u64, b: u64)
    ensures
        parity(a ^ b) == parity(a) ^ parity(b),
    decreases a + b,
{
    if a == 0 && b == 0 {
        assert(0u64 ^ 0u64 == 0u64) by (bit_vector);
        assert(0u8 ^ 0u8 == 0u8) by (bit_vector);
    } else {
        lemma_parity_xor(a / 2, b / 2);
        lemma_parity_split(a);
        lemma_parity_split(b);
        lemma_parity_split(a ^ b);
        assert((a ^ b) % 2 == (a % 2) ^ (b % 2) && (a ^ b) / 2 == (a / 2) ^ (b / 2) && ((a ^ b)
            % 2) as u8 == ((a % 2) as u8) ^ ((b % 2) as u8)) by (bit_vector);
        let pa = (a % 2) as u8;
        let pb = (b % 2) as u8;
        let qa = parity(a / 2);
        let qb = parity(b / 2);
        assert((pa ^ pb) ^ (qa ^ qb) == (pa ^ qa) ^ (pb ^ qb)) by (bit_vector);
    }
}

/// Parity of the binary digits of `id`: 1 when an odd number of bits is
/// set, 0 otherwise.
pub fn parity_check(id: u64) -> (r: u8)
    ensures
        r == parity(id),
{
    let mut val: u64 = id;
    let mut result: u8 = 0;
    proof {
        let p = parity(id);
        assert(0u8 ^ p == p) by (bit_vector);
    }
    while val > 0
        invariant
            parity(id) == result ^ parity(val),
        decreases val,
    {
        let bit: u8 = (val % 2) as u8;
        proof {
            let b = (val % 2) as u8;
            let c = parity(val / 2);
            assert((result ^ b) ^ c == result ^ (b ^ c)) by (bit_vector);
        }
        result = result ^ bit;
        val = val / 2;
    }
    proof {
        assert(result ^ 0u8 == result) by (bit_vector);
    }
    result
}

/// The value `mix` produces for `key`, `id` and the 5-bit nonce `nonce`:
/// the id is masked-key scrambled, salt scrambled, padded back into its
/// size class when the scrambling left it looking smaller, and the control
/// byte (nonce, padding flag, two parity bits) is appended as the low byte.
/// Meaningful when `id <= MAX_U56` and `nonce < 32`.
pub open spec fn mix_spec(key: u64, id: u64, nonce: u8) -> u64 {
    let c = classify_spec(id);
    let k = key & mask_of(c);
    let salt = ((nonce as u64) << salt_shift_of(c)) ^ k;
    let keyed = k ^ id;
    let key_sign = parity(keyed);
    let salted = keyed ^ salt;
    let salt_sign = parity(salted);
    let pad = (c is Medium && salted <= MAX_U16) || (c is Large && salted <= MAX_U32);
    let padded = if c is Medium && salted <= MAX_U16 {
        salted | 0x1_0000u64
    } else if c is Large && salted <= MAX_U32 {
        salted | 0x1_0000_0000u64
    } else {
        salted
    };
    let pad_sign: u64 = if pad {
        1
    } else {
        0
    };
    let ctrl = ((nonce as u64) << 3) | (pad_sign << 2) | ((key_sign as u64) << 1) | (
    salt_sign as u64);
    (padded << 8) | ctrl
}

/// What `unmix` returns for `key` and `mixed`: the control byte is taken
/// apart, the body is classified (after clearing the padding bit when the
/// padding flag is set), the salt is recomputed, and the two parity
/// checksums are verified before the recovered id is returned.
pub open spec fn unmix_spec(key: u64, mixed: u64) -> Result<u64, MixError> {
    let nonce = ((mixed & 0xff) >> 3) as u8;
    let pad = (mixed & 0b100) >> 2;
    let key_check = (mixed & 0b10) >> 1;
    let salt_check = mixed & 1;
    let body = mixed >> 8;
    let c = classify_spec(body);
    let k = key & mask_of(c);
    let salt = ((nonce as u64) << salt_shift_of(c)) ^ k;
    let unpadded = if pad == 1 && c is Medium {
        body & MAX_U16
    } else if pad == 1 && c is Large {
        body & MAX_U32
    } else {
        body
    };
    if parity(unpadded) as u64 != salt_check {
        Err(MixError::Checksum { stage: ChecksumStage::RandSalt })
    } else {
        let unsalted = unpadded ^ salt;
        if parity(unsalted) as u64 != key_check {
            Err(MixError::Checksum { stage: ChecksumStage::Key })
        } else {
            Ok(k ^ unsalted)
        }
    }
}

/// What decoding with a second key (equal to the first or not) returns,
/// for a genuine mixed value of the given class.
spec fn unmix_of_mix_expected(key: u64, key2: u64, id: u64, nonce: u8) -> Result<u64, MixError> {
    let m = mask_of(classify_spec(id));
    if parity((key & m) ^ (key2 & m)) == 1 {
        Err(MixError::Checksum { stage: ChecksumStage::Key })
    } else {
        Ok(id)
    }
}

proof fn lemma_unmix_of_mix_small(key: u64, key2: u64, id: u64, nonce: u8)
    requires
        id <= MAX_U16,
        nonce < 32,
    ensures
        unmix_spec(key2, mix_spec(key, id, nonce)) == unmix_of_mix_expected(key, key2, id, nonce),
{
    let k = key & MAX_U16;
    let k2 = key2 & MAX_U16;
    let diff = k ^ k2;
    let n64 = nonce as u64;
    let salt = (n64 << 8) ^ k;
    let salt2 = (n64 << 8) ^ k2;
    let keyed = k ^ id;
    let ks = parity(keyed);
    let salted = keyed ^ salt;
    let ss = parity(salted);
    lemma_parity_le_one(keyed);
    lemma_parity_le_one(salted);
    lemma_parity_le_one(diff);
    lemma_parity_xor(keyed, diff);
    let ctrl = (n64 << 3) | (0u64 << 2) | ((ks as u64) << 1) | (ss as u64);
    let mixed = (salted << 8) | ctrl;
    assert(salted <= 0xffff && mixed >> 8 == salted && (mixed & 0xff) >> 3 == n64 && ((mixed
        & 0xff) >> 3) as u8 == nonce && (mixed & 0b100) >> 2 == 0 && (mixed & 0b10) >> 1
        == ks as u64 && (mixed & 1) == ss as u64 && (salted ^ salt2) == (keyed ^ diff) && (k2
        ^ (keyed ^ diff)) == id) by (bit_vector)
        requires
            id <= 0xffff,
            nonce < 32,
            k == key & 0xffff,
            k2 == key2 & 0xffff,
            diff == k ^ k2,
            n64 == nonce as u64,
            salt == (n64 << 8) ^ k,
            salt2 == (n64 << 8) ^ k2,
            keyed == k ^ id,
            salted == keyed ^ salt,
            ks <= 1,
            ss <= 1,
            ctrl == (n64 << 3) | (0u64 << 2) | ((ks as u64) << 1) | (ss as u64),
            mixed == (salted << 8) | ctrl,
    ;
    assert(mix_spec(key, id, nonce) == mixed);
    lemma_checks_decide(ks, parity(diff));
    assert(unmix_spec(key2, mixed) == unmix_of_mix_expected(key, key2, id, nonce));
}

/// The key checksum of `unmix` passes exactly when the parity of the
/// masked key difference is even.
proof fn lemma_checks_decide(ks: u8, pd: u8)
    requires
        pd <= 1,
    ensures
        pd == 0 ==> ks ^ pd == ks,
        pd == 1 ==> (ks ^ pd) as u64 != ks as u64,
{
    assert(ks ^ 0u8 == ks) by (bit_vector);
    assert((ks ^ 1u8) as u64 != ks as u64) by (bit_vector);
}

proof fn lemma_unmix_of_mix_medium(key: u64, key2: u64, id: u64, nonce: u8)
    requires
        MAX_U16 < id <= MAX_U32,
        nonce < 32,
    ensures
        unmix_spec(key2, mix_spec(key, id, nonce)) == unmix_of_mix_expected(key, key2, id, nonce),
{
    let k = key & MAX_U32;
    let k2 = key2 & MAX_U32;
    let diff = k ^ k2;
    let n64 = nonce as u64;
    let salt = (n64 << 16) ^ k;
    let salt2 = (n64 << 16) ^ k2;
    let keyed = k ^ id;
    let ks = parity(keyed);
    let salted = keyed ^ salt;
    let ss = parity(salted);
    lemma_parity_le_one(keyed);
    lemma_parity_le_one(salted);
    lemma_parity_le_one(diff);
    lemma_parity_xor(keyed, diff);
    lemma_checks_decide(ks, parity(diff));
    if salted <= MAX_U16 {
        let padded = salted | 0x1_0000u64;
        let ctrl = (n64 << 3) | (1u64 << 2) | ((ks as u64) << 1) | (ss as u64);
        let mixed = (padded << 8) | ctrl;
        assert(0xffff < padded <= 0xffff_ffff && mixed >> 8 == padded && (mixed & 0xff) >> 3
            == n64 && ((mixed & 0xff) >> 3) as u8 == nonce && (mixed & 0b100) >> 2 == 1 && (
        mixed & 0b10) >> 1 == ks as u64 && (mixed & 1) == ss as u64 && padded & 0xffff
            == salted && (salted ^ salt2) == (keyed ^ diff) && (k2 ^ (keyed ^ diff)) == id) by (bit_vector)
            requires
                0xffff < id <= 0xffff_ffff,
                nonce < 32,
                k == key & 0xffff_ffff,
                k2 == key2 & 0xffff_ffff,
                diff == k ^ k2,
                n64 == nonce as u64,
                salt == (n64 << 16) ^ k,
                salt2 == (n64 << 16) ^ k2,
                keyed == k ^ id,
                salted == keyed ^ salt,
                salted <= 0xffff,
                ks <= 1,
                ss <= 1,
                padded == salted | 0x1_0000u64,
                ctrl == (n64 << 3) | (1u64 << 2) | ((ks as u64) << 1) | (ss as u64),
                mixed == (padded << 8) | ctrl,
        ;
        assert(mix_spec(key, id, nonce) == mixed);
        assert(unmix_spec(key2, mixed) == unmix_of_mix_expected(key, key2, id, nonce));
    } else {
        let ctrl = (n64 << 3) | (0u64 << 2) | ((ks as u64) << 1) | (ss as u64);
        let mixed = (salted << 8) | ctrl;
        assert(salted <= 0xffff_ffff && mixed >> 8 == salted && (mixed & 0xff) >> 3 == n64 && ((
        mixed & 0xff) >> 3) as u8 == nonce && (mixed & 0b100) >> 2 == 0 && (mixed & 0b10) >> 1
            == ks as u64 && (mixed & 1) == ss as u64 && (salted ^ salt2) == (keyed ^ diff) && (k2
            ^ (keyed ^ diff)) == id) by (bit_vector)
            requires
                0xffff < id <= 0xffff_ffff,
                nonce < 32,
                k == key & 0xffff_ffff,
                k2 == key2 & 0xffff_ffff,
                diff == k ^ k2,
                n64 == nonce as u64,
                salt == (n64 << 16) ^ k,
                salt2 == (n64 << 16) ^ k2,
                keyed == k ^ id,
                salted == keyed ^ salt,
                ks <= 1,
                ss <= 1,
                ctrl == (n64 << 3) | (0u64 << 2) | ((ks as u64) << 1) | (ss as u64),
                mixed == (salted << 8) | ctrl,
        ;
        assert(mix_spec(key, id, nonce) == mixed);
        assert(unmix_spec(key2, mixed) == unmix_of_mix_expected(key, key2, id, nonce));
    }
}

proof fn lemma_unmix_of_mix_large(key: u64, key2: u64, id: u64, nonce: u8)
    requires
        MAX_U32 < id <= MAX_U56,
        nonce < 32,
    ensures
        unmix_spec(key2, mix_spec(key, id, nonce)) == unmix_of_mix_expected(key, key2, id, nonce),
{
    let k = key & MAX_U56;
    let k2 = key2 & MAX_U56;
    let diff = k ^ k2;
    let n64 = nonce as u64;
    let salt = (n64 << 32) ^ k;
    let salt2 = (n64 << 32) ^ k2;
    let keyed = k ^ id;
    let ks = parity(keyed);
    let salted = keyed ^ salt;
    let ss = parity(salted);
    lemma_parity_le_one(keyed);
    lemma_parity_le_one(salted);
    lemma_parity_le_one(diff);
    lemma_parity_xor(keyed, diff);
    lemma_checks_decide(ks, parity(diff));
    if salted <= MAX_U32 {
        let padded = salted | 0x1_0000_0000u64;
        let ctrl = (n64 << 3) | (1u64 << 2) | ((ks as u64) << 1) | (ss as u64);
        let mixed = (padded << 8) | ctrl;
        assert(0xffff_ffff < padded <= 0xff_ffff_ffff_ffff && mixed >> 8 == padded && (mixed
            & 0xff) >> 3 == n64 && ((mixed & 0xff) >> 3) as u8 == nonce && (mixed & 0b100) >> 2
            == 1 && (mixed & 0b10) >> 1 == ks as u64 && (mixed & 1) == ss as u64 && padded
            & 0xffff_ffff == salted && (salted ^ salt2) == (keyed ^ diff) && (k2 ^ (keyed ^ diff))
            == id) by (bit_vector)
            requires
                0xffff_ffff < id <= 0xff_ffff_ffff_ffff,
                nonce < 32,
                k == key & 0xff_ffff_ffff_ffff,
                k2 == key2 & 0xff_ffff_ffff_ffff,
                diff == k ^ k2,
                n64 == nonce as u64,
                salt == (n64 << 32) ^ k,
                salt2 == (n64 << 32) ^ k2,
                keyed == k ^ id,
                salted == keyed ^ salt,
                salted <= 0xffff_ffff,
                ks <= 1,
                ss <= 1,
                padded == salted | 0x1_0000_0000u64,
                ctrl == (n64 << 3) | (1u64 << 2) | ((ks as u64) << 1) | (ss as u64),
                mixed == (padded << 8) | ctrl,
        ;
        assert(mix_spec(key, id, nonce) == mixed);
        assert(unmix_spec(key2, mixed) == unmix_of_mix_expected(key, key2, id, nonce));
    } else {
        let ctrl = (n64 << 3) | (0u64 << 2) | ((ks as u64) << 1) | (ss as u64);
        let mixed = (salted << 8) | ctrl;
        assert(0xffff_ffff < salted <= 0xff_ffff_ffff_ffff && mixed >> 8 == salted && (mixed
            & 0xff) >> 3 == n64 && ((mixed & 0xff) >> 3) as u8 == nonce && (mixed & 0b100) >> 2
            == 0 && (mixed & 0b10) >> 1 == ks as u64 && (mixed & 1) == ss as u64 && (salted
            ^ salt2) == (keyed ^ diff) && (k2 ^ (keyed ^ diff)) == id) by (bit_vector)
            requires
                0xffff_ffff < id <= 0xff_ffff_ffff_ffff,
                nonce < 32,
                k == key & 0xff_ffff_ffff_ffff,
                k2 == key2 & 0xff_ffff_ffff_ffff,
                diff == k ^ k2,
                n64 == nonce as u64,
                salt == (n64 << 32) ^ k,
                salt2 == (n64 << 32) ^ k2,
                keyed == k ^ id,
                salted == keyed ^ salt,
                salted > 0xffff_ffff,
                ks <= 1,
                ss <= 1,
                ctrl == (n64 << 3) | (0u64 << 2) | ((ks as u64) << 1) | (ss as u64),
                mixed == (salted << 8) | ctrl,
        ;
        assert(mix_spec(key, id, nonce) == mixed);
        assert(unmix_spec(key2, mixed) == unmix_of_mix_expected(key, key2, id, nonce));
    }
}

/// What `unmix` makes of a genuine mixed value under any second key: when
/// the masked halves of the two keys differ in an odd number of bits the
/// key checksum fails, and otherwise the original id comes back (the two
/// 1-bit parity checks cannot see an even difference).
pub proof fn lemma_unmix_of_mix(key: u64, key2: u64, id: u64, nonce: u8)
    requires
        id <= MAX_U56,
        nonce < 32,
    ensures
        unmix_spec(key2, mix_spec(key, id, nonce)) == ({
            let m = mask_of(classify_spec(id));
            if parity((key & m) ^ (key2 & m)) == 1 {
                Err::<u64, MixError>(MixError::Checksum { stage: ChecksumStage::Key })
            } else {
                Ok::<u64, MixError>(id)
            }
        }),
{
    if id <= MAX_U16 {
        lemma_unmix_of_mix_small(key, key2, id, nonce);
    } else if id <= MAX_U32 {
        lemma_unmix_of_mix_medium(key, key2, id, nonce);
    } else {
        lemma_unmix_of_mix_large(key, key2, id, nonce);
    }
}

/// Round trip of the mixing engine: for every key, every id in the 56-bit
/// domain and every 5-bit nonce the mix drew, `unmix` with the same key
/// recovers the id exactly.
pub proof fn lemma_mix_unmix(key: u64, id: u64, nonce: u8)
    requires
        id <= MAX_U56,
        nonce < 32,
    ensures
        unmix_spec(key, mix_spec(key, id, nonce)) == Ok::<u64, MixError>(id),
{
    lemma_unmix_of_mix(key, key, id, nonce);
    let m = mask_of(classify_spec(id));
    assert((key & m) ^ (key & m) == 0) by (bit_vector);
}

/// Wrong-key detection, as far as two 1-bit parity checks can promise it:
/// when the low masked bits of the decode key differ from those of the mix
/// key in an odd number of positions, `unmix` fails with the key-stage
/// checksum error. (An even difference passes both checks, so detection
/// of an arbitrary wrong key is only probabilistic.)
pub proof fn lemma_wrong_key_detected(key: u64, key2: u64, id: u64, nonce: u8)
    requires
        id <= MAX_U56,
        nonce < 32,
        parity((key & mask_of(classify_spec(id))) ^ (key2 & mask_of(classify_spec(id)))) == 1,
    ensures
        unmix_spec(key2, mix_spec(key, id, nonce)) == Err::<u64, MixError>(
            MixError::Checksum { stage: ChecksumStage::Key },
        ),
{
    lemma_unmix_of_mix(key, key2, id, nonce);
}

/// Relies on rand's `Rng::gen_range` (with `thread_rng`): a sample of the
/// range `0..32` lies in that range.
#[verifier::external_body]
fn random_nonce() -> (r: u8)
    ensures
        r < 32,
{
    rand::Rng::gen_range(&mut rand::thread_rng(), 0..32)
}

/// Scrambles `id` with `key` and the caller-supplied 5-bit nonce, so that
/// a test or caller can fix the randomness.
pub fn mix_with(key: u64, id: u64, nonce: u8) -> (r: Result<u64, MixError>)
    requires
        nonce < 32,
    ensures
        id <= MAX_U56 ==> r == Ok::<u64, MixError>(mix_spec(key, id, nonce)),
        id > MAX_U56 ==> r == Err::<u64, MixError>(MixError::Domain { id, limit: MAX_U56 }),
{
    if id > MAX_U56 {
        return Err(MixError::Domain { id, limit: MAX_U56 });
    }
    let c = classify(id);
    let k = key & mask(c);
    let salt = ((nonce as u64) << salt_shift(c)) ^ k;
    let keyed = k ^ id;
    let key_sign = parity_check(keyed);
    let mut salted = keyed ^ salt;
    let salt_sign = parity_check(salted);
    let mut pad_sign: u8 = 0;
    if matches!(c, SizeClass::Medium) && salted <= MAX_U16 {
        salted = salted | 0x1_0000;
        pad_sign = 1;
    } else if matches!(c, SizeClass::Large) && salted <= MAX_U32 {
        salted = salted | 0x1_0000_0000;
        pad_sign = 1;
    }
    let ctrl: u64 = ((nonce as u64) << 3) | ((pad_sign as u64) << 2) | ((key_sign as u64) << 1) | (
    salt_sign as u64);
    Ok((salted << 8) | ctrl)
}

/// Scrambles `id` with `key` and a fresh random nonce. Fails exactly when
/// `id` exceeds the 56-bit mixable domain; every success is the mix of
/// some 5-bit nonce, so `unmix` with the same key recovers `id`.
pub fn mix(key: u64, id: u64) -> (r: Result<u64, MixError>)
    ensures
        id <= MAX_U56 ==> (r matches Ok(v) && exists|n: u8|
            n < 32 && v == #[trigger] mix_spec(key, id, n)),
        id > MAX_U56 ==> r == Err::<u64, MixError>(MixError::Domain { id, limit: MAX_U56 }),
{
    let nonce = random_nonce();
    let r = mix_with(key, id, nonce);
    proof {
        if id <= MAX_U56 {
            assert(nonce < 32 && r->Ok_0 == mix_spec(key, id, nonce));
        }
    }
    r
}

/// Recovers the id scrambled into `mixed`, verifying both parity
/// checksums with the recomputed masked key and salt.
pub fn unmix(key: u64, mixed: u64) -> (r: Result<u64, MixError>)
    ensures
        r == unmix_spec(key, mixed),
{
    proof {
        assert((mixed & 0xff) >> 3 < 256) by (bit_vector);
    }
    let nonce = ((mixed & 0xff) >> 3) as u8;
    let pad = (mixed & 0b100) >> 2;
    let key_check = (mixed & 0b10) >> 1;
    let salt_check = mixed & 1;
    let body = mixed >> 8;
    let c = classify(body);
    let k = key & mask(c);
    let salt = ((nonce as u64) << salt_shift(c)) ^ k;
    let unpadded = if pad == 1 && matches!(c, SizeClass::Medium) {
        body & MAX_U16
    } else if pad == 1 && matches!(c, SizeClass::Large) {
        body & MAX_U32
    } else {
        body
    };
    if parity_check(unpadded) as u64 != salt_check {
        return Err(MixError::Checksum { stage: ChecksumStage::RandSalt });
    }
    let unsalted = unpadded ^ salt;
    if parity_check(unsalted) as u64 != key_check {
        return Err(MixError::Checksum { stage: ChecksumStage::Key });
    }
    Ok(k ^ unsalted)
}

/// Mixes `id` under `key` and writes the result with `encoder`: the
/// obfuscated, externally showable form of the id.
pub fn encode<E: EncoderDecoder>(key: u64, id: u64, encoder: &E) -> (r: Result<String, MixError>)
    requires
        encoder.wf(),
    ensures
        id > MAX_U56 ==> r == Err::<String, MixError>(MixError::Domain { id, limit: MAX_U56 }),
        id <= MAX_U56 ==> (r matches Ok(s) && exists|n: u8|
            n < 32 && s@ == encode_spec(encoder.alphabet(), #[trigger] mix_spec(key, id, n))),
{
    let mixed = match mix(key, id) {
        Ok(m) => m,
        Err(e) => {
            return Err(e);
        },
    };
    match encoder.encode(mixed) {
        Ok(s) => {
            proof {
                let n = choose|n: u8| n < 32 && mixed == mix_spec(key, id, n);
                assert(s@ == encode_spec(encoder.alphabet(), mix_spec(key, id, n)));
            }
            Ok(s)
        },
        Err(e) => Err(e),
    }
}

/// Reads `text` with `encoder` and unmixes the value under `key`,
/// recovering the id that was encoded, or the error of whichever stage
/// failed first.
pub fn decode<E: EncoderDecoder>(key: u64, text: &str, encoder: &E) -> (r: Result<u64, MixError>)
    requires
        encoder.wf(),
    ensures
        all_in_alphabet(encoder.alphabet(), text@) && str_value(encoder.alphabet(), text@)
            <= MAX_U64 as int ==> r == unmix_spec(
            key,
            str_value(encoder.alphabet(), text@) as u64,
        ),
        all_in_alphabet(encoder.alphabet(), text@) && str_value(encoder.alphabet(), text@)
            > MAX_U64 as int ==> (exists|j: int|
            #[trigger] overflow_at(encoder.alphabet(), text@, j) && r == Err::<u64, MixError>(
                MixError::Overflow {
                    value: str_value(encoder.alphabet(), text@.take(j)) as u128,
                    limit: MAX_U64,
                },
            )),
        !all_in_alphabet(encoder.alphabet(), text@) ==> (exists|i: int|
            #[trigger] first_invalid_at(encoder.alphabet(), text@, i) && r == Err::<u64, MixError>(
                MixError::InvalidCharacter { c: text@[i] },
            )),
{
    let owned = text.to_owned();
    let mixed = match encoder.decode(owned) {
        Ok(m) => m,
        Err(e) => {
            return Err(e);
        },
    };
    unmix(key, mixed)
}

/// Full round trip (law): under any key, any mixable id, any valid
/// alphabet and any nonce the mix may draw, the encoded string has only
/// alphabet characters and denotes the mixed value, and unmixing that
/// value under the same key gives the id back — so decoding an encoded
/// id returns exactly the id.
pub proof fn lemma_encode_decode(a: Seq<char>, key: u64, id: u64, nonce: u8)
    requires
        valid_alphabet(a),
        id <= MAX_U56,
        nonce < 32,
    ensures
        all_in_alphabet(a, encode_spec(a, mix_spec(key, id, nonce))),
        str_value(a, encode_spec(a, mix_spec(key, id, nonce))) == mix_spec(key, id, nonce) as int,
        unmix_spec(key, mix_spec(key, id, nonce)) == Ok::<u64, MixError>(id),
{
    lemma_codec_round_trip(a, mix_spec(key, id, nonce));
    lemma_mix_unmix(key, id, nonce);
}

} // verus!
