//! The stable rollout hash: 64-bit FNV-1a over `flag`, a NUL byte and `key`.
use vstd::prelude::*;
use vstd::utf8::{encode_scalar, encode_utf8, encode_utf8_decode_utf8, has_width_1_encoding};

verus! {

/// FNV-1a, chosen over std's `DefaultHasher` because that hasher's seed is
/// randomized per process: the same (flag, key) pair would land in a
/// different bucket every time the program restarts.
pub const FNV_OFFSET: u64 = 0xcbf2_9ce4_8422_2325;

pub const FNV_PRIME: u64 = 0x0100_0000_01b3;

/// One FNV-1a round: xor in the byte, then multiply modulo 2^64.
pub open spec fn fnv_step(hash: u64, byte: u8) -> u64 {
    ((hash ^ (byte as u64)) as nat * (FNV_PRIME as nat) % 0x1_0000_0000_0000_0000) as u64
}

/// FNV-1a of a byte sequence.
pub open spec fn fnv1a_spec(data: Seq<u8>) -> u64
    decreases data.len(),
{
    if data.len() == 0 {
        FNV_OFFSET
    } else {
        fnv_step(fnv1a_spec(data.drop_last()), data.last())
    }
}

/// The bytes that are hashed for a (flag, key) pair: the UTF-8 of the flag,
/// a NUL byte, then the UTF-8 of the key.
pub open spec fn hash_input(flag: Seq<char>, key: Seq<char>) -> Seq<u8> {
    encode_utf8(flag) + seq![0u8] + encode_utf8(key)
}

/// The rollout bucket, 0..100, of a (flag, key) pair.
pub open spec fn bucket_spec(flag: Seq<char>, key: Seq<char>) -> u8 {
    (fnv1a_spec(hash_input(flag, key)) % 100) as u8
}

fn fnv1a(data: &[u8]) -> (hash: u64)
    ensures
        hash == fnv1a_spec(data@),
{
    let mut hash = FNV_OFFSET;
    let mut i: usize = 0;
    while i < data.len()
        invariant
            i <= data@.len(),
            hash == fnv1a_spec(data@.take(i as int)),
        decreases data.len() - i,
    {
        let byte = data[i];
        hash = hash ^ (byte as u64);
        hash = hash.wrapping_mul(FNV_PRIME);
        proof {
            assert(data@.take(i + 1).drop_last() =~= data@.take(i as int));
        }
        i += 1;
    }
    proof {
        assert(data@.take(data@.len() as int) =~= data@);
    }
    hash
}

fn push_all(buf: &mut Vec<u8>, bytes: &[u8])
    ensures
        final(buf)@ == old(buf)@ + bytes@,
{
    let mut i: usize = 0;
    while i < bytes.len()
        invariant
            i <= bytes@.len(),
            buf@ == old(buf)@ + bytes@.take(i as int),
        decreases bytes.len() - i,
    {
        buf.push(bytes[i]);
        proof {
            assert(old(buf)@ + bytes@.take(i + 1) =~= buf@);
        }
        i += 1;
    }
    proof {
        assert(bytes@.take(bytes@.len() as int) =~= bytes@);
    }
}

/// Deterministic bucket (0..100) for a (flag, key) pair, the same hash that
/// rollout evaluation uses. The NUL separator keeps flag "ab" with key "c"
/// apart from flag "a" with key "bc".
pub fn bucket(flag: &str, key: &str) -> (b: u8)
    ensures
        b == bucket_spec(flag@, key@),
        b < 100,
{
    let mut buf: Vec<u8> = Vec::new();
    push_all(&mut buf, flag.as_bytes());
    buf.push(0);
    push_all(&mut buf, key.as_bytes());
    proof {
        assert(buf@ =~= hash_input(flag@, key@));
    }
    let h = fnv1a(buf.as_slice());
    (h % 100) as u8
}

proof fn lemma_scalar_has_no_nul(c: char)
    requires
        c != '\0',
    ensures
        forall|j: int| 0 <= j < encode_scalar(c as u32).len() ==> #[trigger] encode_scalar(c as u32)[j] != 0,
{
    let u = c as u32;
    if has_width_1_encoding(u) {
        assert(u != 0);
        assert((u & 0x7F) as u8 != 0) by (bit_vector)
            requires
                1 <= u <= 0x7F,
        ;
    } else {
        let b1 = ((u >> 6) & 0x1F) as u8;
        let b2 = ((u >> 12) & 0x0F) as u8;
        let b3 = ((u >> 18) & 0x7) as u8;
        let c1 = (u & 0x3F) as u8;
        let c2 = ((u >> 6) & 0x3F) as u8;
        let c3 = ((u >> 12) & 0x3F) as u8;
        assert(0xC0u8 | b1 != 0 && 0xE0u8 | b2 != 0 && 0xF0u8 | b3 != 0) by (bit_vector);
        assert(0x80u8 | c1 != 0 && 0x80u8 | c2 != 0 && 0x80u8 | c3 != 0) by (bit_vector);
    }
}

proof fn lemma_encoding_has_no_nul(s: Seq<char>)
    requires
        !s.contains('\0'),
    ensures
        forall|j: int| 0 <= j < encode_utf8(s).len() ==> #[trigger] encode_utf8(s)[j] != 0,
    decreases s.len(),
{
    if s.len() > 0 {
        assert(s[0] != '\0');
        lemma_scalar_has_no_nul(s[0]);
        assert(!s.drop_first().contains('\0')) by {
            if s.drop_first().contains('\0') {
                let k = choose|k: int| 0 <= k < s.drop_first().len() && s.drop_first()[k] == '\0';
                assert(s[k + 1] == '\0');
            }
        }
        lemma_encoding_has_no_nul(s.drop_first());
        let head = encode_scalar(s[0] as u32);
        let tail = encode_utf8(s.drop_first());
        assert(encode_utf8(s) == head + tail);
        assert forall|j: int| 0 <= j < encode_utf8(s).len() implies #[trigger] encode_utf8(s)[j] != 0 by {
            if j < head.len() {
                assert(encode_utf8(s)[j] == head[j]);
            } else {
                assert(encode_utf8(s)[j] == tail[j - head.len()]);
            }
        }
    }
}

proof fn lemma_split_at_nul(a1: Seq<u8>, b1: Seq<u8>, a2: Seq<u8>, b2: Seq<u8>)
    requires
        a1 + seq![0u8] + b1 == a2 + seq![0u8] + b2,
        forall|j: int| 0 <= j < a1.len() ==> a1[j] != 0,
        forall|j: int| 0 <= j < a2.len() ==> a2[j] != 0,
    ensures
        a1 == a2,
        b1 == b2,
{
    let x = a1 + seq![0u8] + b1;
    let y = a2 + seq![0u8] + b2;
    if a1.len() < a2.len() {
        assert(x[a1.len() as int] == 0);
        assert(y[a1.len() as int] == a2[a1.len() as int]);
    } else if a2.len() < a1.len() {
        assert(y[a2.len() as int] == 0);
        assert(x[a2.len() as int] == a1[a2.len() as int]);
    } else {
        assert(a1 =~= x.take(a1.len() as int));
        assert(a2 =~= y.take(a2.len() as int));
        assert(b1 =~= x.skip(a1.len() as int + 1));
        assert(b2 =~= y.skip(a2.len() as int + 1));
    }
}

/// The NUL separator keeps hash inputs apart: two (flag, key) pairs whose
/// flag names hold no NUL character hash the same bytes only when they are
/// the same pair.
pub proof fn lemma_hash_input_injective(flag1: Seq<char>, key1: Seq<char>, flag2: Seq<char>, key2: Seq<char>)
    requires
        !flag1.contains('\0'),
        !flag2.contains('\0'),
        hash_input(flag1, key1) == hash_input(flag2, key2),
    ensures
        flag1 == flag2,
        key1 == key2,
{
    lemma_encoding_has_no_nul(flag1);
    lemma_encoding_has_no_nul(flag2);
    lemma_split_at_nul(encode_utf8(flag1), encode_utf8(key1), encode_utf8(flag2), encode_utf8(key2));
    encode_utf8_decode_utf8(flag1);
    encode_utf8_decode_utf8(flag2);
    encode_utf8_decode_utf8(key1);
    encode_utf8_decode_utf8(key2);
}

/// FNV-1a of no bytes is the offset basis; each further byte is xor-ed into
/// the hash, which is then multiplied by the FNV prime with wrap-around.
pub proof fn lemma_fnv1a_steps(data: Seq<u8>, byte: u8)
    ensures
        fnv1a_spec(Seq::<u8>::empty()) == FNV_OFFSET,
        fnv1a_spec(data.push(byte)) == (fnv1a_spec(data) ^ (byte as u64)).wrapping_mul(FNV_PRIME),
{
    assert(data.push(byte).drop_last() =~= data);
}

proof fn lemma_encode_push(s: Seq<char>, c: char)
    ensures
        encode_utf8(s.push(c)) == encode_utf8(s) + encode_scalar(c as u32),
    decreases s.len(),
{
    let t = s.push(c);
    if s.len() == 0 {
        assert(t[0] == c);
        assert(t.drop_first() =~= Seq::<char>::empty());
        assert(encode_utf8(t.drop_first()) =~= Seq::<u8>::empty());
        assert(encode_utf8(s) =~= Seq::<u8>::empty());
        assert(encode_utf8(t) =~= encode_scalar(c as u32));
    } else {
        assert(t[0] == s[0]);
        assert(t.drop_first() =~= s.drop_first().push(c));
        lemma_encode_push(s.drop_first(), c);
        assert(encode_utf8(t) =~= encode_utf8(s) + encode_scalar(c as u32));
    }
}

/// The bucket of a (flag, key) pair is FNV-1a, modulo 100, of every byte of
/// the flag's UTF-8, a NUL byte, and every byte of the key's UTF-8.
pub proof fn law_bucket_hashes_the_whole_pair(flag: Seq<char>, key: Seq<char>)
    ensures
        bucket_spec(flag, key) as u64 == fnv1a_spec(encode_utf8(flag) + seq![0u8] + encode_utf8(key)) % 100,
        bucket_spec(flag, Seq::empty()) as u64 == (fnv1a_spec(encode_utf8(flag)) ^ 0u64).wrapping_mul(FNV_PRIME)
            % 100,
{
    assert(encode_utf8(Seq::<char>::empty()) =~= Seq::<u8>::empty());
    assert(hash_input(flag, Seq::empty()) =~= encode_utf8(flag).push(0u8));
    lemma_fnv1a_steps(encode_utf8(flag), 0u8);
}

/// One more character at the end of a key carries the hash of the pair one
/// FNV-1a step per byte of its UTF-8 further: however long the key, its last
/// character counts. For an ASCII character that is a single step.
pub proof fn law_bucket_extends_the_key(flag: Seq<char>, key: Seq<char>, c: char)
    ensures
        bucket_spec(flag, key.push(c)) as u64 == fnv1a_spec(hash_input(flag, key) + encode_scalar(c as u32))
            % 100,
        (c as u32) < 0x80 ==> bucket_spec(flag, key.push(c)) as u64 == (fnv1a_spec(hash_input(flag, key))
            ^ (c as u64)).wrapping_mul(FNV_PRIME) % 100,
{
    lemma_encode_push(key, c);
    assert(hash_input(flag, key.push(c)) =~= hash_input(flag, key) + encode_scalar(c as u32));
    if (c as u32) < 0x80 {
        let u = c as u32;
        let b = u as u8;
        assert((u & 0x7F) as u8 == u as u8) by (bit_vector)
            requires
                u < 0x80,
        ;
        assert(encode_scalar(u) =~= seq![b]);
        assert(hash_input(flag, key) + seq![b] =~= hash_input(flag, key).push(b));
        lemma_fnv1a_steps(hash_input(flag, key), b);
        assert(b as u64 == c as u64);
    }
}

} // verus!
