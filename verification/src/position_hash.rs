//! Positions derived from a secret, a counter and a key.
use vstd::arithmetic::power::pow;
use vstd::prelude::*;
use crate::oblivious::cmov_bytes;
use crate::prelude::PositionType;

verus! {

/// Bytes of a secret.
pub const SECRET_BYTES: usize = 20;

/// The lowest `n` bytes of `x`, the lowest first.
pub open spec fn le_bytes(x: int, n: int) -> Seq<u8>
    decreases n,
{
    if n <= 0 {
        Seq::empty()
    } else {
        seq![(x % 256) as u8] + le_bytes(x / 256, n - 1)
    }
}

/// The number whose bytes are `s`, the lowest first.
pub open spec fn le_value(s: Seq<u8>) -> int
    decreases s.len(),
{
    if s.len() == 0 {
        0
    } else {
        s[0] + 256 * le_value(s.drop_first())
    }
}

/// SHA-256 of a sequence of bytes.
pub uninterp spec fn sha256_of(input: Seq<u8>) -> Seq<u8>;

/// `sha2::Digest::digest` of `sha2::Sha256`: the hash of the bytes, which is a function of
/// them alone. What the hash is on given bytes is left unsaid.
#[verifier::external_body]
fn sha256(input: &[u8; 32]) -> (r: [u8; 32])
    ensures
        r@ == sha256_of(input@),
{
    <sha2::Sha256 as sha2::Digest>::digest(input).into()
}

/// The bytes that a position is hashed from: the secret, the counter and the key.
pub open spec fn hash_bytes(secret: Seq<u8>, counter: u64, key: u32) -> Seq<u8> {
    secret + le_bytes(counter as int, 8) + le_bytes(key as int, 4)
}

/// The position that a digest names among `max_positions`.
pub open spec fn digest_position(digest: Seq<u8>, max_positions: int) -> int {
    le_value(digest.take(8)) % max_positions
}

/// The position that a secret, a counter and a key name among `max_positions`.
pub open spec fn position(secret: Seq<u8>, counter: u64, key: u32, max_positions: int) -> PositionType {
    digest_position(sha256_of(hash_bytes(secret, counter, key)), max_positions) as PositionType
}

/// Numbers have as many bytes as asked for.
proof fn lemma_le_bytes(x: int, n: int)
    requires
        0 <= n,
    ensures
        le_bytes(x, n).len() == n,
    decreases n,
{
    if n > 0 {
        lemma_le_bytes(x / 256, n - 1);
    }
}

/// The value of eight bytes fits in a word.
proof fn lemma_le_value(s: Seq<u8>)
    ensures
        0 <= le_value(s),
        s.len() <= 8 ==> le_value(s) < (1u128 << (8 * s.len()) as u128),
        s.len() <= 8 ==> le_value(s) <= 0xffff_ffff_ffff_ffff,
    decreases s.len(),
{
    if 0 < s.len() {
        lemma_le_value(s.drop_first());
        if s.len() <= 8 {
            let n = s.len() as u128;
            assert(256 * (1u128 << (8 * (n - 1)) as u128) == (1u128 << (8 * n) as u128)
                && (1u128 << (8 * n) as u128) <= 0x1_0000_0000_0000_0000) by (bit_vector)
                requires
                    1 <= n <= 8,
            ;
        }
    } else {
        assert(1u128 << 0u128 == 1) by (bit_vector);
    }
}

/// A position is one of the positions.
pub proof fn lemma_position(secret: Seq<u8>, counter: u64, key: u32, max_positions: int)
    requires
        1 <= max_positions <= u32::MAX,
    ensures
        position(secret, counter, key, max_positions) < max_positions,
{
    vstd::arithmetic::div_mod::lemma_mod_bound(
        le_value(sha256_of(hash_bytes(secret, counter, key)).take(8)),
        max_positions,
    );
}

/// The lowest bytes of a number say what it is up to a multiple of their power of 256.
proof fn lemma_le_round_trip(x: int, n: int)
    requires
        0 <= x,
        0 <= n,
    ensures
        le_value(le_bytes(x, n)) == x % pow(256, n as nat),
    decreases n,
{
    reveal(pow);
    lemma_le_bytes(x, n);
    if n > 0 {
        let q = x / 256;
        let r = x % 256;
        let w = pow(256, (n - 1) as nat);
        lemma_le_round_trip(q, n - 1);
        vstd::arithmetic::power::lemma_pow_positive(256, (n - 1) as nat);
        let s = le_bytes(x, n);
        assert(s.drop_first() =~= le_bytes(q, n - 1));
        assert(s[0] == r);
        vstd::arithmetic::div_mod::lemma_mod_breakdown(x, 256, w);
        assert(256 * (q % w) + r == x % (256 * w));
    } else {
        vstd::arithmetic::div_mod::lemma_mod_bound(x, 1);
    }
}

/// No two places share their hash input: secrets, counters and keys that differ give other
/// bytes.
pub proof fn lemma_hash_bytes_differ(
    secret: Seq<u8>,
    counter: u64,
    key: u32,
    other_secret: Seq<u8>,
    other_counter: u64,
    other_key: u32,
)
    requires
        secret.len() == 20,
        other_secret.len() == 20,
        hash_bytes(secret, counter, key) == hash_bytes(other_secret, other_counter, other_key),
    ensures
        secret == other_secret,
        counter == other_counter,
        key == other_key,
{
    let a = hash_bytes(secret, counter, key);
    let b = hash_bytes(other_secret, other_counter, other_key);
    lemma_le_bytes(counter as int, 8);
    lemma_le_bytes(other_counter as int, 8);
    lemma_le_bytes(key as int, 4);
    lemma_le_bytes(other_key as int, 4);
    assert(a.subrange(0, 20) =~= secret);
    assert(b.subrange(0, 20) =~= other_secret);
    assert(a.subrange(20, 28) =~= le_bytes(counter as int, 8));
    assert(b.subrange(20, 28) =~= le_bytes(other_counter as int, 8));
    assert(a.subrange(28, 32) =~= le_bytes(key as int, 4));
    assert(b.subrange(28, 32) =~= le_bytes(other_key as int, 4));
    lemma_le_round_trip(counter as int, 8);
    lemma_le_round_trip(other_counter as int, 8);
    lemma_le_round_trip(key as int, 4);
    lemma_le_round_trip(other_key as int, 4);
    assert(pow(256, 8) == 0x1_0000_0000_0000_0000 && pow(256, 4) == 0x1_0000_0000) by {
        reveal(pow);
        reveal_with_fuel(pow, 9);
    }
    vstd::arithmetic::div_mod::lemma_small_mod(counter as nat, 0x1_0000_0000_0000_0000);
    vstd::arithmetic::div_mod::lemma_small_mod(other_counter as nat, 0x1_0000_0000_0000_0000);
    vstd::arithmetic::div_mod::lemma_small_mod(key as nat, 0x1_0000_0000);
    vstd::arithmetic::div_mod::lemma_small_mod(other_key as nat, 0x1_0000_0000);
}

/// The first eight bytes of a digest alone name the position: a digest that starts with the
/// bytes of a word, the lowest first, names the remainder of that word.
pub proof fn lemma_digest_position(digest: Seq<u8>, word: u64, max_positions: int)
    requires
        8 <= digest.len(),
        1 <= max_positions,
        digest.take(8) == le_bytes(word as int, 8),
    ensures
        digest_position(digest, max_positions) == word as int % max_positions,
{
    lemma_le_round_trip(word as int, 8);
    assert(pow(256, 8) == 0x1_0000_0000_0000_0000) by {
        reveal(pow);
        reveal_with_fuel(pow, 9);
    }
    vstd::arithmetic::div_mod::lemma_small_mod(word as nat, 0x1_0000_0000_0000_0000);
}

/// Writes the lowest `n` bytes of `x` to `out`, from place `start` on.
fn put_bytes(out: &mut [u8; 32], start: usize, x: u64, n: usize)
    requires
        start + n <= 32,
        n <= 8,
    ensures
        final(out)@.subrange(start as int, start + n) == le_bytes(x as int, n as int),
        forall|k: int|
            0 <= k < 32 && !(start <= k < start + n) ==> #[trigger] final(out)@[k] == old(out)@[k],
{
    let ghost before = out@;
    let mut rest: u64 = x;
    let mut i: usize = 0;
    let ghost mut done: Seq<u8> = Seq::empty();
    while i < n
        invariant
            i <= n <= 8,
            start + n <= 32,
            done.len() == i,
            done + le_bytes(rest as int, n - i) == le_bytes(x as int, n as int),
            forall|k: int| 0 <= k < i ==> out@[start + k] == #[trigger] done[k],
            forall|k: int|
                0 <= k < 32 && !(start <= k < start + i) ==> #[trigger] out@[k] == before[k],
        decreases n - i,
    {
        let byte: u8 = (rest % 256) as u8;
        out[start + i] = byte;
        proof {
            let grown = done.push(byte);
            assert(grown + le_bytes(rest as int / 256, n - i - 1) =~= done + le_bytes(
                rest as int,
                n - i,
            ));
            done = grown;
        }
        rest = rest / 256;
        i += 1;
    }
    proof {
        assert(done + le_bytes(rest as int, 0) =~= done);
        assert(out@.subrange(start as int, start + n) =~= done) by {
            assert forall|k: int| 0 <= k < n implies out@.subrange(start as int, start + n)[k]
                == done[k] by {
                assert(out@[start + k] == done[k]);
            }
        }
    }
}

/// The bytes that a position is hashed from.
pub fn hash_input(secret: &[u8; 20], counter: u64, key: u32) -> (r: [u8; 32])
    ensures
        r@ == hash_bytes(secret@, counter, key),
{
    let mut input: [u8; 32] = [0u8; 32];
    let mut i: usize = 0;
    while i < SECRET_BYTES
        invariant
            i <= 20,
            forall|k: int| 0 <= k < i ==> #[trigger] input@[k] == secret@[k],
        decreases 20 - i,
    {
        input[i] = secret[i];
        i += 1;
    }
    let ghost first = input@;
    put_bytes(&mut input, SECRET_BYTES, counter, 8);
    let ghost second = input@;
    put_bytes(&mut input, SECRET_BYTES + 8, key as u64, 4);
    proof {
        lemma_le_bytes(counter as int, 8);
        lemma_le_bytes(key as int, 4);
        let goal = hash_bytes(secret@, counter, key);
        assert forall|k: int| 0 <= k < 32 implies input@[k] == goal[k] by {
            if k < 20 {
                assert(input@[k] == second[k]);
                assert(second[k] == first[k]);
            } else if k < 28 {
                assert(input@[k] == second[k]);
                assert(second.subrange(20, 28)[k - 20] == second[k]);
            } else {
                assert(input@.subrange(28, 32)[k - 28] == input@[k]);
            }
        }
        assert(input@ =~= goal);
    }
    input
}

/// The position that a digest names.
pub fn position_from_digest(digest: &[u8; 32], max_positions: usize) -> (r: PositionType)
    requires
        1 <= max_positions <= 0x1_0000_0000,
    ensures
        r == digest_position(digest@, max_positions as int),
        r < max_positions,
{
    let ghost low = digest@.take(8);
    let mut value: u64 = 0;
    let mut i: usize = 8;
    while i > 0
        invariant
            i <= 8,
            low == digest@.take(8),
            value == le_value(low.subrange(i as int, 8)),
        decreases i,
    {
        i -= 1;
        proof {
            let s = low.subrange(i as int, 8);
            assert(s.drop_first() =~= low.subrange(i + 1, 8));
            assert(s[0] == digest@[i as int]);
            lemma_le_value(s);
        }
        value = value * 256 + digest[i] as u64;
    }
    proof {
        assert(low.subrange(0, 8) =~= low);
    }
    (value % max_positions as u64) as PositionType
}

/// The position that a secret, a counter and a key name.
pub fn hash_position(secret: &[u8; 20], counter: u64, key: u32, max_positions: usize) -> (r:
    PositionType)
    requires
        1 <= max_positions <= u32::MAX,
    ensures
        r == position(secret@, counter, key, max_positions as int),
        r < max_positions,
{
    let input: [u8; 32] = hash_input(secret, counter, key);
    let digest: [u8; 32] = sha256(&input);
    position_from_digest(&digest, max_positions)
}

/// The new secret if `use_new` holds, the old one otherwise.
pub fn select_secret(old_secret: &[u8; 20], new_secret: &[u8; 20], use_new: bool) -> (r: [u8; 20])
    ensures
        r == (if use_new {
            *new_secret
        } else {
            *old_secret
        }),
{
    let mut selected: [u8; 20] = *old_secret;
    cmov_bytes(&mut selected, new_secret, use_new);
    selected
}

} // verus!
