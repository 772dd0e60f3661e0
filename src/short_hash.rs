use vstd::prelude::*;

use sha2::Digest;

use crate::text::{chars_of, string_of};

verus! {

/// The SHA-256 digest of a byte string.
pub uninterp spec fn sha256_of(data: Seq<u8>) -> Seq<u8>;

/// Relies on sha2's `Sha256::digest`: the 32-byte SHA-256 digest of `data`.
#[verifier::external_body]
pub(crate) fn sha256_digest(data: &[u8]) -> (r: Vec<u8>)
    ensures
        r@ == sha256_of(data@),
        r@.len() == 32,
{
    sha2::Sha256::digest(data).to_vec()
}

/// Lowercase hex digit of a value below 16.
pub open spec fn hex_digit(n: int) -> char {
    if n < 10 {
        (n + '0' as int) as char
    } else {
        (n - 10 + 'a' as int) as char
    }
}

/// Two lowercase hex digits per byte.
pub open spec fn hex_of(b: Seq<u8>) -> Seq<char>
    decreases b.len(),
{
    if b.len() == 0 {
        Seq::empty()
    } else {
        hex_of(b.drop_last()).push(hex_digit(b.last() as int / 16)).push(
            hex_digit(b.last() as int % 16),
        )
    }
}

pub proof fn lemma_hex_len(b: Seq<u8>)
    ensures
        hex_of(b).len() == 2 * b.len(),
    decreases b.len(),
{
    if b.len() > 0 {
        lemma_hex_len(b.drop_last());
    }
}

proof fn lemma_hex_prefix(b: Seq<u8>, n: int)
    requires
        0 <= n <= b.len(),
    ensures
        hex_of(b).subrange(0, 2 * n) == hex_of(b.subrange(0, n)),
    decreases b.len() - n,
{
    lemma_hex_len(b);
    if n < b.len() {
        lemma_hex_prefix(b, n + 1);
        let t = b.subrange(0, n + 1);
        assert(t.drop_last() =~= b.subrange(0, n));
        lemma_hex_len(t.drop_last());
        assert(hex_of(t).subrange(0, 2 * n) =~= hex_of(t.drop_last()));
        assert(hex_of(b).subrange(0, 2 * n) =~= hex_of(b).subrange(0, 2 * n + 2).subrange(0, 2 * n));
    } else {
        assert(b.subrange(0, n) =~= b);
        assert(hex_of(b).subrange(0, 2 * n) =~= hex_of(b));
    }
}

pub(crate) fn hex_char(n: u8) -> (r: char)
    requires
        n < 16,
    ensures
        r == hex_digit(n as int),
{
    if n < 10 {
        (48u8 + n) as char
    } else {
        (87u8 + n) as char
    }
}

/// The session short hash: the first seven hex digits of the SHA-256 of
/// `"{tool}:{agent_id}"`.
pub open spec fn short_hash_of(tool: Seq<char>, agent_id: Seq<char>) -> Seq<char> {
    hex_of(sha256_of(vstd::utf8::encode_utf8(tool + seq![':'] + agent_id))).subrange(0, 7)
}

/// The 7-character short hash of an agent session.
pub fn generate_short_hash(agent_id: &str, tool: &str) -> (r: String)
    ensures
        r@ == short_hash_of(tool@, agent_id@),
        r@.len() == 7,
{
    let mut combined = chars_of(tool);
    combined.push(':');
    let id = chars_of(agent_id);
    let mut i: usize = 0;
    let ghost head = combined@;
    while i < id.len()
        invariant
            0 <= i <= id@.len(),
            combined@ == head + id@.subrange(0, i as int),
        decreases id@.len() - i,
    {
        combined.push(id[i]);
        i = i + 1;
        assert(combined@ =~= head + id@.subrange(0, i as int));
    }
    assert(id@.subrange(0, id@.len() as int) =~= id@);
    assert(combined@ =~= tool@ + seq![':'] + agent_id@);
    let text = string_of(&combined);
    let digest = sha256_digest(text.as_str().as_bytes());
    let mut hex: Vec<char> = Vec::new();
    let mut k: usize = 0;
    while k < 4
        invariant
            0 <= k <= 4,
            digest@.len() == 32,
            hex@ == hex_of(digest@.subrange(0, k as int)),
        decreases 4 - k,
    {
        let b = digest[k];
        hex.push(hex_char(b / 16));
        hex.push(hex_char(b % 16));
        assert(digest@.subrange(0, k + 1).drop_last() =~= digest@.subrange(0, k as int));
        k = k + 1;
    }
    proof {
        lemma_hex_prefix(digest@, 4);
        lemma_hex_len(digest@);
        lemma_hex_len(digest@.subrange(0, 4));
    }
    hex.pop();
    assert(hex@ =~= hex_of(digest@).subrange(0, 7));
    string_of(&hex)
}

} // verus!
