//! Stable identifiers of event occurrences.
use sha2::Digest;
use vstd::prelude::*;

verus! {

/// The SHA-256 digest of `data`.
pub uninterp spec fn sha256_digest(data: Seq<u8>) -> Seq<u8>;

/// Relies on sha2's `Sha256::digest`: the 32-byte SHA-256 digest of the input, which
/// depends on the input bytes alone.
#[verifier::external_body]
fn sha256(data: &[u8]) -> (r: Vec<u8>)
    ensures
        r@ == sha256_digest(data@),
        r@.len() == 32,
{
    sha2::Sha256::digest(data).to_vec()
}

/// The year as a four-byte big-endian two's-complement integer.
pub open spec fn year_bytes(y: int) -> Seq<u8> {
    let u = if y < 0 { y + 0x1_0000_0000 } else { y };
    seq![
        (u / 0x100_0000) as u8,
        (u / 0x1_0000 % 0x100) as u8,
        (u / 0x100 % 0x100) as u8,
        (u % 0x100) as u8,
    ]
}

/// The bytes hashed for the occurrence of `summary` in `year`.
pub open spec fn event_key(year: int, summary: Seq<u8>) -> Seq<u8> {
    year_bytes(year) + summary
}

/// ASCII of the lowercase hexadecimal digit `n` (0..=15).
pub open spec fn hex_digit(n: int) -> u8 {
    if n < 10 { (48 + n) as u8 } else { (87 + n) as u8 }
}

/// Lowercase hexadecimal text of `b`, two digits per byte.
pub open spec fn hex_lower(b: Seq<u8>) -> Seq<u8>
    decreases b.len(),
{
    if b.len() == 0 {
        seq![]
    } else {
        hex_lower(b.drop_last()) + seq![hex_digit(b.last() as int / 16), hex_digit(b.last() as int % 16)]
    }
}

/// The identifier of the occurrence of `summary` in `year`.
pub open spec fn uid_of(year: int, summary: Seq<u8>) -> Seq<u8> {
    hex_lower(sha256_digest(event_key(year, summary)))
}

/// The bytes that identify an occurrence: the year, big-endian, then the summary.
pub fn event_key_bytes(year: i32, summary: &[u8]) -> (r: Vec<u8>)
    ensures
        r@ == event_key(year as int, summary@),
{
    let u: u32 = if year < 0 {
        ((year + 1 + 0x7fff_ffff) as u32) + 0x8000_0000
    } else {
        year as u32
    };
    let mut out: Vec<u8> = Vec::new();
    out.push((u / 0x100_0000) as u8);
    out.push((u / 0x1_0000 % 0x100) as u8);
    out.push((u / 0x100 % 0x100) as u8);
    out.push((u % 0x100) as u8);
    assert(out@ =~= year_bytes(year as int));
    let mut i: usize = 0;
    while i < summary.len()
        invariant
            i <= summary@.len(),
            out@ =~= year_bytes(year as int) + summary@.take(i as int),
        decreases summary@.len() - i,
    {
        out.push(summary[i]);
        i = i + 1;
        assert(out@ =~= year_bytes(year as int) + summary@.take(i as int));
    }
    assert(summary@.take(i as int) =~= summary@);
    out
}

/// Lowercase hexadecimal text of `bytes`, two ASCII digits per byte.
pub fn hex_encode(bytes: &[u8]) -> (r: Vec<u8>)
    ensures
        r@ == hex_lower(bytes@),
{
    let mut out: Vec<u8> = Vec::new();
    let mut i: usize = 0;
    while i < bytes.len()
        invariant
            i <= bytes@.len(),
            out@ == hex_lower(bytes@.take(i as int)),
        decreases bytes@.len() - i,
    {
        let b = bytes[i];
        out.push(hex_char(b / 16));
        out.push(hex_char(b % 16));
        let ghost taken = bytes@.take(i + 1);
        assert(taken.drop_last() =~= bytes@.take(i as int));
        i = i + 1;
    }
    assert(bytes@.take(i as int) =~= bytes@);
    out
}

fn hex_char(n: u8) -> (r: u8)
    requires
        n < 16,
    ensures
        r == hex_digit(n as int),
{
    if n < 10 {
        48 + n
    } else {
        87 + n
    }
}

/// The identifier of the occurrence of `summary` in `year`: the lowercase hexadecimal
/// SHA-256 digest of the year's four big-endian bytes followed by the summary.
pub fn hash_event(year: i32, summary: &[u8]) -> (r: Vec<u8>)
    ensures
        r@ == uid_of(year as int, summary@),
{
    let key = event_key_bytes(year, summary);
    let digest = sha256(key.as_slice());
    hex_encode(digest.as_slice())
}

/// The hashed bytes tell occurrences apart: different years or different summaries
/// give different keys, so identifiers differ wherever the digests do.
pub proof fn lemma_event_key_injective(y1: i32, s1: Seq<u8>, y2: i32, s2: Seq<u8>)
    requires
        event_key(y1 as int, s1) == event_key(y2 as int, s2),
    ensures
        y1 == y2,
        s1 == s2,
{
    let k1 = event_key(y1 as int, s1);
    let k2 = event_key(y2 as int, s2);
    assert(k1[0] == k2[0] && k1[1] == k2[1] && k1[2] == k2[2] && k1[3] == k2[3]);
    let u1 = if y1 < 0 { y1 + 0x1_0000_0000 } else { y1 as int };
    let u2 = if y2 < 0 { y2 + 0x1_0000_0000 } else { y2 as int };
    lemma_byte_split(u1);
    lemma_byte_split(u2);
    assert(s1 =~= k1.subrange(4, k1.len() as int));
    assert(s2 =~= k2.subrange(4, k2.len() as int));
}

proof fn lemma_byte_split(u: int)
    requires
        0 <= u < 0x1_0000_0000,
    ensures
        0 <= u / 0x100_0000 < 0x100,
        0 <= u / 0x1_0000 % 0x100 < 0x100,
        0 <= u / 0x100 % 0x100 < 0x100,
        0 <= u % 0x100 < 0x100,
        u == (u / 0x100_0000) * 0x100_0000 + (u / 0x1_0000 % 0x100) * 0x1_0000 + (u / 0x100
            % 0x100) * 0x100 + u % 0x100,
{
    assert(0 <= u / 0x100_0000 < 0x100) by (nonlinear_arith)
        requires
            0 <= u < 0x1_0000_0000,
    ;
    assert(u == (u / 0x100_0000) * 0x100_0000 + (u / 0x1_0000 % 0x100) * 0x1_0000 + (u / 0x100
        % 0x100) * 0x100 + u % 0x100) by (nonlinear_arith)
        requires
            0 <= u < 0x1_0000_0000,
    ;
}

pub proof fn lemma_hex_lower_len(b: Seq<u8>)
    ensures
        hex_lower(b).len() == 2 * b.len(),
    decreases b.len(),
{
    if b.len() > 0 {
        lemma_hex_lower_len(b.drop_last());
    }
}

/// Hexadecimal text tells bytes apart: identifiers are equal only where the digests are.
pub proof fn lemma_hex_lower_injective(a: Seq<u8>, b: Seq<u8>)
    requires
        hex_lower(a) == hex_lower(b),
    ensures
        a == b,
    decreases a.len(),
{
    lemma_hex_lower_len(a);
    lemma_hex_lower_len(b);
    if a.len() > 0 {
        lemma_hex_lower_len(a.drop_last());
        lemma_hex_lower_len(b.drop_last());
        let n = hex_lower(a).len();
        let ha = hex_lower(a.drop_last());
        let hb = hex_lower(b.drop_last());
        assert(hex_lower(a).take(n - 2) =~= ha);
        assert(hex_lower(b).take(n - 2) =~= hb);
        lemma_hex_lower_injective(a.drop_last(), b.drop_last());
        assert(hex_lower(a)[n - 2] == hex_digit(a.last() as int / 16));
        assert(hex_lower(b)[n - 2] == hex_digit(b.last() as int / 16));
        assert(hex_lower(a)[n - 1] == hex_digit(a.last() as int % 16));
        assert(hex_lower(b)[n - 1] == hex_digit(b.last() as int % 16));
        assert(a.last() == b.last());
        assert(a =~= a.drop_last().push(a.last()));
        assert(b =~= b.drop_last().push(b.last()));
    } else {
        assert(a =~= b);
    }
}

/// Distinct occurrences share an identifier only through a SHA-256 collision: two
/// different keys with the same digest.
pub proof fn lemma_uid_distinct(y1: i32, s1: Seq<u8>, y2: i32, s2: Seq<u8>)
    requires
        y1 != y2 || s1 != s2,
        uid_of(y1 as int, s1) == uid_of(y2 as int, s2),
    ensures
        event_key(y1 as int, s1) != event_key(y2 as int, s2),
        sha256_digest(event_key(y1 as int, s1)) == sha256_digest(event_key(y2 as int, s2)),
{
    lemma_hex_lower_injective(
        sha256_digest(event_key(y1 as int, s1)),
        sha256_digest(event_key(y2 as int, s2)),
    );
    if event_key(y1 as int, s1) == event_key(y2 as int, s2) {
        lemma_event_key_injective(y1, s1, y2, s2);
    }
}

/// An identifier is a function of the year and the summary alone.
pub proof fn lemma_uid_deterministic(y1: i32, s1: Seq<u8>, y2: i32, s2: Seq<u8>)
    requires
        y1 == y2,
        s1 == s2,
    ensures
        uid_of(y1 as int, s1) == uid_of(y2 as int, s2),
{
}

} // verus!
