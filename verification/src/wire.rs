use vstd::prelude::*;

verus! {

/// The eight big-endian bytes of `n`, as a 64-bit `usize::to_be_bytes` gives them.
pub open spec fn be_bytes(n: u64) -> Seq<u8> {
    seq![
        ((n / 0x100_0000_0000_0000) % 256) as u8,
        ((n / 0x1_0000_0000_0000) % 256) as u8,
        ((n / 0x100_0000_0000) % 256) as u8,
        ((n / 0x1_0000_0000) % 256) as u8,
        ((n / 0x100_0000) % 256) as u8,
        ((n / 0x1_0000) % 256) as u8,
        ((n / 0x100) % 256) as u8,
        (n % 256) as u8,
    ]
}

/// The `i32` that four big-endian bytes hold in two's complement.
pub open spec fn be_i32(b0: u8, b1: u8, b2: u8, b3: u8) -> int {
    let u = b0 * 0x100_0000 + b1 * 0x1_0000 + b2 * 0x100 + b3;
    if u < 0x8000_0000 { u } else { u - 0x1_0000_0000 }
}

/// Encodes a count (of pictures, or of views granted) in eight big-endian bytes.
pub fn count_bytes(n: u64) -> (bytes: Vec<u8>)
    ensures
        bytes@ == be_bytes(n),
        bytes@[7] == n % 256,
{
    let mut bytes: Vec<u8> = Vec::new();
    bytes.push(((n / 0x100_0000_0000_0000) % 256) as u8);
    bytes.push(((n / 0x1_0000_0000_0000) % 256) as u8);
    bytes.push(((n / 0x100_0000_0000) % 256) as u8);
    bytes.push(((n / 0x1_0000_0000) % 256) as u8);
    bytes.push(((n / 0x100_0000) % 256) as u8);
    bytes.push(((n / 0x1_0000) % 256) as u8);
    bytes.push(((n / 0x100) % 256) as u8);
    bytes.push((n % 256) as u8);
    assert(bytes@ =~= be_bytes(n));
    bytes
}

/// Number of views a grant message asks for: its eighth byte, the low byte of
/// the big-endian count.
pub fn requested_views(message: &[u8]) -> (views: u8)
    requires
        message@.len() >= 8,
    ensures
        views == message@[7],
{
    message[7]
}

/// Number of pictures announced by a catalog message: the `i32` held by its
/// bytes four to seven in big-endian order.
pub fn announced_pictures(message: &[u8]) -> (count: i32)
    requires
        message@.len() >= 8,
    ensures
        count == be_i32(message@[4], message@[5], message@[6], message@[7]),
{
    let u: u32 = (message[4] as u32) * 0x100_0000 + (message[5] as u32) * 0x1_0000
        + (message[6] as u32) * 0x100 + (message[7] as u32);
    if u < 0x8000_0000 {
        u as i32
    } else {
        let below: u32 = u - 0x8000_0000;
        (below as i32) - 0x7fff_ffff - 1
    }
}

/// A count below 2^31 sent as eight big-endian bytes is read back unchanged
/// from the last four of them.
pub proof fn lemma_count_round_trip(n: u64)
    requires
        n < 0x8000_0000,
    ensures
        be_i32(be_bytes(n)[4], be_bytes(n)[5], be_bytes(n)[6], be_bytes(n)[7]) == n,
{
    let q1 = n / 0x100;
    let q2 = n / 0x1_0000;
    let q3 = n / 0x100_0000;
    assert(n == q1 * 256 + n % 256);
    assert(q2 == q1 / 256);
    assert(q3 == q2 / 256);
    assert(q1 == q2 * 256 + q1 % 256);
    assert(q2 == q3 * 256 + q2 % 256);
    assert(q3 < 128);
}

/// A view grant of `v` views is read back as its low byte.
pub proof fn lemma_view_grant_round_trip(v: u64)
    ensures
        be_bytes(v)[7] == v % 256,
{
}

/// Whether `s` begins with `prefix`.
pub open spec fn has_prefix<T>(s: Seq<T>, prefix: Seq<T>) -> bool {
    s.len() >= prefix.len() && s.take(prefix.len() as int) == prefix
}

/// Whether `s` begins with every item of `prefix`, in order.
pub open spec fn begins_with<T>(s: Seq<T>, prefix: Seq<T>) -> bool {
    s.len() >= prefix.len() && forall|i: int| 0 <= i < prefix.len() ==> s[i] == prefix[i]
}

/// Whether the bytes of `s` begin with those of `prefix`.
pub fn starts_with_bytes(s: &[u8], prefix: &[u8]) -> (b: bool)
    ensures
        b == has_prefix(s@, prefix@),
{
    if s.len() < prefix.len() {
        return false;
    }
    let mut i: usize = 0;
    while i < prefix.len()
        invariant
            i <= prefix@.len() <= s@.len(),
            forall|j: int| 0 <= j < i ==> s@[j] == prefix@[j],
        decreases prefix@.len() - i,
    {
        if s[i] != prefix[i] {
            assert(s@.take(prefix@.len() as int)[i as int] != prefix@[i as int]);
            return false;
        }
        i = i + 1;
    }
    assert(s@.take(prefix@.len() as int) =~= prefix@);
    true
}

/// Whether the characters of `s` begin with those of `prefix`.
pub fn starts_with_chars(s: &[char], prefix: &[char]) -> (b: bool)
    ensures
        b == has_prefix(s@, prefix@),
{
    if s.len() < prefix.len() {
        return false;
    }
    let mut i: usize = 0;
    while i < prefix.len()
        invariant
            i <= prefix@.len() <= s@.len(),
            forall|j: int| 0 <= j < i ==> s@[j] == prefix@[j],
        decreases prefix@.len() - i,
    {
        if s[i] != prefix[i] {
            assert(s@.take(prefix@.len() as int)[i as int] != prefix@[i as int]);
            return false;
        }
        i = i + 1;
    }
    assert(s@.take(prefix@.len() as int) =~= prefix@);
    true
}

} // verus!
