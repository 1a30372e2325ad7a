//! Unsigned variable-length integers: seven bits per byte, low group first,
//! the high bit set on every byte but the last.
use vstd::prelude::*;

verus! {

/// The bytes that encode `n`.
pub open spec fn varint_bytes(n: nat) -> Seq<u8>
    decreases n,
{
    if n < 128 {
        seq![n as u8]
    } else {
        seq![(n % 128 + 128) as u8] + varint_bytes(n / 128)
    }
}

/// Reads one integer at the front of `s`: its value and the number of bytes
/// it took, or `None` where `s` ends before the integer does.
pub open spec fn varint_parse(s: Seq<u8>) -> Option<(nat, nat)>
    decreases s.len(),
{
    if s.len() == 0 {
        None
    } else if s[0] < 128 {
        Some((s[0] as nat, 1))
    } else {
        match varint_parse(s.drop_first()) {
            Some((v, k)) => Some(((s[0] - 128) as nat + 128 * v, k + 1)),
            None => None,
        }
    }
}

/// Reading an encoded integer gives it back, whatever bytes follow.
pub proof fn lemma_varint_parse_bytes(n: nat, rest: Seq<u8>)
    ensures
        varint_parse(varint_bytes(n) + rest) == Some((n, varint_bytes(n).len())),
    decreases n,
{
    let s = varint_bytes(n) + rest;
    if n >= 128 {
        lemma_varint_parse_bytes(n / 128, rest);
        assert(s.drop_first() =~= varint_bytes(n / 128) + rest);
    }
}

/// Appends the encoding of `n` to `out`.
pub fn write_varint(out: &mut Vec<u8>, n: u64)
    ensures
        final(out)@ == old(out)@ + varint_bytes(n as nat),
{
    let ghost start = out@;
    let mut m: u64 = n;
    while m >= 128
        invariant
            out@ + varint_bytes(m as nat) == start + varint_bytes(n as nat),
        decreases m,
    {
        let b: u8 = (m % 128 + 128) as u8;
        proof {
            assert(out@.push(b) + varint_bytes((m / 128) as nat) =~= out@ + varint_bytes(m as nat));
        }
        out.push(b);
        m = m / 128;
    }
    proof {
        assert(out@.push(m as u8) =~= out@ + varint_bytes(m as nat));
    }
    out.push(m as u8);
}

/// Reads the integer `n` that is encoded in `s` from `pos` on: its value and
/// the number of bytes it took.
pub fn read_varint(s: &[u8], pos: usize, Ghost(n): Ghost<nat>) -> (r: (u64, usize))
    requires
        n <= u64::MAX,
        pos + varint_bytes(n).len() <= s@.len(),
        s@.subrange(pos as int, pos + varint_bytes(n).len()) == varint_bytes(n),
    ensures
        r.0 == n,
        r.1 == varint_bytes(n).len(),
    decreases n,
{
    assert(s@[pos as int] == varint_bytes(n)[0]);
    let b = s[pos];
    if b < 128 {
        (b as u64, 1)
    } else {
        let ghost len = varint_bytes((n / 128) as nat).len();
        assert(s@.subrange(pos + 1, pos + 1 + len) =~= varint_bytes((n / 128) as nat)) by {
            assert(s@.subrange(pos + 1, pos + 1 + len) =~= s@.subrange(pos as int, pos + varint_bytes(n).len()).drop_first());
        }
        let (v, k) = read_varint(s, pos + 1, Ghost((n / 128) as nat));
        ((b - 128) as u64 + 128 * v, k + 1)
    }
}

} // verus!
