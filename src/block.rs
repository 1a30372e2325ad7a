//! Front-coded blocks: a fixed number of byte strings stored as their shared
//! prefix followed by each string's remaining suffix, every length written as
//! a varint.
use vstd::prelude::*;
use core::cmp::Ordering;
use crate::order::{lex_cmp, compare_bytes};
use crate::varint::{varint_bytes, varint_parse, lemma_varint_parse_bytes, write_varint, read_varint};

verus! {

/// The byte strings held by a sequence of vectors.
pub open spec fn views(s: Seq<Vec<u8>>) -> Seq<Seq<u8>> {
    s.map_values(|v: Vec<u8>| v@)
}

/// Every value holds at least `p` bytes, and all agree on their first `p` bytes.
pub open spec fn is_common_prefix(vals: Seq<Seq<u8>>, p: nat) -> bool {
    &&& forall|i: int| 0 <= i < vals.len() ==> p <= (#[trigger] vals[i]).len()
    &&& forall|i: int, j: int|
        0 <= i < vals.len() && 0 <= j < p ==> #[trigger] vals[i][j] == vals[0][j]
}

/// `p` is a shared prefix length and `p + 1` is not.
pub open spec fn is_longest_common_prefix(vals: Seq<Seq<u8>>, p: nat) -> bool {
    is_common_prefix(vals, p) && !is_common_prefix(vals, p + 1)
}

/// The length of the longest prefix that all values share.
pub open spec fn shared_prefix_len(vals: Seq<Seq<u8>>) -> nat {
    choose|p: nat| is_longest_common_prefix(vals, p)
}

/// A shared prefix length that cannot grow is the longest one.
pub proof fn lemma_shared_prefix_len_is(vals: Seq<Seq<u8>>, p: nat)
    requires
        is_longest_common_prefix(vals, p),
    ensures
        shared_prefix_len(vals) == p,
        is_longest_common_prefix(vals, shared_prefix_len(vals)),
{
    let q = shared_prefix_len(vals);
    assert(is_longest_common_prefix(vals, q));
    if q < p {
        assert(is_common_prefix(vals, q + 1));
    } else if p < q {
        assert(is_common_prefix(vals, p + 1));
    }
}

/// Among non-empty inputs the longest shared prefix exists: searching up from
/// a shared length `q` finds it.
proof fn lemma_longest_from(vals: Seq<Seq<u8>>, q: nat)
    requires
        vals.len() > 0,
        is_common_prefix(vals, q),
    ensures
        is_longest_common_prefix(vals, shared_prefix_len(vals)),
    decreases vals[0].len() - q,
{
    if is_common_prefix(vals, q + 1) {
        assert(q + 1 <= vals[0].len());
        lemma_longest_from(vals, q + 1);
    } else {
        lemma_shared_prefix_len_is(vals, q);
    }
}

/// Bounds on the shared prefix length: it never exceeds any value's length;
/// among equal values it is their whole length; where some value is empty or
/// differs from the first in its first byte it is zero.
pub proof fn lemma_shared_prefix_len_bounds(vals: Seq<Seq<u8>>)
    requires
        vals.len() > 0,
    ensures
        forall|i: int| 0 <= i < vals.len() ==> shared_prefix_len(vals) <= #[trigger] vals[i].len(),
        (forall|i: int| 0 <= i < vals.len() ==> #[trigger] vals[i] == vals[0])
            ==> shared_prefix_len(vals) == vals[0].len(),
        (exists|i: int| 0 <= i < vals.len() && (#[trigger] vals[i].len() == 0 || vals[i][0] != vals[0][0]))
            ==> shared_prefix_len(vals) == 0,
{
    assert(is_common_prefix(vals, 0));
    lemma_longest_from(vals, 0);
    let p = shared_prefix_len(vals);
    if forall|i: int| 0 <= i < vals.len() ==> #[trigger] vals[i] == vals[0] {
        assert(is_common_prefix(vals, vals[0].len()));
        assert(!is_common_prefix(vals, vals[0].len() + 1));
        lemma_shared_prefix_len_is(vals, vals[0].len());
    }
    if exists|i: int| 0 <= i < vals.len() && (#[trigger] vals[i].len() == 0 || vals[i][0] != vals[0][0]) {
        let i = choose|i: int| 0 <= i < vals.len() && (#[trigger] vals[i].len() == 0 || vals[i][0] != vals[0][0]);
        assert(!is_common_prefix(vals, 1)) by {
            if vals[i].len() != 0 {
                assert(vals[i][0] != vals[0][0]);
            }
        }
        lemma_shared_prefix_len_is(vals, 0);
    }
}

/// The length of the longest prefix that all of `values` share.
#[verifier::loop_isolation(false)]
pub fn common_prefix_len(values: &[Vec<u8>]) -> (r: usize)
    requires
        values@.len() > 0,
    ensures
        r == shared_prefix_len(views(values@)),
        is_longest_common_prefix(views(values@), r as nat),
{
    let ghost vs = views(values@);
    let mut p: usize = values[0].len();
    assert(vs[0] == values@[0]@);
    let mut idx: usize = 1;
    while idx < values.len()
        invariant
            vs == views(values@),
            1 <= idx <= values@.len(),
            forall|i: int| 0 <= i < idx ==> p <= (#[trigger] vs[i]).len(),
            forall|i: int, j: int| 0 <= i < idx && 0 <= j < p ==> #[trigger] vs[i][j] == vs[0][j],
            p == vs[0].len() || exists|i: int|
                0 <= i < idx && ((#[trigger] vs[i]).len() == p || vs[i][p as int] != vs[0][p as int]),
        decreases values@.len() - idx,
    {
        let v = &values[idx];
        assert(vs[idx as int] == v@);
        assert(vs[0] == values@[0]@);
        let mut j: usize = 0;
        while j < p && j < v.len() && v[j] == values[0][j]
            invariant
                vs == views(values@),
                j <= p,
                j <= v@.len(),
                p <= vs[0].len(),
                v@ == vs[idx as int],
                forall|k: int| 0 <= k < j ==> k < v@.len() && #[trigger] v@[k] == vs[0][k],
            decreases p - j,
        {
            j = j + 1;
        }
        if j < p {
            assert(vs[idx as int].len() == j || vs[idx as int][j as int] != vs[0][j as int]);
        }
        p = j;
        idx = idx + 1;
    }
    assert(!is_common_prefix(vs, (p + 1) as nat)) by {
        if p != vs[0].len() {
            let i = choose|i: int|
                0 <= i < idx && ((#[trigger] vs[i]).len() == p || vs[i][p as int] != vs[0][p as int]);
            assert(vs[i].len() == p || vs[i][p as int] != vs[0][p as int]);
        } else {
            assert(vs[0].len() < p + 1);
        }
    }
    proof {
        lemma_shared_prefix_len_is(vs, p as nat);
    }
    p
}

/// One value's entry: the length of what follows the shared prefix, then
/// those bytes.
pub open spec fn entry_bytes(v: Seq<u8>, p: nat) -> Seq<u8> {
    varint_bytes((v.len() - p) as nat) + v.skip(p as int)
}

/// The entries of all values, in order.
pub open spec fn entries_bytes(vals: Seq<Seq<u8>>, p: nat) -> Seq<u8>
    decreases vals.len(),
{
    if vals.len() == 0 {
        Seq::empty()
    } else {
        entry_bytes(vals[0], p) + entries_bytes(vals.drop_first(), p)
    }
}

/// The layout of a block whose values share their first `p` bytes: the prefix
/// length, the prefix, then each value's entry.
pub open spec fn block_bytes(vals: Seq<Seq<u8>>, p: nat) -> Seq<u8> {
    varint_bytes(p) + vals[0].take(p as int) + entries_bytes(vals, p)
}

/// The bytes of the block that holds `vals`, compressed by their longest
/// shared prefix.
pub open spec fn encode_block(vals: Seq<Seq<u8>>) -> Seq<u8> {
    block_bytes(vals, shared_prefix_len(vals))
}

/// Reads `n` entries from `s`, each joined to `prefix`; `None` where `s` is
/// cut short or has bytes left over.
pub open spec fn decode_entries(s: Seq<u8>, prefix: Seq<u8>, n: nat) -> Option<Seq<Seq<u8>>>
    decreases n,
{
    if n == 0 {
        if s.len() == 0 {
            Some(Seq::empty())
        } else {
            None
        }
    } else {
        match varint_parse(s) {
            Some((l, k)) => if k + l <= s.len() {
                match decode_entries(s.skip((k + l) as int), prefix, (n - 1) as nat) {
                    Some(rest) => Some(seq![prefix + s.subrange(k as int, (k + l) as int)] + rest),
                    None => None,
                }
            } else {
                None
            },
            None => None,
        }
    }
}

/// Reads a block of `n` values from `s`.
pub open spec fn decode_block(s: Seq<u8>, n: nat) -> Option<Seq<Seq<u8>>> {
    match varint_parse(s) {
        Some((p, k)) => if k + p <= s.len() {
            decode_entries(s.skip((k + p) as int), s.subrange(k as int, (k + p) as int), n)
        } else {
            None
        },
        None => None,
    }
}

proof fn lemma_entries_push(vals: Seq<Seq<u8>>, v: Seq<u8>, p: nat)
    ensures
        entries_bytes(vals.push(v), p) == entries_bytes(vals, p) + entry_bytes(v, p),
    decreases vals.len(),
{
    if vals.len() == 0 {
        assert(vals.push(v).drop_first() =~= Seq::<Seq<u8>>::empty());
        assert(entries_bytes(vals.push(v).drop_first(), p) =~= Seq::<u8>::empty());
        assert(entries_bytes(vals.push(v), p) =~= entry_bytes(v, p));
    } else {
        lemma_entries_push(vals.drop_first(), v, p);
        assert(vals.push(v).drop_first() =~= vals.drop_first().push(v));
        assert(entries_bytes(vals.push(v), p) =~= entries_bytes(vals, p) + entry_bytes(v, p));
    }
}

proof fn lemma_decode_entries(vals: Seq<Seq<u8>>, p: nat, pre: Seq<u8>)
    requires
        pre.len() == p,
        forall|i: int| 0 <= i < vals.len() ==> p <= (#[trigger] vals[i]).len(),
        forall|i: int, j: int| 0 <= i < vals.len() && 0 <= j < p ==> #[trigger] vals[i][j] == pre[j],
    ensures
        decode_entries(entries_bytes(vals, p), pre, vals.len()) == Some(vals),
    decreases vals.len(),
{
    if vals.len() == 0 {
        assert(entries_bytes(vals, p).len() == 0);
        assert(Seq::<Seq<u8>>::empty() =~= vals);
    } else {
        let rest = vals.drop_first();
        assert forall|i: int, j: int| 0 <= i < rest.len() && 0 <= j < p implies #[trigger] rest[i][j] == pre[j] by {
            assert(rest[i] == vals[i + 1]);
        }
        assert forall|i: int| 0 <= i < rest.len() implies p <= (#[trigger] rest[i]).len() by {
            assert(rest[i] == vals[i + 1]);
        }
        lemma_decode_entries(rest, p, pre);
        let l = (vals[0].len() - p) as nat;
        let sfx = vals[0].skip(p as int);
        let tail = entries_bytes(rest, p);
        let s = entries_bytes(vals, p);
        lemma_varint_parse_bytes(l, sfx + tail);
        assert(s =~= varint_bytes(l) + (sfx + tail));
        let k = varint_bytes(l).len();
        assert(s.skip((k + l) as int) =~= tail);
        assert(s.subrange(k as int, (k + l) as int) =~= sfx);
        assert(pre + sfx =~= vals[0]);
        assert(seq![vals[0]] + rest =~= vals);
    }
}

/// Decoding the encoding of a non-empty list of byte strings gives it back,
/// exactly and in order.
pub proof fn lemma_block_round_trip(vals: Seq<Seq<u8>>)
    requires
        vals.len() > 0,
    ensures
        decode_block(encode_block(vals), vals.len()) == Some(vals),
{
    assert(is_common_prefix(vals, 0));
    lemma_longest_from(vals, 0);
    let p = shared_prefix_len(vals);
    let pre = vals[0].take(p as int);
    let tail = entries_bytes(vals, p);
    let s = encode_block(vals);
    lemma_varint_parse_bytes(p, pre + tail);
    assert(s =~= varint_bytes(p) + (pre + tail));
    let k = varint_bytes(p).len();
    assert(s.skip((k + p) as int) =~= tail);
    assert(s.subrange(k as int, (k + p) as int) =~= pre);
    lemma_decode_entries(vals, p, pre);
}

/// Appends `src[from..to]` to `out`.
fn append_range(out: &mut Vec<u8>, src: &[u8], from: usize, to: usize)
    requires
        from <= to <= src@.len(),
    ensures
        final(out)@ == old(out)@ + src@.subrange(from as int, to as int),
{
    let ghost start = out@;
    let mut i: usize = from;
    while i < to
        invariant
            from <= i <= to <= src@.len(),
            out@ == start + src@.subrange(from as int, i as int),
        decreases to - i,
    {
        proof {
            assert(src@.subrange(from as int, i + 1) =~= src@.subrange(from as int, i as int).push(src@[i as int]));
        }
        out.push(src[i]);
        i = i + 1;
    }
}

/// Where `target` stands against the range from a block's first key to its
/// last: `Greater` where the first key sorts after it, `Equal` where it equals
/// the first key, `Less` where the first and the last key sort before it, and
/// `Equal` otherwise.
pub open spec fn range_cmp(keys: Seq<Seq<u8>>, target: Seq<u8>) -> Ordering {
    match lex_cmp(keys[0], target) {
        Ordering::Greater => Ordering::Greater,
        Ordering::Equal => Ordering::Equal,
        Ordering::Less => if lex_cmp(keys.last(), target) == Ordering::Less {
            Ordering::Less
        } else {
            Ordering::Equal
        },
    }
}

/// `B` byte strings, stored front-coded.
pub struct Block<const B: usize> {
    data: Vec<u8>,
    keys: Ghost<Seq<Seq<u8>>>,
}

impl<const B: usize> View for Block<B> {
    type V = Seq<Seq<u8>>;

    /// The byte strings the block holds, in order.
    closed spec fn view(&self) -> Seq<Seq<u8>> {
        self.keys@
    }
}

impl<const B: usize> Block<B> {
    /// The block's stored bytes.
    pub closed spec fn bytes(&self) -> Seq<u8> {
        self.data@
    }

    /// The block holds `B` strings, and its bytes are their encoding.
    pub closed spec fn wf(&self) -> bool {
        &&& B > 0
        &&& self.keys@.len() == B
        &&& self.data@ == encode_block(self.keys@)
    }

    /// Encodes `values` into a block.
    pub fn new(values: &[Vec<u8>]) -> (r: Self)
        requires
            values@.len() == B,
            B > 0,
        ensures
            r.wf(),
            r@ == views(values@),
            r.bytes() == encode_block(views(values@)),
    {
        let ghost vs = views(values@);
        let prefixlen = common_prefix_len(values);
        let ghost p = prefixlen as nat;
        let mut data: Vec<u8> = Vec::new();
        write_varint(&mut data, prefixlen as u64);
        assert(vs[0] == values@[0]@);
        assert(vs[0].take(p as int) =~= values@[0]@.subrange(0, prefixlen as int));
        append_range(&mut data, values[0].as_slice(), 0, prefixlen);
        let mut i: usize = 0;
        assert(vs.take(0) =~= Seq::<Seq<u8>>::empty());
        while i < values.len()
            invariant
                vs == views(values@),
                is_longest_common_prefix(vs, p),
                p == prefixlen,
                i <= values@.len(),
                data@ == varint_bytes(p) + vs[0].take(p as int) + entries_bytes(vs.take(i as int), p),
            decreases values@.len() - i,
        {
            let v = &values[i];
            assert(vs[i as int] == v@);
            assert(prefixlen <= v@.len());
            write_varint(&mut data, (v.len() - prefixlen) as u64);
            append_range(&mut data, v.as_slice(), prefixlen, v.len());
            proof {
                lemma_entries_push(vs.take(i as int), vs[i as int], p);
                assert(vs.take(i + 1) =~= vs.take(i as int).push(vs[i as int]));
                assert(v@.subrange(prefixlen as int, v@.len() as int) =~= v@.skip(p as int));
            }
            i = i + 1;
        }
        assert(vs.take(B as int) =~= vs);
        proof {
            lemma_shared_prefix_len_is(vs, p);
        }
        Block { data, keys: Ghost(vs) }
    }

    /// Decodes the block: its `B` byte strings, in the order they were encoded.
    pub fn to_vec(&self) -> (r: Vec<Vec<u8>>)
        requires
            self.wf(),
        ensures
            views(r@) == self@,
            decode_block(self.bytes(), B as nat) == Some(views(r@)),
    {
        let ghost vs = self.keys@;
        let ghost p = shared_prefix_len(vs);
        proof {
            assert(is_common_prefix(vs, 0));
            lemma_longest_from(vs, 0);
            lemma_block_round_trip(vs);
        }
        let data = self.data.as_slice();
        let ghost k0 = varint_bytes(p).len();
        let ghost tail = entries_bytes(vs, p);
        assert(data@ =~= varint_bytes(p) + (vs[0].take(p as int) + tail));
        assert(data@.subrange(0, k0 as int) =~= varint_bytes(p));
        let dlen = data.len();
        assert(vs[0].take(p as int).len() == p);
        assert(p <= dlen);
        let (n, k) = read_varint(data, 0, Ghost(p));
        let pstart: usize = k;
        let pend: usize = k + n as usize;
        assert(data@.subrange(pstart as int, pend as int) =~= vs[0].take(p as int));
        assert(data@.skip(pend as int) =~= tail);
        assert(vs.skip(0) =~= vs);
        let mut out: Vec<Vec<u8>> = Vec::new();
        let mut pos: usize = pend;
        let mut i: usize = 0;
        while i < B
            invariant
                vs == self.keys@,
                vs.len() == B,
                is_longest_common_prefix(vs, p),
                data@ == self.data@,
                data@.len() == dlen,
                pstart <= pend <= pos <= data@.len(),
                pend - pstart == p,
                data@.subrange(pstart as int, pend as int) == vs[0].take(p as int),
                i <= B,
                data@.skip(pos as int) == entries_bytes(vs.skip(i as int), p),
                views(out@) == vs.take(i as int),
            decreases B - i,
        {
            let ghost rest = vs.skip(i as int);
            let ghost l = (vs[i as int].len() - p) as nat;
            let ghost sfx = vs[i as int].skip(p as int);
            let ghost after = entries_bytes(rest.drop_first(), p);
            assert(rest[0] == vs[i as int]);
            assert(rest.drop_first() =~= vs.skip(i + 1));
            assert(data@.skip(pos as int) =~= varint_bytes(l) + (sfx + after));
            let ghost kl = varint_bytes(l).len();
            assert(sfx.len() == l);
            assert(kl + l <= data@.len() - pos);
            assert(data@.subrange(pos as int, pos + kl) =~= varint_bytes(l)) by {
                assert(data@.subrange(pos as int, pos + kl) =~= data@.skip(pos as int).take(kl as int));
            }
            let (m, kk) = read_varint(data, pos, Ghost(l));
            let start: usize = pos + kk;
            let end: usize = start + m as usize;
            assert(data@.subrange(start as int, end as int) =~= sfx) by {
                assert(data@.subrange(start as int, end as int) =~= data@.skip(pos as int).subrange(kl as int, (kl + l) as int));
            }
            let mut value: Vec<u8> = Vec::new();
            append_range(&mut value, data, pstart, pend);
            append_range(&mut value, data, start, end);
            assert(value@ =~= vs[i as int]);
            let ghost prev = out@;
            out.push(value);
            assert(views(out@) =~= views(prev).push(vs[i as int]));
            assert(views(out@) =~= vs.take(i + 1));
            assert(data@.skip(end as int) =~= after) by {
                assert(data@.skip(end as int) =~= data@.skip(pos as int).skip((kl + l) as int));
            }
            pos = end;
            i = i + 1;
        }
        assert(vs.take(B as int) =~= vs);
        out
    }

    /// Where `other` stands against the block's range of keys.
    pub fn cmp(&self, other: &[u8]) -> (r: Ordering)
        requires
            self.wf(),
        ensures
            r == range_cmp(self@, other@),
    {
        let values = self.to_vec();
        assert(values@[0]@ == self@[0]);
        assert(values@[B - 1]@ == self@.last());
        match compare_bytes(values[0].as_slice(), other) {
            Ordering::Greater => Ordering::Greater,
            Ordering::Equal => Ordering::Equal,
            Ordering::Less => match compare_bytes(values[B - 1].as_slice(), other) {
                Ordering::Less => Ordering::Less,
                Ordering::Equal => Ordering::Equal,
                Ordering::Greater => Ordering::Equal,
            },
        }
    }
}

} // verus!
