//! The dictionary: keys pushed in sorted order are grouped into blocks of
//! `B`, each block front-coded as it fills; values are kept beside them in the
//! same order.
use vstd::prelude::*;
use core::cmp::Ordering;
use vstd::arithmetic::div_mod::{lemma_fundamental_div_mod, lemma_fundamental_div_mod_converse, lemma_mod_pos_bound, lemma_div_pos_is_pos};
use crate::block::{Block, range_cmp, views};
use crate::order::{lex_le, is_sorted, compare_bytes, lemma_lex_equal, lemma_lex_flip, lemma_sorted_push};

verus! {

/// The keys of a sequence of pairs.
pub open spec fn keys_of<V>(e: Seq<(Seq<u8>, V)>) -> Seq<Seq<u8>> {
    e.map_values(|p: (Seq<u8>, V)| p.0)
}

/// The values of a sequence of pairs.
pub open spec fn values_of<V>(e: Seq<(Seq<u8>, V)>) -> Seq<V> {
    e.map_values(|p: (Seq<u8>, V)| p.1)
}

/// No key occurs twice.
pub open spec fn distinct_keys(keys: Seq<Seq<u8>>) -> bool {
    forall|i: int, j: int| 0 <= i < j < keys.len() ==> #[trigger] keys[i] != #[trigger] keys[j]
}

/// Each key of the blocks, read block by block and then in order within a
/// block, sorts no later than every key after it.
pub open spec fn blocks_sorted(blocks: Seq<Seq<Seq<u8>>>) -> bool {
    forall|b1: int, j1: int, b2: int, j2: int|
        0 <= b1 <= b2 < blocks.len() && 0 <= j1 < blocks[b1].len() && 0 <= j2 < blocks[b2].len()
            && (b1 < b2 || j1 <= j2) ==> lex_le(#[trigger] blocks[b1][j1], #[trigger] blocks[b2][j2])
}

/// Global index `g` lies in block `g / b` at offset `g % b`.
proof fn lemma_split_index(g: int, b: int, n: int)
    requires
        0 <= g < n * b,
        0 < b,
    ensures
        0 <= g / b < n,
        0 <= g % b < b,
        g == (g / b) * b + g % b,
{
    lemma_fundamental_div_mod(g, b);
    lemma_mod_pos_bound(g, b);
    lemma_div_pos_is_pos(g, b);
    let q = g / b;
    let r = g % b;
    assert(q * b == b * q) by (nonlinear_arith);
    assert(q < n) by (nonlinear_arith)
        requires
            q * b + r < n * b,
            r >= 0,
            b > 0,
    ;
}

/// Offset `j` of block `q` is global index `q * b + j`.
proof fn lemma_join_index(q: int, j: int, b: int, n: int)
    requires
        0 <= q < n,
        0 <= j < b,
    ensures
        0 <= q * b + j < n * b,
        (q * b + j) / b == q,
        (q * b + j) % b == j,
{
    lemma_fundamental_div_mod_converse(q * b + j, b, q, j);
    assert(0 <= q * b + j < n * b) by (nonlinear_arith)
        requires
            0 <= q < n,
            0 <= j < b,
    ;
}

/// Searches the blocks for the one whose range holds `elem`.
#[verifier::loop_isolation(false)]
fn binary_search<const B: usize>(data: &[Block<B>], elem: &[u8]) -> (r: Option<usize>)
    requires
        forall|b: int| 0 <= b < data@.len() ==> (#[trigger] data@[b]).wf(),
        forall|b: int| 0 <= b < data@.len() ==> (#[trigger] data@[b])@.len() == B,
        blocks_sorted(data@.map_values(|b: Block<B>| b@)),
    ensures
        match r {
            Some(b) => b < data@.len() && range_cmp(data@[b as int]@, elem@) == Ordering::Equal,
            None => forall|b: int, j: int|
                0 <= b < data@.len() && 0 <= j < B ==> #[trigger] data@[b]@[j] != elem@,
        },
{
    let ghost bs = data@.map_values(|b: Block<B>| b@);
    let mut lo: usize = 0;
    let mut hi: usize = data.len();
    while lo < hi
        invariant
            lo <= hi <= data@.len(),
            bs == data@.map_values(|b: Block<B>| b@),
            forall|b: int, j: int|
                (0 <= b < lo || hi <= b < data@.len()) && 0 <= j < B ==> #[trigger] data@[b]@[j] != elem@,
        decreases hi - lo,
    {
        let mid = lo + (hi - lo) / 2;
        let ghost first = data@[mid as int]@[0];
        let ghost last = data@[mid as int]@[B - 1];
        assert(data@[mid as int]@.last() == last);
        match data[mid].cmp(elem) {
            Ordering::Equal => {
                return Some(mid);
            },
            Ordering::Less => {
                proof {
                    lemma_lex_flip(last, elem@);
                    assert forall|b: int, j: int| 0 <= b <= mid && 0 <= j < B implies #[trigger] data@[b]@[j] != elem@ by {
                        assert(bs[b][j] == data@[b]@[j]);
                        assert(bs[mid as int][B - 1] == last);
                        assert(lex_le(bs[b][j], bs[mid as int][B - 1]));
                    }
                }
                lo = mid + 1;
            },
            Ordering::Greater => {
                proof {
                    assert forall|b: int, j: int| mid <= b < data@.len() && 0 <= j < B implies #[trigger] data@[b]@[j] != elem@ by {
                        assert(bs[b][j] == data@[b]@[j]);
                        assert(bs[mid as int][0] == first);
                        assert(lex_le(bs[mid as int][0], bs[b][j]));
                    }
                }
                hi = mid;
            },
        }
    }
    None
}

/// A sorted dictionary from byte-string keys to values of `V`, its keys
/// committed in front-coded blocks of `B`.
pub struct Dict<V, const B: usize> {
    keys: Vec<Block<B>>,
    values: Vec<V>,
    current_keys: Vec<Vec<u8>>,
    current_values: Vec<V>,
}

impl<V, const B: usize> Dict<V, B> {
    /// The number of committed blocks.
    pub closed spec fn block_count(&self) -> nat {
        self.keys@.len()
    }

    /// The committed pairs, by global index.
    pub closed spec fn committed(&self) -> Seq<(Seq<u8>, V)> {
        Seq::new(
            self.values@.len(),
            |g: int| (self.keys@[g / (B as int)]@[g % (B as int)], self.values@[g]),
        )
    }

    /// The pairs pushed since the last block was committed.
    pub closed spec fn pending(&self) -> Seq<(Seq<u8>, V)> {
        Seq::new(self.current_keys@.len(), |i: int| (self.current_keys@[i]@, self.current_values@[i]))
    }

    /// Every pair pushed, in order.
    pub open spec fn entries(&self) -> Seq<(Seq<u8>, V)> {
        self.committed() + self.pending()
    }

    /// The committed keys, block by block.
    pub closed spec fn block_keys(&self) -> Seq<Seq<Seq<u8>>> {
        self.keys@.map_values(|b: Block<B>| b@)
    }

    /// `B` values per committed block, each block well formed and holding `B`
    /// keys, fewer than `B` pairs pending, and every key pushed so far in
    /// sorted order.
    pub closed spec fn wf(&self) -> bool {
        &&& self.values@.len() == self.keys@.len() * B
        &&& self.current_keys@.len() == self.current_values@.len()
        &&& B > 0 ==> self.current_keys@.len() < B
        &&& forall|b: int| 0 <= b < self.keys@.len() ==> (#[trigger] self.keys@[b]).wf()
        &&& forall|b: int| 0 <= b < self.keys@.len() ==> (#[trigger] self.keys@[b])@.len() == B
        &&& is_sorted(keys_of(self.entries()))
    }

    /// An empty dictionary.
    pub fn new() -> (r: Self)
        ensures
            r.wf(),
            r.entries() == Seq::<(Seq<u8>, V)>::empty(),
            r.block_count() == 0,
    {
        let r = Dict {
            keys: Vec::new(),
            values: Vec::new(),
            current_keys: Vec::new(),
            current_values: Vec::new(),
        };
        assert(r.entries() =~= Seq::<(Seq<u8>, V)>::empty());
        assert(keys_of(r.entries()).len() == 0);
        assert(r.keys@.len() == 0);
        assert(0 * (B as int) == 0) by (nonlinear_arith);
        r
    }

    /// The committed values, by global index; pending ones are left out.
    pub fn values(&self) -> (r: &[V])
        requires
            self.wf(),
        ensures
            r@ == values_of(self.committed()),
            r@.len() == self.block_count() * B,
    {
        assert(self.values@ =~= values_of(self.committed()));
        self.values.as_slice()
    }

    /// The committed keys, read block by block, are sorted.
    proof fn lemma_blocks_sorted(&self)
        requires
            self.wf(),
        ensures
            blocks_sorted(self.block_keys()),
    {
        let bk = self.block_keys();
        let n = self.keys@.len() as int;
        let b = B as int;
        let ks = keys_of(self.entries());
        assert forall|b1: int, j1: int, b2: int, j2: int|
            0 <= b1 <= b2 < bk.len() && 0 <= j1 < bk[b1].len() && 0 <= j2 < bk[b2].len()
                && (b1 < b2 || j1 <= j2) implies lex_le(#[trigger] bk[b1][j1], #[trigger] bk[b2][j2]) by {
            assert(self.keys@[b1].wf());
            lemma_join_index(b1, j1, b, n);
            lemma_join_index(b2, j2, b, n);
            let g1 = b1 * b + j1;
            let g2 = b2 * b + j2;
            assert(g1 <= g2) by (nonlinear_arith)
                requires
                    b1 <= b2,
                    b1 < b2 || j1 <= j2,
                    0 <= j1 < b,
                    0 <= j2 < b,
                    g1 == b1 * b + j1,
                    g2 == b2 * b + j2,
            ;
            assert(ks[g1] == bk[b1][j1]);
            assert(ks[g2] == bk[b2][j2]);
            if g1 == g2 {
                lemma_lex_equal(ks[g1], ks[g1]);
            }
        }
    }

    /// Appends `(key, value)`; once `B` pairs are pending they are committed
    /// as one block.
    pub fn push(&mut self, key: Vec<u8>, value: V)
        requires
            old(self).wf(),
            old(self).entries().len() > 0 ==> lex_le(old(self).entries().last().0, key@),
        ensures
            final(self).wf(),
            final(self).entries() == old(self).entries().push((key@, value)),
            old(self).pending().len() + 1 == B ==> final(self).committed() == old(self).entries().push((key@, value))
                && final(self).pending().len() == 0
                && final(self).block_count() == old(self).block_count() + 1,
            old(self).pending().len() + 1 != B ==> final(self).committed() == old(self).committed()
                && final(self).pending() == old(self).pending().push((key@, value))
                && final(self).block_count() == old(self).block_count(),
    {
        let ghost kv = (key@, value);
        let ghost old_entries = old(self).entries();
        let ghost pend = old(self).pending().push(kv);
        self.current_keys.push(key);
        self.current_values.push(value);
        assert(self.pending() =~= pend);
        if self.current_keys.len() == B {
            let ghost n = self.keys@.len() as int;
            let ghost b = B as int;
            let ghost keys0 = self.keys@;
            let ghost values0 = self.values@;
            let ghost ck = self.current_keys@;
            let ghost cv = self.current_values@;
            let block = Block::<B>::new(self.current_keys.as_slice());
            self.keys.push(block);
            self.values.append(&mut self.current_values);
            self.current_keys.clear();
            proof {
                assert((n + 1) * b == n * b + b) by (nonlinear_arith);
                let target = old_entries.push(kv);
                assert(target =~= old(self).committed() + pend);
                assert forall|g: int| 0 <= g < self.committed().len() implies #[trigger] self.committed()[g] == target[g] by {
                    if g < n * b {
                        lemma_split_index(g, b, n);
                        assert(self.keys@[g / b] == keys0[g / b]);
                    } else {
                        let j = g - n * b;
                        lemma_join_index(n, j, b, n + 1);
                        assert(self.keys@[n]@ == views(ck));
                        assert(views(ck)[j] == ck[j]@);
                    }
                }
                assert(self.committed() =~= target);
                assert(self.pending() =~= Seq::<(Seq<u8>, V)>::empty());
                assert(self.entries() =~= target);
                assert forall|i: int| 0 <= i < self.keys@.len() implies (#[trigger] self.keys@[i]).wf()
                    && self.keys@[i]@.len() == B by {
                    if i < n {
                        assert(self.keys@[i] == keys0[i]);
                    }
                }
            }
        } else {
            assert(self.entries() =~= old_entries.push(kv));
        }
        proof {
            assert(keys_of(self.entries()) =~= keys_of(old_entries).push(key@));
            lemma_sorted_push(keys_of(old_entries), key@);
        }
    }

    /// The global index of `key` among the committed keys, or `None` where no
    /// committed key equals it.
    #[verifier::loop_isolation(false)]
    pub fn index_of(&self, key: &[u8]) -> (r: Option<usize>)
        requires
            self.wf(),
        ensures
            match r {
                Some(g) => g < self.committed().len() && self.committed()[g as int].0 == key@,
                None => forall|g: int| 0 <= g < self.committed().len() ==> #[trigger] self.committed()[g].0 != key@,
            },
    {
        proof {
            self.lemma_blocks_sorted();
        }
        let ghost n = self.keys@.len() as int;
        let ghost b = B as int;
        let ghost bk = self.block_keys();
        assert(bk =~= self.keys@.map_values(|x: Block<B>| x@));
        let block_id = match binary_search(self.keys.as_slice(), key) {
            Some(i) => i,
            None => {
                assert forall|g: int| 0 <= g < self.committed().len() implies #[trigger] self.committed()[g].0 != key@ by {
                    assert(n > 0) by (nonlinear_arith)
                        requires
                            0 <= g < n * b,
                            n >= 0,
                            b >= 0,
                    ;
                    assert(self.keys@[0].wf());
                    lemma_split_index(g, b, n);
                }
                return None;
            },
        };
        let total = self.values.len();
        let vals = self.keys[block_id].to_vec();
        let ghost blk = self.keys@[block_id as int]@;
        assert(self.keys@[block_id as int].wf());
        let mut i: usize = 0;
        while i < B
            invariant
                i <= B,
                0 <= block_id < n,
                blk.len() == B,
                views(vals@) == blk,
                forall|j: int| 0 <= j < i ==> blk[j] != key@,
            decreases B - i,
        {
            assert(views(vals@)[i as int] == vals@[i as int]@);
            match compare_bytes(vals[i].as_slice(), key) {
                Ordering::Equal => {
                    proof {
                        lemma_lex_equal(blk[i as int], key@);
                        lemma_join_index(block_id as int, i as int, b, n);
                        assert(block_id * b + i < total);
                        assert(block_id * b <= block_id * b + i);
                    }
                    return Some(block_id * B + i);
                },
                _ => {
                    proof {
                        lemma_lex_equal(blk[i as int], key@);
                    }
                },
            }
            i = i + 1;
        }
        proof {
            let first = blk[0];
            let last = blk[B - 1];
            assert(blk.last() == last);
            lemma_lex_equal(first, key@);
            lemma_lex_equal(last, key@);
            lemma_lex_flip(first, key@);
            assert(bk[block_id as int] == blk);
            assert forall|g: int| 0 <= g < self.committed().len() implies #[trigger] self.committed()[g].0 != key@ by {
                lemma_split_index(g, b, n);
                let q = g / b;
                let j = g % b;
                assert(self.committed()[g].0 == bk[q][j]);
                assert(self.keys@[q].wf());
                if q < block_id {
                    assert(lex_le(bk[q][j], bk[block_id as int][0]));
                } else if q > block_id {
                    assert(lex_le(bk[block_id as int][B - 1], bk[q][j]));
                }
            }
        }
        None
    }
}

/// With distinct keys, a committed key is held at one global index only: the
/// index a lookup returns for it is the position at which it was pushed, and
/// the value there is the one pushed with it.
pub proof fn lemma_lookup_position<V, const B: usize>(d: Dict<V, B>, g: int, i: int)
    requires
        d.wf(),
        distinct_keys(keys_of(d.entries())),
        0 <= i < d.committed().len(),
        0 <= g < d.committed().len(),
        d.committed()[g].0 == d.entries()[i].0,
    ensures
        g == i,
        values_of(d.committed())[g] == d.entries()[i].1,
{
    let ks = keys_of(d.entries());
    assert(ks[g] == d.entries()[g].0);
    assert(ks[i] == d.entries()[i].0);
}

/// With distinct keys, a pending key equals no committed key, so a lookup
/// does not find it and the committed values leave its value out.
pub proof fn lemma_pending_excluded<V, const B: usize>(d: Dict<V, B>, i: int)
    requires
        d.wf(),
        distinct_keys(keys_of(d.entries())),
        0 <= i < d.pending().len(),
    ensures
        forall|g: int| 0 <= g < d.committed().len() ==> #[trigger] d.committed()[g].0 != d.pending()[i].0,
{
    let ks = keys_of(d.entries());
    let c = d.committed().len();
    assert forall|g: int| 0 <= g < c implies #[trigger] d.committed()[g].0 != d.pending()[i].0 by {
        assert(ks[g] == d.entries()[g].0);
        assert(ks[c + i] == d.entries()[c + i].0);
    }
}

} // verus!
