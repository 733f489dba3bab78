//! The layer set type: a growable bitset over numbered render layers.
use crate::blocks::{
    block_words, blocks_as_slice, blocks_clone, blocks_cmp, blocks_eq, blocks_from_word,
    blocks_get, blocks_len, blocks_new, blocks_pop, blocks_push, blocks_resize, blocks_set,
    blocks_shrink_to_fit, lex_order, BlockVec,
};
use vstd::prelude::*;

verus! {

/// An identifier for a rendering layer.
pub type Layer = usize;

/// The number of blocks a set keeps even when they are zero.
const INLINE_BLOCKS: usize = 1;

/// Whether bit `k` of word `w` is set.
pub open spec fn bit_of(w: u64, k: nat) -> bool {
    k < 64 && (w >> (k as u64)) & 1u64 == 1u64
}

/// Block `i` of `bs`, where blocks past the end read as zero.
pub open spec fn block_at(bs: Seq<u64>, i: int) -> u64 {
    if 0 <= i < bs.len() {
        bs[i]
    } else {
        0u64
    }
}

/// Whether layer `n` is a member of the set stored in `bs`.
pub open spec fn has_layer(bs: Seq<u64>, n: nat) -> bool {
    bit_of(block_at(bs, (n / 64) as int), n % 64)
}

/// The layers stored in `bs`.
pub open spec fn layer_set(bs: Seq<u64>) -> Set<nat> {
    Set::new(|n: nat| has_layer(bs, n))
}

/// The most blocks a set of `usize` layer numbers can need.
pub open spec fn max_blocks() -> nat {
    (usize::MAX as nat) / 64 + 1
}

/// Canonical form: at least one block, no trailing zero block past the first.
pub open spec fn canonical(bs: Seq<u64>) -> bool {
    1 <= bs.len() <= max_blocks() && (bs.len() > 1 ==> bs.last() != 0)
}

/// `bs` with trailing zero blocks past the first dropped.
pub open spec fn trim(bs: Seq<u64>) -> Seq<u64>
    decreases bs.len(),
{
    if bs.len() > 1 && bs.last() == 0 {
        trim(bs.drop_last())
    } else {
        bs
    }
}

proof fn lemma_or_bit(x: u64, y: u64, k: u64)
    requires
        k < 64,
    ensures
        ((x | y) >> k) & 1 == 1 <==> ((x >> k) & 1 == 1 || (y >> k) & 1 == 1),
{
    assert(((x | y) >> k) & 1 == 1 <==> ((x >> k) & 1 == 1 || (y >> k) & 1 == 1)) by (bit_vector)
        requires
            k < 64,
    ;
}

proof fn lemma_and_bit(x: u64, y: u64, k: u64)
    requires
        k < 64,
    ensures
        ((x & y) >> k) & 1 == 1 <==> ((x >> k) & 1 == 1 && (y >> k) & 1 == 1),
{
    assert(((x & y) >> k) & 1 == 1 <==> ((x >> k) & 1 == 1 && (y >> k) & 1 == 1)) by (bit_vector)
        requires
            k < 64,
    ;
}

proof fn lemma_xor_bit(x: u64, y: u64, k: u64)
    requires
        k < 64,
    ensures
        ((x ^ y) >> k) & 1 == 1 <==> ((x >> k) & 1 == 1) != ((y >> k) & 1 == 1),
{
    assert(((x ^ y) >> k) & 1 == 1 <==> ((x >> k) & 1 == 1) != ((y >> k) & 1 == 1))
        by (bit_vector)
        requires
            k < 64,
    ;
}

proof fn lemma_single_bit(j: u64, k: u64)
    requires
        j < 64,
        k < 64,
    ensures
        (((1u64 << j) >> k) & 1 == 1) == (j == k),
{
    assert((((1u64 << j) >> k) & 1 == 1) == (j == k)) by (bit_vector)
        requires
            j < 64,
            k < 64,
    ;
}

proof fn lemma_clear_bit(x: u64, j: u64, k: u64)
    requires
        j < 64,
        k < 64,
    ensures
        (((x & !(1u64 << j)) >> k) & 1 == 1) == ((x >> k) & 1 == 1 && j != k),
{
    assert((((x & !(1u64 << j)) >> k) & 1 == 1) == ((x >> k) & 1 == 1 && j != k))
        by (bit_vector)
        requires
            j < 64,
            k < 64,
    ;
}

pub(crate) proof fn lemma_zero_bit(k: u64)
    ensures
        (0u64 >> k) & 1 != 1,
{
    assert((0u64 >> k) & 1 != 1) by (bit_vector);
}

proof fn lemma_nonzero_or(x: u64, y: u64)
    requires
        x != 0 || y != 0,
    ensures
        x | y != 0,
{
    assert(x | y != 0) by (bit_vector)
        requires
            x != 0 || y != 0,
    ;
}

proof fn lemma_single_nonzero(j: u64)
    requires
        j < 64,
    ensures
        1u64 << j != 0,
        forall|x: u64| #[trigger] (x | (1u64 << j)) != 0,
{
    assert(1u64 << j != 0) by (bit_vector)
        requires
            j < 64,
    ;
    assert forall|x: u64| #[trigger] (x | (1u64 << j)) != 0 by {
        lemma_nonzero_or(x, 1u64 << j);
    }
}

/// Words whose bits agree from position `k` upward agree from `k - 1` upward
/// when bit `k - 1` agrees too.
proof fn lemma_high_bits_step(x: u64, y: u64, k: u64)
    requires
        k < 63,
        x >> (k + 1) == y >> (k + 1),
        (x >> k) & 1 == (y >> k) & 1,
    ensures
        x >> k == y >> k,
{
    assert(x >> k == y >> k) by (bit_vector)
        requires
            k < 63,
            x >> (k + 1) == y >> (k + 1),
            (x >> k) & 1 == (y >> k) & 1,
    ;
}

proof fn lemma_high_bits_equal(x: u64, y: u64, k: u64)
    requires
        k < 64,
        forall|j: nat| j < 64 ==> bit_of(x, j) == bit_of(y, j),
    ensures
        x >> k == y >> k,
    decreases 64 - k,
{
    assert(bit_of(x, k as nat) == bit_of(y, k as nat));
    assert(((x >> k) & 1 == 1) == ((x >> k) & 1 != 0)) by (bit_vector);
    assert(((y >> k) & 1 == 1) == ((y >> k) & 1 != 0)) by (bit_vector);
    assert((x >> k) & 1 == 0 || (x >> k) & 1 == 1) by (bit_vector);
    assert((y >> k) & 1 == 0 || (y >> k) & 1 == 1) by (bit_vector);
    if k == 63 {
        assert(x >> 63u64 == (x >> 63u64) & 1) by (bit_vector);
        assert(y >> 63u64 == (y >> 63u64) & 1) by (bit_vector);
    } else {
        lemma_high_bits_equal(x, y, (k + 1) as u64);
        lemma_high_bits_step(x, y, k);
    }
}

/// A word is determined by its 64 bits.
proof fn lemma_bits_determine(x: u64, y: u64)
    requires
        forall|j: nat| j < 64 ==> bit_of(x, j) == bit_of(y, j),
    ensures
        x == y,
{
    lemma_high_bits_equal(x, y, 0);
    assert(x >> 0u64 == x) by (bit_vector);
    assert(y >> 0u64 == y) by (bit_vector);
}

/// Set algebra applied block by block.
#[derive(Clone, Copy)]
enum BlockOp {
    And,
    Or,
    Xor,
}

/// The word that `op` makes of two words.
spec fn op_word(op: BlockOp, x: u64, y: u64) -> u64 {
    match op {
        BlockOp::And => x & y,
        BlockOp::Or => x | y,
        BlockOp::Xor => x ^ y,
    }
}

/// Whether `op` keeps a member that is in `a` (for `p`) and in `b` (for `q`).
spec fn op_member(op: BlockOp, p: bool, q: bool) -> bool {
    match op {
        BlockOp::And => p && q,
        BlockOp::Or => p || q,
        BlockOp::Xor => p != q,
    }
}

/// `op` applied to corresponding blocks of `a` and `b`, as long as the longer.
spec fn combine(op: BlockOp, a: Seq<u64>, b: Seq<u64>) -> Seq<u64> {
    let len = if a.len() >= b.len() {
        a.len()
    } else {
        b.len()
    };
    Seq::new(len, |i: int| op_word(op, block_at(a, i), block_at(b, i)))
}

proof fn lemma_layer_index(i: int, k: nat)
    requires
        0 <= i,
        k < 64,
    ensures
        ((64 * i + k) as nat) / 64 == i,
        ((64 * i + k) as nat) % 64 == k,
{
}

proof fn lemma_op_bit(op: BlockOp, x: u64, y: u64, k: nat)
    ensures
        bit_of(op_word(op, x, y), k) == op_member(op, bit_of(x, k), bit_of(y, k)),
{
    if k < 64 {
        match op {
            BlockOp::And => lemma_and_bit(x, y, k as u64),
            BlockOp::Or => lemma_or_bit(x, y, k as u64),
            BlockOp::Xor => lemma_xor_bit(x, y, k as u64),
        }
    }
}

/// Each layer of a combined set is decided by `op` from the operands' layers.
proof fn lemma_combine_layers(op: BlockOp, a: Seq<u64>, b: Seq<u64>)
    ensures
        forall|n: nat|
            #[trigger] has_layer(combine(op, a, b), n) == op_member(
                op,
                has_layer(a, n),
                has_layer(b, n),
            ),
        layer_set(combine(op, a, b)) == match op {
            BlockOp::And => layer_set(a).intersect(layer_set(b)),
            BlockOp::Or => layer_set(a).union(layer_set(b)),
            BlockOp::Xor => layer_set(a).difference(layer_set(b)).union(
                layer_set(b).difference(layer_set(a)),
            ),
        },
{
    let c = combine(op, a, b);
    assert forall|n: nat|
        #[trigger] has_layer(c, n) == op_member(op, has_layer(a, n), has_layer(b, n)) by {
        let i = (n / 64) as int;
        lemma_op_bit(op, block_at(a, i), block_at(b, i), n % 64);
        if i >= c.len() {
            lemma_zero_bit((n % 64) as u64);
        }
    }
    let r = layer_set(c);
    match op {
        BlockOp::And => assert(r =~= layer_set(a).intersect(layer_set(b))),
        BlockOp::Or => assert(r =~= layer_set(a).union(layer_set(b))),
        BlockOp::Xor => assert(r =~= layer_set(a).difference(layer_set(b)).union(
            layer_set(b).difference(layer_set(a)),
        )),
    }
}

/// Trimming keeps every block value and yields a canonical sequence.
proof fn lemma_trim(bs: Seq<u64>)
    requires
        1 <= bs.len(),
    ensures
        1 <= trim(bs).len() <= bs.len(),
        forall|i: int| #[trigger] block_at(trim(bs), i) == block_at(bs, i),
        layer_set(trim(bs)) == layer_set(bs),
        bs.len() <= max_blocks() ==> canonical(trim(bs)),
        trim(bs).len() > 1 ==> trim(bs).last() != 0,
    decreases bs.len(),
{
    if bs.len() > 1 && bs.last() == 0 {
        let d = bs.drop_last();
        lemma_trim(d);
        assert forall|i: int| #[trigger] block_at(d, i) == block_at(bs, i) by {}
    }
    assert(layer_set(trim(bs)) =~= layer_set(bs));
}

/// Two canonical block sequences that hold the same layers are the same sequence.
pub(crate) proof fn lemma_canonical_unique(a: Seq<u64>, b: Seq<u64>)
    requires
        canonical(a),
        canonical(b),
        layer_set(a) == layer_set(b),
    ensures
        a == b,
{
    assert forall|i: int| #[trigger] block_at(a, i) == block_at(b, i) by {
        if i >= 0 {
            assert forall|k: nat| k < 64 implies bit_of(block_at(a, i), k) == bit_of(
                block_at(b, i),
                k,
            ) by {
                let n = (64 * i + k) as nat;
                lemma_layer_index(i, k);
                assert(layer_set(a).contains(n) == has_layer(a, n));
                assert(layer_set(b).contains(n) == has_layer(b, n));
            }
            lemma_bits_determine(block_at(a, i), block_at(b, i));
        }
    }
    if a.len() > b.len() {
        assert(block_at(a, a.len() - 1) == block_at(b, a.len() - 1));
    }
    if b.len() > a.len() {
        assert(block_at(a, b.len() - 1) == block_at(b, b.len() - 1));
    }
    assert forall|i: int| 0 <= i < a.len() implies a[i] == b[i] by {
        assert(block_at(a, i) == block_at(b, i));
    }
    assert(a =~= b);
}

/// The blocks of the union of two sets: corresponding blocks or-ed, as long as the longer.
pub open spec fn union_blocks(a: Seq<u64>, b: Seq<u64>) -> Seq<u64> {
    Seq::new(
        if a.len() >= b.len() {
            a.len()
        } else {
            b.len()
        },
        |i: int| block_at(a, i) | block_at(b, i),
    )
}

/// Corresponding blocks of two sets and-ed, as long as the longer.
pub open spec fn and_blocks(a: Seq<u64>, b: Seq<u64>) -> Seq<u64> {
    Seq::new(
        if a.len() >= b.len() {
            a.len()
        } else {
            b.len()
        },
        |i: int| block_at(a, i) & block_at(b, i),
    )
}

/// Corresponding blocks of two sets xor-ed, as long as the longer.
pub open spec fn xor_blocks(a: Seq<u64>, b: Seq<u64>) -> Seq<u64> {
    Seq::new(
        if a.len() >= b.len() {
            a.len()
        } else {
            b.len()
        },
        |i: int| block_at(a, i) ^ block_at(b, i),
    )
}

/// The blocks of the intersection of two sets: `and_blocks`, trimmed.
pub open spec fn intersection_blocks(a: Seq<u64>, b: Seq<u64>) -> Seq<u64> {
    trim(and_blocks(a, b))
}

/// The blocks of the symmetric difference of two sets: `xor_blocks`, trimmed.
pub open spec fn symmetric_difference_blocks(a: Seq<u64>, b: Seq<u64>) -> Seq<u64> {
    trim(xor_blocks(a, b))
}

/// Whether two block sequences hold a common layer.
pub open spec fn shares_layer(a: Seq<u64>, b: Seq<u64>) -> bool {
    exists|n: nat| has_layer(a, n) && has_layer(b, n)
}

/// The text that `{:?}` gives for a tuple struct named `name` holding a list of `items`.
pub uninterp spec fn debug_tuple_text(name: Seq<char>, items: Seq<usize>) -> Seq<char>;

/// Relies on `format!` with `{}` and `{:?}`: `name`, then the `Debug` list of
/// `items` in parentheses, which depends on its arguments alone.
#[verifier::external_body]
fn format_tuple(name: &str, items: &Vec<usize>) -> (r: String)
    ensures
        r@ == debug_tuple_text(name@, items@),
{
    format!("{}({:?})", name, items)
}

/// The layer numbers listed in `s`.
pub open spec fn listed(s: Seq<usize>) -> Set<nat> {
    Set::new(|n: nat| exists|j: int| 0 <= j < s.len() && s[j] as nat == n)
}

/// `s` is in strictly ascending order.
pub open spec fn ascending(s: Seq<usize>) -> bool {
    forall|i: int, j: int| 0 <= i < j < s.len() ==> s[i] < s[j]
}

proof fn lemma_listed_push(s: Seq<usize>, x: usize)
    ensures
        listed(s.push(x)) == listed(s).insert(x as nat),
{
    assert forall|n: nat| listed(s.push(x)).contains(n) <==> listed(s).insert(x as nat).contains(
        n,
    ) by {
        if listed(s).contains(n) {
            let j = choose|j: int| 0 <= j < s.len() && s[j] as nat == n;
            assert(s.push(x)[j] == s[j]);
        }
        if n == x as nat {
            assert(s.push(x)[s.len() as int] == x);
        }
        if listed(s.push(x)).contains(n) {
            let j = choose|j: int| 0 <= j < s.push(x).len() && s.push(x)[j] as nat == n;
            if j < s.len() {
                assert(s[j] == s.push(x)[j]);
            }
        }
    }
    assert(listed(s.push(x)) =~= listed(s).insert(x as nat));
}

/// A nonzero word has a set bit.
proof fn lemma_nonzero_has_bit(x: u64)
    requires
        x != 0,
    ensures
        exists|k: nat| k < 64 && bit_of(x, k),
{
    if forall|k: nat| k < 64 ==> !bit_of(x, k) {
        assert forall|k: nat| k < 64 implies bit_of(x, k) == bit_of(0u64, k) by {
            lemma_zero_bit(k as u64);
        }
        lemma_bits_determine(x, 0u64);
    }
}

pub(crate) proof fn lemma_union_blocks(a: Seq<u64>, b: Seq<u64>)
    requires
        canonical(a),
        canonical(b),
    ensures
        canonical(union_blocks(a, b)),
        layer_set(union_blocks(a, b)) == layer_set(a).union(layer_set(b)),
{
    assert(combine(BlockOp::Or, a, b) =~= union_blocks(a, b));
    lemma_combine_layers(BlockOp::Or, a, b);
    let n = union_blocks(a, b).len();
    if n > 1 {
        if a.len() == n {
            lemma_nonzero_or(a.last(), block_at(b, n - 1));
        } else {
            lemma_nonzero_or(block_at(a, n - 1), b.last());
        }
    }
}

pub(crate) proof fn lemma_intersection_blocks(a: Seq<u64>, b: Seq<u64>)
    requires
        canonical(a),
        canonical(b),
    ensures
        canonical(intersection_blocks(a, b)),
        layer_set(intersection_blocks(a, b)) == layer_set(a).intersect(layer_set(b)),
{
    let c = combine(BlockOp::And, a, b);
    assert(c =~= and_blocks(a, b));
    lemma_combine_layers(BlockOp::And, a, b);
    lemma_trim(c);
}

pub(crate) proof fn lemma_symmetric_difference_blocks(a: Seq<u64>, b: Seq<u64>)
    requires
        canonical(a),
        canonical(b),
    ensures
        canonical(symmetric_difference_blocks(a, b)),
        layer_set(symmetric_difference_blocks(a, b)) == layer_set(a).difference(
            layer_set(b),
        ).union(layer_set(b).difference(layer_set(a))),
{
    let c = combine(BlockOp::Xor, a, b);
    assert(c =~= xor_blocks(a, b));
    lemma_combine_layers(BlockOp::Xor, a, b);
    lemma_trim(c);
}

/// Describes which rendering layers an entity belongs to.
///
/// Block `i` holds layers `64 * i` to `64 * i + 63`, lowest bit first. The
/// default set holds layer `0`; the set made by [`RenderLayers::none`] holds
/// no layer at all.
///
/// The derived `Debug` shows the blocks; [`RenderLayers::debug_string`] gives
/// the layer list, as in `RenderLayers([0, 1, 2, 3])`.
#[derive(Debug, Ord)]
pub struct RenderLayers {
    blocks: BlockVec,
}

impl View for RenderLayers {
    type V = Seq<u64>;

    closed spec fn view(&self) -> Seq<u64> {
        block_words(self.blocks)
    }
}

impl RenderLayers {
    /// The set is in canonical form, which makes `==` on blocks agree with `==` on members.
    pub open spec fn wf(&self) -> bool {
        canonical(self@)
    }

    /// The layers this set holds.
    pub open spec fn layers(&self) -> Set<nat> {
        layer_set(self@)
    }

    fn layer_info(layer: usize) -> (r: (usize, u64))
        ensures
            r.0 == layer / 64,
            r.1 == 1u64 << ((layer % 64) as u64),
            r.1 != 0,
    {
        let buffer_index = layer / 64;
        let bit_index = (layer % 64) as u64;
        let bit = 1u64 << bit_index;
        proof {
            lemma_single_nonzero(bit_index);
        }
        (buffer_index, bit)
    }

    /// Create a new `RenderLayers` belonging to the given layer, which must
    /// lie in the inline block (below 64). Use [`with`](RenderLayers::with)
    /// or [`from_layers`](RenderLayers::from_layers) for any layer.
    pub fn layer(n: Layer) -> (r: Self)
        requires
            n < 64,
        ensures
            r.wf(),
            r@ == seq![1u64 << (n as u64)],
            r.layers() == set![n as nat],
    {
        let (buffer_index, bit) = Self::layer_info(n);
        let r = RenderLayers { blocks: blocks_from_word(bit) };
        proof {
            assert forall|m: nat| r.layers().contains(m) <==> m == n as nat by {
                assert(r.layers().contains(m) == has_layer(r@, m));
                assert(m == 64 * (m / 64) + m % 64);
                if m / 64 == 0 {
                    lemma_single_bit(n as u64, (m % 64) as u64);
                } else {
                    lemma_zero_bit((m % 64) as u64);
                }
            }
            assert(r.layers() =~= set![n as nat]);
        }
        r
    }

    /// Create a new `RenderLayers` that belongs to no layers.
    pub fn none() -> (r: Self)
        ensures
            r.wf(),
            r@ == seq![0u64],
            r.layers() == Set::<nat>::empty(),
    {
        let r = RenderLayers { blocks: blocks_from_word(0) };
        proof {
            assert forall|m: nat| !r.layers().contains(m) by {
                lemma_zero_bit((m % 64) as u64);
            }
            assert(r.layers() =~= Set::<nat>::empty());
        }
        r
    }

    /// Grows the block sequence to at least `other_len` blocks, filling with zeros.
    fn extend_buffer(&mut self, other_len: usize)
        ensures
            final(self)@.len() == if old(self)@.len() >= other_len {
                old(self)@.len()
            } else {
                other_len as nat
            },
            forall|i: int| #[trigger] block_at(final(self)@, i) == block_at(old(self)@, i),
    {
        let len = blocks_len(&self.blocks);
        let new_size = if len >= other_len {
            len
        } else {
            other_len
        };
        blocks_resize(&mut self.blocks, new_size, 0u64);
        proof {
            assert forall|i: int| #[trigger]
                block_at(final(self)@, i) == block_at(old(self)@, i) by {
                if 0 <= i < new_size {
                    assert(block_words(self.blocks)[i] == block_at(old(self)@, i));
                }
            }
        }
    }

    /// Add the given layer.
    pub fn with(self, layer: Layer) -> (r: Self)
        requires
            self.wf(),
        ensures
            r.wf(),
            r.layers() == self.layers().insert(layer as nat),
    {
        let mut s = self;
        let ghost old_bs = s@;
        let (buffer_index, bit) = Self::layer_info(layer);
        s.extend_buffer(buffer_index + 1);
        let ghost mid = s@;
        let w = blocks_get(&s.blocks, buffer_index);
        blocks_set(&mut s.blocks, buffer_index, w | bit);
        proof {
            let bs = s@;
            let k = (layer % 64) as u64;
            lemma_single_nonzero(k);
            assert forall|m: nat| #[trigger] has_layer(bs, m) == (has_layer(old_bs, m) || m
                == layer as nat) by {
                let i = (m / 64) as int;
                assert(m == 64 * (m / 64) + m % 64);
                assert(layer == 64 * (layer / 64) + layer % 64);
                if i == buffer_index as int {
                    assert(block_at(bs, i) == w | bit);
                    assert(w == block_at(old_bs, i)) by {
                        assert(block_at(mid, i) == block_at(old_bs, i));
                    }
                    lemma_or_bit(w, bit, (m % 64) as u64);
                    lemma_single_bit(k, (m % 64) as u64);
                } else {
                    assert(block_at(bs, i) == block_at(mid, i));
                }
            }
            assert(s.layers() =~= layer_set(old_bs).insert(layer as nat));
            assert(bs.len() >= 1);
            if bs.len() > 1 {
                if bs.len() == old_bs.len() && buffer_index as int != bs.len() - 1 {
                    assert(bs.last() == block_at(mid, bs.len() - 1));
                    assert(block_at(mid, bs.len() - 1) == block_at(old_bs, bs.len() - 1));
                }
            }
        }
        s
    }

    /// Drops trailing zero blocks past the inline one.
    fn shrink(self) -> (r: Self)
        requires
            1 <= self@.len() <= max_blocks(),
        ensures
            r@ == trim(self@),
    {
        let mut s = self;
        let ghost orig = s@;
        let mut any_dropped = false;
        let mut len = blocks_len(&s.blocks);
        while len > INLINE_BLOCKS && blocks_get(&s.blocks, len - 1) == 0
            invariant
                1 <= s@.len() <= orig.len(),
                len == s@.len(),
                trim(s@) == trim(orig),
            decreases len,
        {
            let _ = blocks_pop(&mut s.blocks);
            any_dropped = true;
            len = blocks_len(&s.blocks);
        }
        if any_dropped && len <= INLINE_BLOCKS {
            blocks_shrink_to_fit(&mut s.blocks);
        }
        s
    }

    /// Removes the given rendering layer.
    pub fn without(self, layer: Layer) -> (r: Self)
        requires
            self.wf(),
        ensures
            r.wf(),
            r.layers() == self.layers().remove(layer as nat),
    {
        let mut s = self;
        let ghost old_bs = s@;
        let (buffer_index, bit) = Self::layer_info(layer);
        let len = blocks_len(&s.blocks);
        if buffer_index < len {
            let w = blocks_get(&s.blocks, buffer_index);
            blocks_set(&mut s.blocks, buffer_index, w & !bit);
            proof {
                let bs = s@;
                let k = (layer % 64) as u64;
                assert forall|m: nat| #[trigger] has_layer(bs, m) == (has_layer(old_bs, m) && m
                    != layer as nat) by {
                    let i = (m / 64) as int;
                    if i == buffer_index as int {
                        lemma_clear_bit(w, k, (m % 64) as u64);
                    } else {
                        assert(block_at(bs, i) == block_at(old_bs, i));
                    }
                }
                assert(s.layers() =~= layer_set(old_bs).remove(layer as nat));
                lemma_trim(bs);
            }
            if buffer_index == len - 1 {
                s = s.shrink();
            } else {
                proof {
                    let bs = s@;
                    if bs.len() > 1 {
                        assert(bs.last() == old_bs.last());
                    }
                }
            }
        } else {
            proof {
                assert(!has_layer(old_bs, layer as nat)) by {
                    lemma_zero_bit((layer % 64) as u64);
                }
                assert(s.layers() =~= layer_set(old_bs).remove(layer as nat));
            }
        }
        s
    }

    /// The word `op` makes of two words.
    fn apply_op(op: BlockOp, x: u64, y: u64) -> (r: u64)
        ensures
            r == op_word(op, x, y),
    {
        match op {
            BlockOp::And => x & y,
            BlockOp::Or => x | y,
            BlockOp::Xor => x ^ y,
        }
    }

    /// Applies `op` to corresponding blocks of `self` and `other`, a missing
    /// block reading as zero. The result may end in zero blocks.
    fn combine_blocks(&self, other: &Self, op: BlockOp) -> (r: Self)
        ensures
            r@ == combine(op, self@, other@),
    {
        let a_len = blocks_len(&self.blocks);
        let b_len = blocks_len(&other.blocks);
        let len = if a_len >= b_len {
            a_len
        } else {
            b_len
        };
        let mut mask = blocks_new();
        let mut i: usize = 0;
        while i < len
            invariant
                i <= len,
                a_len == self@.len(),
                b_len == other@.len(),
                len == combine(op, self@, other@).len(),
                block_words(mask) == combine(op, self@, other@).subrange(0, i as int),
            decreases len - i,
        {
            let a = if i < a_len {
                blocks_get(&self.blocks, i)
            } else {
                0u64
            };
            let b = if i < b_len {
                blocks_get(&other.blocks, i)
            } else {
                0u64
            };
            blocks_push(&mut mask, Self::apply_op(op, a, b));
            i = i + 1;
            proof {
                assert(block_words(mask) =~= combine(op, self@, other@).subrange(0, i as int));
            }
        }
        proof {
            assert(block_words(mask) =~= combine(op, self@, other@));
        }
        RenderLayers { blocks: mask }
    }

    /// Returns the layers shared by two instances of `RenderLayers`.
    ///
    /// This corresponds to the `self & other` operation.
    pub fn intersection(&self, other: &Self) -> (r: Self)
        requires
            self.wf(),
            other.wf(),
        ensures
            r.wf(),
            r@ == intersection_blocks(self@, other@),
            r.layers() == self.layers().intersect(other.layers()),
    {
        let c = self.combine_blocks(other, BlockOp::And);
        proof {
            assert(c@ =~= and_blocks(self@, other@));
            lemma_intersection_blocks(self@, other@);
        }
        c.shrink()
    }

    /// Returns all layers included in either instance of `RenderLayers`.
    ///
    /// This corresponds to the `self | other` operation. The result needs no
    /// shrinking: the last block of the longer operand is nonzero, and so is
    /// its union with anything.
    pub fn union(&self, other: &Self) -> (r: Self)
        requires
            self.wf(),
            other.wf(),
        ensures
            r.wf(),
            r@ == union_blocks(self@, other@),
            r.layers() == self.layers().union(other.layers()),
    {
        let c = self.combine_blocks(other, BlockOp::Or);
        proof {
            assert(c@ =~= union_blocks(self@, other@));
            lemma_union_blocks(self@, other@);
        }
        c
    }

    /// Returns all layers included in exactly one of the instances of `RenderLayers`.
    ///
    /// This corresponds to the exclusive or operation: `self ^ other`.
    pub fn symmetric_difference(&self, other: &Self) -> (r: Self)
        requires
            self.wf(),
            other.wf(),
        ensures
            r.wf(),
            r@ == symmetric_difference_blocks(self@, other@),
            r.layers() == self.layers().difference(other.layers()).union(
                other.layers().difference(self.layers()),
            ),
    {
        let c = self.combine_blocks(other, BlockOp::Xor);
        proof {
            assert(c@ =~= xor_blocks(self@, other@));
            lemma_symmetric_difference_blocks(self@, other@);
        }
        c.shrink()
    }


    /// Determine if a `RenderLayers` intersects another: whether they share
    /// any layer. A set with no layers intersects nothing, not even itself.
    pub fn intersects(&self, other: &RenderLayers) -> (r: bool)
        ensures
            r == shares_layer(self@, other@),
            r == exists|n: nat| self.layers().contains(n) && other.layers().contains(n),
    {
        let a_len = blocks_len(&self.blocks);
        let b_len = blocks_len(&other.blocks);
        let mut i: usize = 0;
        while i < a_len && i < b_len
            invariant
                a_len == self@.len(),
                b_len == other@.len(),
                forall|j: int| 0 <= j < i ==> self@[j] & other@[j] == 0,
            decreases a_len - i,
        {
            let x = blocks_get(&self.blocks, i);
            let y = blocks_get(&other.blocks, i);
            if x & y != 0 {
                proof {
                    lemma_nonzero_has_bit(x & y);
                    let k = choose|k: nat| k < 64 && bit_of(x & y, k);
                    lemma_and_bit(x, y, k as u64);
                    let n = (64 * i + k) as nat;
                    lemma_layer_index(i as int, k);
                    assert(self.layers().contains(n) && other.layers().contains(n));
                    assert(has_layer(self@, n) && has_layer(other@, n));
                }
                return true;
            }
            i = i + 1;
        }
        proof {
            assert forall|n: nat| !(has_layer(self@, n) && has_layer(other@, n)) by {
                let j = (n / 64) as int;
                let k = n % 64;
                if j < a_len && j < b_len {
                    lemma_and_bit(self@[j], other@[j], k as u64);
                    lemma_zero_bit(k as u64);
                } else {
                    lemma_zero_bit(k as u64);
                }
            }
        }
        false
    }

    /// Get the bitmask representation of the contained layers.
    pub fn bits(&self) -> (r: &[u64])
        ensures
            r@ == self@,
    {
        blocks_as_slice(&self.blocks)
    }

    /// Appends the layers of block `block_index`, whose word is `buffer`, in
    /// ascending order.
    fn iter_layers(buffer: u64, block_index: usize, out: &mut Vec<Layer>)
        requires
            block_index < max_blocks(),
            ascending(old(out)@),
            forall|j: int| 0 <= j < old(out)@.len() ==> old(out)@[j] < 64 * block_index,
        ensures
            ascending(final(out)@),
            forall|j: int| 0 <= j < final(out)@.len() ==> final(out)@[j] < 64 * block_index + 64,
            listed(final(out)@) == listed(old(out)@).union(
                Set::new(
                    |n: nat| 64 * block_index <= n < 64 * block_index + 64 && bit_of(
                        buffer,
                        (n - 64 * block_index) as nat,
                    ),
                ),
            ),
    {
        let ghost start = out@;
        let ghost this_block = Set::new(
            |n: nat| 64 * block_index <= n < 64 * block_index + 64 && bit_of(
                buffer,
                (n - 64 * block_index) as nat,
            ),
        );
        let base = block_index * 64;
        let mut k: u64 = 0;
        while k < 64
            invariant
                k <= 64,
                base == 64 * block_index,
                base + 63 <= usize::MAX,
                ascending(out@),
                forall|j: int| 0 <= j < out@.len() ==> out@[j] < base + k,
                listed(out@) == listed(start).union(
                    Set::new(
                        |n: nat| base <= n < base + k && bit_of(buffer, (n - base) as nat),
                    ),
                ),
            decreases 64 - k,
        {
            let ghost before = out@;
            let ghost prev = Set::new(
                |n: nat| base <= n < base + k && bit_of(buffer, (n - base) as nat),
            );
            let ghost next = Set::new(
                |n: nat| base <= n < base + k + 1 && bit_of(buffer, (n - base) as nat),
            );
            if (buffer >> k) & 1 == 1 {
                out.push(base + k as usize);
                proof {
                    lemma_listed_push(before, (base + k) as usize);
                    assert(next =~= prev.insert((base + k) as nat));
                }
            } else {
                proof {
                    assert(next =~= prev);
                }
            }
            k = k + 1;
        }
        proof {
            assert(Set::new(|n: nat| base <= n < base + 64 && bit_of(buffer, (n - base) as nat))
                =~= this_block);
        }
    }

    /// The layers of this set, in ascending order.
    pub fn iter(&self) -> (r: Vec<Layer>)
        requires
            self.wf(),
        ensures
            ascending(r@),
            listed(r@) == self.layers(),
    {
        let len = blocks_len(&self.blocks);
        let mut out: Vec<Layer> = Vec::new();
        let mut i: usize = 0;
        while i < len
            invariant
                i <= len,
                len == self@.len(),
                len <= max_blocks(),
                ascending(out@),
                forall|j: int| 0 <= j < out@.len() ==> out@[j] < 64 * i,
                listed(out@) == Set::new(|n: nat| n < 64 * i && self.layers().contains(n)),
            decreases len - i,
        {
            let ghost before = out@;
            let buffer = blocks_get(&self.blocks, i);
            Self::iter_layers(buffer, i, &mut out);
            i = i + 1;
            proof {
                assert forall|n: nat|
                    listed(out@).contains(n) <==> (n < 64 * i && self.layers().contains(n)) by {
                    if 64 * (i - 1) <= n < 64 * i {
                        let k = (n - 64 * (i - 1)) as nat;
                        lemma_layer_index(i - 1, k);
                    } else if n < 64 * (i - 1) {
                    } else {
                        assert(n / 64 >= i) by {
                            assert(n >= 64 * i);
                        }
                    }
                }
                assert(listed(out@) =~= Set::new(
                    |n: nat| n < 64 * i && self.layers().contains(n),
                ));
            }
        }
        proof {
            assert forall|n: nat| self.layers().contains(n) implies n < 64 * len by {
                if n >= 64 * len {
                    assert(n / 64 >= len);
                    lemma_zero_bit((n % 64) as u64);
                }
            }
            assert(listed(out@) =~= self.layers());
        }
        out
    }

    /// Create a `RenderLayers` from a list of layers; order and repetition do not matter.
    pub fn from_layers(layers: &[Layer]) -> (r: Self)
        ensures
            r.wf(),
            r.layers() == listed(layers@),
    {
        let mut r = Self::none();
        let mut i: usize = 0;
        while i < layers.len()
            invariant
                i <= layers@.len(),
                r.wf(),
                r.layers() == listed(layers@.subrange(0, i as int)),
            decreases layers@.len() - i,
        {
            proof {
                assert(layers@.subrange(0, i + 1) =~= layers@.subrange(0, i as int).push(
                    layers@[i as int],
                ));
                lemma_listed_push(layers@.subrange(0, i as int), layers@[i as int]);
            }
            r = r.with(layers[i]);
            i = i + 1;
        }
        proof {
            assert(layers@.subrange(0, i as int) =~= layers@);
            assert(listed(Seq::<usize>::empty()) =~= Set::<nat>::empty());
        }
        r
    }


    /// The debug text of this set: its name and its layers in ascending
    /// order, as in `RenderLayers([0, 1, 2, 3])`.
    pub fn debug_string(&self) -> (r: String)
        requires
            self.wf(),
        ensures
            exists|listing: Seq<usize>|
                ascending(listing) && listed(listing) == self.layers() && r@ == debug_tuple_text(
                    "RenderLayers"@,
                    listing,
                ),
    {
        let layers = self.iter();
        let r = format_tuple("RenderLayers", &layers);
        proof {
            assert(ascending(layers@) && listed(layers@) == self.layers());
        }
        r
    }
}

impl Clone for RenderLayers {
    fn clone(&self) -> (r: Self)
        ensures
            r@ == self@,
    {
        RenderLayers { blocks: blocks_clone(&self.blocks) }
    }
}

impl PartialEq for RenderLayers {
    fn eq(&self, other: &Self) -> (r: bool) {
        blocks_eq(&self.blocks, &other.blocks)
    }
}

impl vstd::std_specs::cmp::PartialEqSpecImpl for RenderLayers {
    open spec fn obeys_eq_spec() -> bool {
        true
    }

    open spec fn eq_spec(&self, other: &Self) -> bool {
        self@ == other@
    }
}

impl Eq for RenderLayers {

}

impl PartialOrd for RenderLayers {
    /// Sets are ordered lexicographically by their blocks.
    fn partial_cmp(&self, other: &Self) -> (r: Option<core::cmp::Ordering>) {
        Some(blocks_cmp(&self.blocks, &other.blocks))
    }
}

impl vstd::std_specs::cmp::PartialOrdSpecImpl for RenderLayers {
    open spec fn obeys_partial_cmp_spec() -> bool {
        true
    }

    open spec fn partial_cmp_spec(&self, other: &Self) -> Option<core::cmp::Ordering> {
        Some(lex_order(self@, other@))
    }
}

impl Default for RenderLayers {
    /// By default a set holds layer `0`, the first layer. This is distinct
    /// from [`RenderLayers::none`], which holds no layer.
    fn default() -> (r: Self)
        ensures
            r.wf(),
            r.layers() == set![0nat],
    {
        Self::layer(0)
    }
}

impl core::ops::BitAnd for RenderLayers {
    type Output = Self;

    fn bitand(self, rhs: Self) -> (r: Self)
        ensures
            r.wf(),
            r.layers() == self.layers().intersect(rhs.layers()),
    {
        self.intersection(&rhs)
    }
}

/// Both operands must be canonical. What the operator returns is stated by
/// the `ensures` of its method, over the layers.
impl vstd::std_specs::ops::BitAndSpecImpl for RenderLayers {
    open spec fn obeys_bitand_spec() -> bool {
        false
    }

    open spec fn bitand_req(self, rhs: Self) -> bool {
        self.wf() && rhs.wf()
    }

    open spec fn bitand_spec(self, rhs: Self) -> Self {
        arbitrary()
    }
}

impl core::ops::BitOr for RenderLayers {
    type Output = Self;

    fn bitor(self, rhs: Self) -> (r: Self)
        ensures
            r.wf(),
            r.layers() == self.layers().union(rhs.layers()),
    {
        self.union(&rhs)
    }
}

/// Both operands must be canonical. What the operator returns is stated by
/// the `ensures` of its method, over the layers.
impl vstd::std_specs::ops::BitOrSpecImpl for RenderLayers {
    open spec fn obeys_bitor_spec() -> bool {
        false
    }

    open spec fn bitor_req(self, rhs: Self) -> bool {
        self.wf() && rhs.wf()
    }

    open spec fn bitor_spec(self, rhs: Self) -> Self {
        arbitrary()
    }
}

impl core::ops::BitXor for RenderLayers {
    type Output = Self;

    fn bitxor(self, rhs: Self) -> (r: Self)
        ensures
            r.wf(),
            r.layers() == self.layers().difference(rhs.layers()).union(
                rhs.layers().difference(self.layers()),
            ),
    {
        self.symmetric_difference(&rhs)
    }
}

/// Both operands must be canonical. What the operator returns is stated by
/// the `ensures` of its method, over the layers.
impl vstd::std_specs::ops::BitXorSpecImpl for RenderLayers {
    open spec fn obeys_bitxor_spec() -> bool {
        false
    }

    open spec fn bitxor_req(self, rhs: Self) -> bool {
        self.wf() && rhs.wf()
    }

    open spec fn bitxor_spec(self, rhs: Self) -> Self {
        arbitrary()
    }
}

} // verus!
