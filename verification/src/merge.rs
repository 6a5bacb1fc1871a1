use vstd::prelude::*;

use crate::octree::{
    bit, child_byte, child_count, child_rank, count_bits_below, count_ones, get_ending,
    has_child, is_leaf, leaf_byte, lemma_count_bits_agree, lemma_count_bits_below_bit,
    lemma_count_bits_le, lemma_or_bit, lemma_rank_below_count, lemma_small_mask_bits, octant,
    spec_has_child, spec_is_leaf, child_pop_count, svo_lookup, svo_voxel, Chunk, AIR_MARKER,
};

verus! {

/// The child pointer of a branch node word.
pub open spec fn node_ptr(w: u32) -> int {
    (w & 0xFFFFu32) as int
}

/// The slot of child `i` of the branch node word `w`.
pub open spec fn child_slot(w: u32, i: u32) -> int {
    node_ptr(w) + child_rank(w, i)
}

/// What the octree stored in `d` holds at the voxel (x, y, z) below the node
/// `w` of the given level: `None` where it is empty, or the material. A leaf
/// node is solid with the material `w`; a branch node passes the voxel on to
/// the child whose octant holds it.
pub open spec fn node_hit(d: Seq<u32>, is_leaf: bool, w: u32, level: nat, x: int, y: int, z: int) -> Option<u32>
    decreases 5 - level,
{
    if is_leaf {
        Some(w)
    } else if level >= 5 {
        None
    } else {
        let i = octant(level as int, x, y, z);
        if !spec_has_child(w, i) {
            None
        } else if child_slot(w, i) >= d.len() {
            None
        } else {
            node_hit(d, spec_is_leaf(w, i), d[child_slot(w, i)], (level + 1) as nat, x, y, z)
        }
    }
}

/// The branch node `w` of the given level is well formed in `d`, with every
/// child block at or after `lo`: branches stop above the voxel level, and
/// every child block lies inside `d`.
pub open spec fn node_in(d: Seq<u32>, w: u32, level: nat, lo: int) -> bool
    decreases 5 - level,
{
    if level >= 5 {
        false
    } else {
        &&& lo <= node_ptr(w)
        &&& node_ptr(w) + child_count(w) <= d.len()
        &&& forall|i: u32|
            #![trigger spec_has_child(w, i)]
            i < 8 && spec_has_child(w, i) && !spec_is_leaf(w, i) ==> node_in(
                d,
                d[child_slot(w, i)],
                (level + 1) as nat,
                lo,
            )
    }
}

/// The first of two answers that is not empty: what lies on top wins.
pub open spec fn overlay(top: Option<u32>, below: Option<u32>) -> Option<u32> {
    if top is Some {
        top
    } else {
        below
    }
}

/// How many slots copying the subtree of the branch node `w` of the given
/// level, stored in `o`, appends: one block per branch node, as long as its
/// children.
pub open spec fn copy_cost(o: Seq<u32>, w: u32, level: nat) -> nat
    decreases 5 - level, 9nat,
{
    if level >= 5 {
        0
    } else {
        child_count(w) + copy_children_cost(o, w, level, 8)
    }
}

/// The copy cost of the branch children among the first `n` children of `w`.
pub open spec fn copy_children_cost(o: Seq<u32>, w: u32, level: nat, n: nat) -> nat
    decreases 5 - level, n,
{
    if level >= 5 || n == 0 {
        0
    } else {
        let i = (n - 1) as u32;
        copy_children_cost(o, w, level, (n - 1) as nat) + if spec_has_child(w, i) && !spec_is_leaf(
            w,
            i,
        ) && 0 <= child_slot(w, i) < o.len() {
            copy_cost(o, o[child_slot(w, i)], (level + 1) as nat)
        } else {
            0
        }
    }
}

proof fn lemma_copy_children_mono(o: Seq<u32>, w: u32, level: nat, m: nat, n: nat)
    requires
        m <= n,
    ensures
        copy_children_cost(o, w, level, m) <= copy_children_cost(o, w, level, n),
    decreases n,
{
    if m < n {
        lemma_copy_children_mono(o, w, level, m, (n - 1) as nat);
    }
}

/// A node word from its child byte, leaf byte and pointer.
pub open spec fn node_word(cc: u32, ll: u32, p: u32) -> u32 {
    (cc << 24u32) | (ll << 16u32) | p
}

/// The state of a merge after the first `n` children of the node `s` (a
/// solid leaf of `split_val` split into eight where `split`) have been
/// merged with those of the branch node `ov` of `o`: the length the data
/// has grown to from `start`, the child and leaf masks, whether some merged
/// child differs from the node's own, and each merged child (leaf flag and
/// word; `None` where neither node has one).
#[verifier::opaque]
pub open spec fn merge_children_shape(
    d: Seq<u32>,
    s: u32,
    split: bool,
    split_val: u32,
    o: Seq<u32>,
    ov: u32,
    level: nat,
    start: nat,
    n: nat,
) -> (nat, u32, u32, bool, Seq<Option<(bool, u32)>>)
    decreases 5 - level, n + 2,
{
    if level >= 5 || n == 0 {
        (start, 0u32, 0u32, false, Seq::empty())
    } else {
        children_step(
            d,
            s,
            split,
            split_val,
            o,
            ov,
            level,
            merge_children_shape(d, s, split, split_val, o, ov, level, start, (n - 1) as nat),
            (n - 1) as u32,
        )
    }
}

/// What child `i` becomes when the data is `len` long: a child only `ov`
/// has is copied into new blocks; a leaf of `ov` replaces the node's child;
/// two branches are merged in turn; a child only the node has stays. Gives
/// the child's leaf flag and word, the length after it, and whether it
/// differs from the node's own child.
pub open spec fn child_merge(
    d: Seq<u32>,
    s: u32,
    split: bool,
    split_val: u32,
    o: Seq<u32>,
    ov: u32,
    level: nat,
    len: nat,
    i: u32,
) -> (bool, u32, nat, bool)
    decreases 5 - level, 0nat,
{
    let oc = o[child_slot(ov, i)];
    let o_leaf = spec_is_leaf(ov, i);
    let s_leaf = spec_is_leaf(s, i);
    let sw = if split {
        split_val
    } else {
        d[child_slot(s, i)]
    };
    if level >= 5 {
        (false, 0u32, len, false)
    } else if !spec_has_child(s, i) {
        if o_leaf {
            (true, oc, len, true)
        } else {
            (
                false,
                node_word(child_byte(oc), leaf_byte(oc), len as u32),
                len + copy_cost(o, oc, (level + 1) as nat),
                true,
            )
        }
    } else if !spec_has_child(ov, i) {
        (s_leaf, sw, len, false)
    } else if o_leaf {
        (true, oc, len, !(s_leaf && sw == oc))
    } else {
        let m = merge_shape(d, sw, s_leaf, o, oc, (level + 1) as nat, len);
        (m.0, m.1, m.2, m.0 != s_leaf || m.1 != sw)
    }
}

/// The state after child `i` is merged after the state `prev`.
#[verifier::opaque]
pub open spec fn children_step(
    d: Seq<u32>,
    s: u32,
    split: bool,
    split_val: u32,
    o: Seq<u32>,
    ov: u32,
    level: nat,
    prev: (nat, u32, u32, bool, Seq<Option<(bool, u32)>>),
    i: u32,
) -> (nat, u32, u32, bool, Seq<Option<(bool, u32)>>)
    decreases 5 - level, 1nat,
{
    if !spec_has_child(s, i) && !spec_has_child(ov, i) {
        (prev.0, prev.1, prev.2, prev.3, prev.4.push(None))
    } else {
        let c = child_merge(d, s, split, split_val, o, ov, level, prev.0, i);
        (
            c.2,
            prev.1 | (1u32 << i),
            if c.0 {
                prev.2 | (1u32 << i)
            } else {
                prev.2
            },
            prev.3 || c.3,
            prev.4.push(Some((c.0, c.1))),
        )
    }
}

proof fn lemma_step_unfold(
    d: Seq<u32>,
    s: u32,
    split: bool,
    split_val: u32,
    o: Seq<u32>,
    ov: u32,
    level: nat,
    prev: (nat, u32, u32, bool, Seq<Option<(bool, u32)>>),
    i: u32,
)
    ensures
        children_step(d, s, split, split_val, o, ov, level, prev, i) == if !spec_has_child(s, i)
            && !spec_has_child(ov, i) {
            (prev.0, prev.1, prev.2, prev.3, prev.4.push(None))
        } else {
            let c = child_merge(d, s, split, split_val, o, ov, level, prev.0, i);
            (
                c.2,
                prev.1 | (1u32 << i),
                if c.0 {
                    prev.2 | (1u32 << i)
                } else {
                    prev.2
                },
                prev.3 || c.3,
                prev.4.push(Some((c.0, c.1))),
            )
        },
{
    reveal(children_step);
}

/// The merged node from its children's state `f`: eight equal leaves fold
/// into one; a node whose children all stayed keeps its block (at the
/// pointer of `s`), else a new block is appended at the end.
pub open spec fn shape_from_children(s: u32, f: (nat, u32, u32, bool, Seq<Option<(bool, u32)>>)) -> (bool, u32, nat) {
    let count = count_bits_below(f.1, 8);
    if count == 8 && uniform_leaves(f.4) {
        (true, (f.4[0]->0).1, f.0)
    } else if f.3 || count != child_count(s) {
        (false, node_word(f.1, f.2, f.0 as u32), f.0 + count)
    } else {
        (false, node_word(f.1, f.2, node_ptr(s) as u32), f.0)
    }
}

/// What merging the branch node `ov` of `o` into the node `sv` of `d` (a
/// solid leaf where `sl`) gives when the data is `start` long: the merged
/// node (leaf flag and word) and the length the data ends at. A leaf is
/// first split into eight leaves at the end of the data; then the children
/// are merged in order (`merge_children_shape`) and the node is built
/// (`shape_from_children`).
pub open spec fn merge_shape(d: Seq<u32>, sv: u32, sl: bool, o: Seq<u32>, ov: u32, level: nat, start: nat) -> (bool, u32, nat)
    decreases 5 - level, 11nat,
{
    if level >= 5 {
        (false, 0u32, start)
    } else {
        let s = if sl {
            node_word(0xFFu32, 0xFFu32, start as u32)
        } else {
            sv
        };
        let st = if sl {
            start + 8
        } else {
            start
        };
        shape_from_children(s, merge_children_shape(d, s, sl, sv, o, ov, level, st, 8))
    }
}

proof fn lemma_shape_unfold(d: Seq<u32>, sv: u32, sl: bool, o: Seq<u32>, ov: u32, level: nat, start: nat)
    requires
        level < 5,
    ensures
        merge_shape(d, sv, sl, o, ov, level, start) == shape_from_children(
            if sl {
                node_word(0xFFu32, 0xFFu32, start as u32)
            } else {
                sv
            },
            merge_children_shape(
                d,
                if sl {
                    node_word(0xFFu32, 0xFFu32, start as u32)
                } else {
                    sv
                },
                sl,
                sv,
                o,
                ov,
                level,
                if sl {
                    start + 8
                } else {
                    start
                },
                8,
            ),
        ),
{
    reveal(merge_children_shape);
    reveal(children_step);
    if sl {
        assert(merge_shape(d, sv, sl, o, ov, level, start) == shape_from_children(
            node_word(0xFFu32, 0xFFu32, start as u32),
            merge_children_shape(d, node_word(0xFFu32, 0xFFu32, start as u32), sl, sv, o, ov, level, start + 8, 8),
        ));
    } else {
        assert(merge_shape(d, sv, sl, o, ov, level, start) == shape_from_children(
            sv,
            merge_children_shape(d, sv, sl, sv, o, ov, level, start, 8),
        ));
    }
}

proof fn lemma_children_unfold(
    d: Seq<u32>,
    s: u32,
    split: bool,
    split_val: u32,
    o: Seq<u32>,
    ov: u32,
    level: nat,
    start: nat,
    n: nat,
)
    requires
        level < 5,
    ensures
        merge_children_shape(d, s, split, split_val, o, ov, level, start, 0) == (
            start,
            0u32,
            0u32,
            false,
            Seq::<Option<(bool, u32)>>::empty(),
        ),
        n > 0 ==> merge_children_shape(d, s, split, split_val, o, ov, level, start, n) == children_step(
            d,
            s,
            split,
            split_val,
            o,
            ov,
            level,
            merge_children_shape(d, s, split, split_val, o, ov, level, start, (n - 1) as nat),
            (n - 1) as u32,
        ),
{
    reveal(merge_children_shape);
    reveal(children_step);
}

/// Every child of a split node is a leaf.
proof fn lemma_split_leaves(p: u32)
    ensures
        forall|i: u32| i < 8 ==> #[trigger] spec_is_leaf(node_word(0xFFu32, 0xFFu32, p), i),
        forall|i: u32| i < 8 ==> #[trigger] spec_has_child(node_word(0xFFu32, 0xFFu32, p), i),
{
    assert forall|i: u32| i < 8 implies #[trigger] spec_is_leaf(node_word(0xFFu32, 0xFFu32, p), i) by {
        let w = node_word(0xFFu32, 0xFFu32, p);
        assert(((w >> ((i + 16) as u32)) & 1u32) == 1u32) by (bit_vector)
            requires
                w == (0xFFu32 << 24u32) | (0xFFu32 << 16u32) | p,
                i < 8,
        ;
    }
    assert forall|i: u32| i < 8 implies #[trigger] spec_has_child(node_word(0xFFu32, 0xFFu32, p), i) by {
        let w = node_word(0xFFu32, 0xFFu32, p);
        assert(((w >> ((i + 24) as u32)) & 1u32) == 1u32) by (bit_vector)
            requires
                w == (0xFFu32 << 24u32) | (0xFFu32 << 16u32) | p,
                i < 8,
        ;
    }
}

/// The merge reads the data only inside the node's subtree: growing the
/// data does not change its shape.
proof fn lemma_shape_frame(
    d1: Seq<u32>,
    d2: Seq<u32>,
    sv: u32,
    sl: bool,
    o: Seq<u32>,
    ov: u32,
    level: nat,
    start: nat,
    lo: int,
)
    requires
        !sl ==> node_in(d1, sv, level, lo),
        d2.len() >= d1.len(),
        forall|k: int| 0 <= k < d1.len() ==> d2[k] == d1[k],
    ensures
        merge_shape(d2, sv, sl, o, ov, level, start) == merge_shape(d1, sv, sl, o, ov, level, start),
    decreases 5 - level, 9nat,
{
    reveal(merge_children_shape);
    reveal(children_step);
    if level < 5 {
        let s = if sl {
            node_word(0xFFu32, 0xFFu32, start as u32)
        } else {
            sv
        };
        let st = if sl {
            start + 8
        } else {
            start
        };
        if sl {
            lemma_split_leaves(start as u32);
        }
        lemma_children_shape_frame(d1, d2, s, sl, sv, o, ov, level, st, 8, lo);
        lemma_shape_unfold(d1, sv, sl, o, ov, level, start);
        lemma_shape_unfold(d2, sv, sl, o, ov, level, start);
    }
}

proof fn lemma_children_shape_frame(
    d1: Seq<u32>,
    d2: Seq<u32>,
    s: u32,
    split: bool,
    split_val: u32,
    o: Seq<u32>,
    ov: u32,
    level: nat,
    start: nat,
    n: nat,
    lo: int,
)
    requires
        n <= 8,
        !split ==> node_in(d1, s, level, lo),
        split ==> forall|i: u32| i < 8 ==> #[trigger] spec_is_leaf(s, i),
        d2.len() >= d1.len(),
        forall|k: int| 0 <= k < d1.len() ==> d2[k] == d1[k],
    ensures
        merge_children_shape(d2, s, split, split_val, o, ov, level, start, n) == merge_children_shape(
            d1,
            s,
            split,
            split_val,
            o,
            ov,
            level,
            start,
            n,
        ),
    decreases 5 - level, n,
{
    reveal(merge_children_shape);
    reveal(children_step);
    if level < 5 && n > 0 {
        lemma_children_shape_frame(d1, d2, s, split, split_val, o, ov, level, start, (n - 1) as nat, lo);
        lemma_children_unfold(d1, s, split, split_val, o, ov, level, start, n);
        lemma_children_unfold(d2, s, split, split_val, o, ov, level, start, n);
        let prev = merge_children_shape(d1, s, split, split_val, o, ov, level, start, (n - 1) as nat);
        let i = (n - 1) as u32;
        if spec_has_child(s, i) {
            let sw = if split {
                split_val
            } else {
                d1[child_slot(s, i)]
            };
            if !split {
                lemma_rank_below_count(s, i);
                assert(d2[child_slot(s, i)] == sw);
            } else {
                assert(spec_is_leaf(s, i));
            }
            lemma_shape_frame(d1, d2, sw, spec_is_leaf(s, i), o, o[child_slot(ov, i)], (level + 1) as nat, prev.0, lo);
        }
    }
}

/// The data only grows while a merge works.
proof fn lemma_shape_grows(d: Seq<u32>, sv: u32, sl: bool, o: Seq<u32>, ov: u32, level: nat, start: nat)
    ensures
        merge_shape(d, sv, sl, o, ov, level, start).2 >= start,
    decreases 5 - level, 9nat,
{
    reveal(merge_children_shape);
    reveal(children_step);
    if level < 5 {
        let s = if sl {
            node_word(0xFFu32, 0xFFu32, start as u32)
        } else {
            sv
        };
        let st = if sl {
            start + 8
        } else {
            start
        };
        lemma_children_shape_grows(d, s, sl, sv, o, ov, level, st, 8, 8);
        lemma_shape_unfold(d, sv, sl, o, ov, level, start);
    }
}

proof fn lemma_children_shape_grows(
    d: Seq<u32>,
    s: u32,
    split: bool,
    split_val: u32,
    o: Seq<u32>,
    ov: u32,
    level: nat,
    start: nat,
    m: nat,
    n: nat,
)
    requires
        m <= n,
    ensures
        start <= merge_children_shape(d, s, split, split_val, o, ov, level, start, m).0
            <= merge_children_shape(d, s, split, split_val, o, ov, level, start, n).0,
        merge_children_shape(d, s, split, split_val, o, ov, level, start, n).4.len() == if level >= 5 {
            0
        } else {
            n
        },
    decreases 5 - level, n,
{
    reveal(merge_children_shape);
    reveal(children_step);
    if level < 5 && n > 0 {
        lemma_children_shape_grows(d, s, split, split_val, o, ov, level, start, if m == n {
            (n - 1) as nat
        } else {
            m
        }, (n - 1) as nat);
        lemma_children_unfold(d, s, split, split_val, o, ov, level, start, n);
        let prev = merge_children_shape(d, s, split, split_val, o, ov, level, start, (n - 1) as nat);
        let i = (n - 1) as u32;
        if spec_has_child(s, i) && spec_has_child(ov, i) && !spec_is_leaf(ov, i) {
            let sw = if split {
                split_val
            } else {
                d[child_slot(s, i)]
            };
            lemma_shape_grows(d, sw, spec_is_leaf(s, i), o, o[child_slot(ov, i)], (level + 1) as nat, prev.0);
        }
    }
}

/// Appending to the data, or changing it only before `lo`, keeps a subtree
/// whose blocks lie at or after `lo` as it was.
proof fn lemma_frame(d1: Seq<u32>, d2: Seq<u32>, w: u32, level: nat, lo: int)
    requires
        node_in(d1, w, level, lo),
        d2.len() >= d1.len(),
        forall|k: int| lo <= k < d1.len() ==> d2[k] == d1[k],
    ensures
        node_in(d2, w, level, lo),
        forall|x: int, y: int, z: int|
            #[trigger] node_hit(d2, false, w, level, x, y, z) == node_hit(d1, false, w, level, x, y, z),
    decreases 5 - level,
{
    assert forall|i: u32|
        #![trigger spec_has_child(w, i)]
        i < 8 && spec_has_child(w, i) && !spec_is_leaf(w, i) implies node_in(
            d2,
            d2[child_slot(w, i)],
            (level + 1) as nat,
            lo,
        ) && forall|x: int, y: int, z: int|
            #[trigger] node_hit(d2, false, d2[child_slot(w, i)], (level + 1) as nat, x, y, z)
                == node_hit(d1, false, d1[child_slot(w, i)], (level + 1) as nat, x, y, z) by {
        lemma_rank_below_count(w, i);
        lemma_frame(d1, d2, d1[child_slot(w, i)], (level + 1) as nat, lo);
    }
    assert forall|x: int, y: int, z: int|
        #[trigger] node_hit(d2, false, w, level, x, y, z) == node_hit(d1, false, w, level, x, y, z) by {
        reveal_with_fuel(node_hit, 2);
        let i = octant(level as int, x, y, z);
        if level < 5 && spec_has_child(w, i) {
            assert(i < 8);
            lemma_rank_below_count(w, i);
            let k = child_slot(w, i);
            assert(0 <= k < d1.len());
            assert(d2[k] == d1[k]);
            if !spec_is_leaf(w, i) {
                lemma_frame(d1, d2, d1[k], (level + 1) as nat, lo);
                assert(node_hit(d2, false, w, level, x, y, z) == node_hit(d2, false, d2[k], (level + 1) as nat, x, y, z));
                assert(node_hit(d1, false, w, level, x, y, z) == node_hit(d1, false, d1[k], (level + 1) as nat, x, y, z));
            } else {
                assert(node_hit(d2, false, w, level, x, y, z) == Some(d2[k]));
                assert(node_hit(d1, false, w, level, x, y, z) == Some(d1[k]));
            }
        }
    }
}

/// A subtree whose blocks lie at or after `lo` also lies at or after any
/// smaller bound.
proof fn lemma_in_lower(d: Seq<u32>, w: u32, level: nat, lo: int, lo2: int)
    requires
        node_in(d, w, level, lo),
        lo2 <= lo,
    ensures
        node_in(d, w, level, lo2),
    decreases 5 - level,
{
    assert forall|i: u32|
        #![trigger spec_has_child(w, i)]
        i < 8 && spec_has_child(w, i) && !spec_is_leaf(w, i) implies node_in(
            d,
            d[child_slot(w, i)],
            (level + 1) as nat,
            lo2,
        ) by {
        lemma_in_lower(d, d[child_slot(w, i)], (level + 1) as nat, lo, lo2);
    }
}

/// The parts of a node word built from a child byte, a leaf byte and a
/// pointer.
proof fn lemma_word(cc: u32, ll: u32, p: u32)
    requires
        cc < 256,
        ll < 256,
        p < 0x10000,
    ensures
        ({
            let w = (cc << 24u32) | (ll << 16u32) | p;
            &&& child_byte(w) == cc
            &&& leaf_byte(w) == ll
            &&& w & 0xFFFFu32 == p
            &&& forall|i: u32|
                i < 8 ==> (#[trigger] spec_has_child(w, i) == bit(cc, i) && spec_is_leaf(w, i)
                    == bit(ll, i))
        }),
{
    let w = (cc << 24u32) | (ll << 16u32) | p;
    assert(child_byte(w) == cc) by (bit_vector)
        requires
            cc < 256,
            ll < 256,
            p < 0x10000,
            w == (cc << 24u32) | (ll << 16u32) | p,
    ;
    assert(w & 0xFFFFu32 == p) by (bit_vector)
        requires
            cc < 256,
            ll < 256,
            p < 0x10000,
            w == (cc << 24u32) | (ll << 16u32) | p,
    ;
    assert(leaf_byte(w) == ll) by (bit_vector)
        requires
            cc < 256,
            ll < 256,
            p < 0x10000,
            w == (cc << 24u32) | (ll << 16u32) | p,
    ;
    assert forall|i: u32| i < 8 implies (#[trigger] spec_has_child(w, i) == bit(cc, i)
        && spec_is_leaf(w, i) == bit(ll, i)) by {
        assert(((w >> ((i + 24) as u32)) & 1u32 == 1u32) == ((cc >> i) & 1u32 == 1u32)
            && ((w >> ((i + 16) as u32)) & 1u32 == 1u32) == ((ll >> i) & 1u32 == 1u32))
            by (bit_vector)
            requires
                cc < 256,
                ll < 256,
                p < 0x10000,
                i < 8,
                w == (cc << 24u32) | (ll << 16u32) | p,
        ;
    }
}

/// The bits of the child and leaf bytes of a node word are its child and
/// leaf flags.
proof fn lemma_bytes(w: u32)
    ensures
        child_byte(w) < 256,
        leaf_byte(w) < 256,
        forall|i: u32|
            i < 8 ==> (#[trigger] bit(child_byte(w), i) == spec_has_child(w, i) && bit(
                leaf_byte(w),
                i,
            ) == spec_is_leaf(w, i)),
{
    assert(child_byte(w) < 256 && leaf_byte(w) < 256) by (bit_vector);
    assert forall|i: u32| i < 8 implies (#[trigger] bit(child_byte(w), i) == spec_has_child(w, i)
        && bit(leaf_byte(w), i) == spec_is_leaf(w, i)) by {
        assert((((w >> 24u32) >> i) & 1u32 == 1u32) == ((w >> ((i + 24) as u32)) & 1u32 == 1u32)
            && ((((w >> 16u32) & 0xFFu32) >> i) & 1u32 == 1u32) == ((w >> ((i + 16) as u32))
            & 1u32 == 1u32)) by (bit_vector)
            requires
                i < 8,
        ;
    }
}

/// A byte has no set bit from the eighth on.
proof fn lemma_count_byte(x: u32, n: nat)
    requires
        x < 256,
        8 <= n <= 32,
    ensures
        count_bits_below(x, n) == count_bits_below(x, 8),
    decreases n,
{
    if n > 8 {
        lemma_count_byte(x, (n - 1) as nat);
        let j = (n - 1) as u32;
        assert(!((x >> j) & 1u32 == 1u32)) by (bit_vector)
            requires
                x < 256,
                8 <= j < 32,
        ;
    }
}

/// The bit test written with a shifted mask.
proof fn lemma_mask_test(x: u32, i: u32)
    requires
        i < 32,
    ensures
        ((x & (1u32 << i)) != 0u32) == bit(x, i),
{
    assert(((x & (1u32 << i)) != 0u32) == ((x >> i) & 1u32 == 1u32)) by (bit_vector)
        requires
            i < 32,
    ;
}

/// What the copy of a subtree has stored so far: child `j` of the copied
/// node `val` sits at its slot of the new block at `new_pointer`, and holds
/// what the copied node's child holds.
spec fn copied_child(
    d: Seq<u32>,
    o: Seq<u32>,
    val: u32,
    level: nat,
    new_pointer: int,
    lo: int,
    j: u32,
) -> bool {
    let slot = new_pointer + count_bits_below(child_byte(val), j as nat);
    let leaf = spec_is_leaf(val, j);
    &&& 0 <= slot < d.len()
    &&& !leaf ==> node_in(d, d[slot], (level + 1) as nat, lo)
    &&& forall|x: int, y: int, z: int|
        #[trigger] node_hit(d, leaf, d[slot], (level + 1) as nat, x, y, z) == node_hit(
            o,
            leaf,
            o[child_slot(val, j)],
            (level + 1) as nat,
            x,
            y,
            z,
        )
}

impl Chunk {
    /// Copies the subtree of the node `val` of `other_data` (a leaf where
    /// `is_leaf`) into this chunk: its blocks are appended to the data, and
    /// the node that holds the copy is returned with its leaf flag.
    #[verifier::spinoff_prover]
    fn copy_subtree_from_other(
        &mut self,
        other_data: &[u32],
        val: u32,
        is_leaf: bool,
        Ghost(level): Ghost<nat>,
    ) -> (r: (bool, u32))
        requires
            !is_leaf ==> node_in(other_data@, val, level, 0),
            !is_leaf ==> old(self).data@.len() + copy_cost(other_data@, val, level) <= 0xFFFF,
        ensures
            final(self).min_pos == old(self).min_pos,
            final(self).max_pos == old(self).max_pos,
            final(self).data@.len() == old(self).data@.len() + if is_leaf {
                0
            } else {
                copy_cost(other_data@, val, level)
            },
            forall|k: int|
                0 <= k < old(self).data@.len() ==> final(self).data@[k] == old(self).data@[k],
            r.0 == is_leaf,
            is_leaf ==> r.1 == val,
            !is_leaf ==> child_byte(r.1) == child_byte(val) && leaf_byte(r.1) == leaf_byte(val)
                && node_ptr(r.1) == old(self).data@.len(),
            !is_leaf ==> r.1 == node_word(child_byte(val), leaf_byte(val), old(self).data@.len() as u32),
            !is_leaf ==> node_in(final(self).data@, r.1, level, old(self).data@.len() as int),
            forall|x: int, y: int, z: int|
                #[trigger] node_hit(final(self).data@, r.0, r.1, level, x, y, z) == node_hit(
                    other_data@,
                    is_leaf,
                    val,
                    level,
                    x,
                    y,
                    z,
                ),
        decreases 5 - level,
    {
        if is_leaf {
            return (true, val);
        }
        let ghost o = other_data@;
        let ghost start = self.data@.len() as int;
        let pointer = get_ending(val);
        let cc = val >> 24;
        let ll = (val >> 16) & 0xFF;
        proof {
            lemma_bytes(val);
            lemma_count_byte(cc, 32);
            lemma_count_bits_le(cc, 8);
        }
        let pop_count = count_ones(cc) as usize;
        let new_pointer = self.data.len() as u32;
        let mut k: usize = 0;
        while k < pop_count
            invariant
                k <= pop_count <= 8,
                start == new_pointer,
                self.data@.len() == start + k,
                forall|q: int| 0 <= q < start ==> self.data@[q] == old(self).data@[q],
                self.min_pos == old(self).min_pos,
                self.max_pos == old(self).max_pos,
            decreases pop_count - k,
        {
            self.data.push(0);
            k = k + 1;
        }
        let ghost block_end = start + pop_count;
        let mut idx: usize = 0;
        let mut i: u32 = 0;
        while i < 8
            invariant
                i <= 8,
                node_in(o, val, level, 0),
                level < 5,
                o == other_data@,
                start == new_pointer,
                block_end == start + pop_count,
                pop_count == count_bits_below(cc, 8),
                pop_count <= 8,
                cc == child_byte(val),
                ll == leaf_byte(val),
                pointer == node_ptr(val),
                idx == count_bits_below(cc, i as nat),
                start + copy_cost(o, val, level) <= 0xFFFF,
                self.data@.len() == block_end + copy_children_cost(o, val, level, i as nat),
                forall|q: int| 0 <= q < start ==> self.data@[q] == old(self).data@[q],
                self.min_pos == old(self).min_pos,
                self.max_pos == old(self).max_pos,
                forall|j: u32|
                    j < i && spec_has_child(val, j) ==> #[trigger] copied_child(
                        self.data@,
                        o,
                        val,
                        level,
                        start,
                        block_end,
                        j,
                    ),
            decreases 8 - i,
        {
            proof {
                lemma_bytes(val);
                lemma_mask_test(cc, i);
                lemma_mask_test(ll, i);
                lemma_copy_children_mono(o, val, level, (i + 1) as nat, 8);
            }
            if (cc & (1 << i)) != 0 {
                let child_is_leaf = (ll & (1 << i)) != 0;
                proof {
                    lemma_rank_below_count(val, i);
                    lemma_count_bits_below_bit(cc, i as nat, 8);
                }
                proof {
                    assert(node_ptr(val) + child_count(val) <= o.len());
                    assert(idx == child_rank(val, i));
                    assert(copy_children_cost(o, val, level, (i + 1) as nat) == copy_children_cost(
                        o,
                        val,
                        level,
                        i as nat,
                    ) + if !spec_is_leaf(val, i) {
                        copy_cost(o, o[child_slot(val, i)], (level + 1) as nat)
                    } else {
                        0
                    });
                }
                let olen = other_data.len();
                assert(pointer + idx < olen);
                let child_val = other_data[pointer as usize + idx];
                proof {
                    assert(child_val == o[child_slot(val, i)]);
                    if !child_is_leaf {
                        assert(self.data@.len() + copy_cost(o, child_val, (level + 1) as nat)
                            <= 0xFFFF);
                    }
                }
                let ghost before = self.data@;
                let copied = self.copy_subtree_from_other(
                    other_data,
                    child_val,
                    child_is_leaf,
                    Ghost((level + 1) as nat),
                );
                let ghost after_copy = self.data@;
                self.data.set(new_pointer as usize + idx, copied.1);
                proof {
                    let d = self.data@;
                    assert forall|q: int| 0 <= q < start implies d[q] == old(self).data@[q] by {}
                    assert forall|j: u32|
                        j < i + 1 && spec_has_child(val, j) implies #[trigger] copied_child(
                        d,
                        o,
                        val,
                        level,
                        start,
                        block_end,
                        j,
                    ) by {
                        let slot = start + count_bits_below(cc, j as nat);
                        if j < i {
                            assert(copied_child(before, o, val, level, start, block_end, j));
                            lemma_count_bits_below_bit(cc, j as nat, i as nat);
                            assert(slot != new_pointer + idx);
                            assert(d[slot] == before[slot]);
                            if !spec_is_leaf(val, j) {
                                lemma_frame(before, d, before[slot], (level + 1) as nat, block_end);
                            }
                            assert(0 <= slot < d.len());
                            assert forall|x: int, y: int, z: int|
                                #[trigger] node_hit(d, spec_is_leaf(val, j), d[slot], (level + 1) as nat, x, y, z)
                                    == node_hit(o, spec_is_leaf(val, j), o[child_slot(val, j)], (level + 1) as nat, x, y, z) by {
                                assert(node_hit(before, spec_is_leaf(val, j), before[slot], (level + 1) as nat, x, y, z)
                                    == node_hit(o, spec_is_leaf(val, j), o[child_slot(val, j)], (level + 1) as nat, x, y, z));
                            }
                        } else {
                            assert(j == i);
                            assert(slot == new_pointer + idx);
                            assert(slot < block_end);
                            assert(d[slot] == copied.1);
                            assert(copied.0 == spec_is_leaf(val, j));
                            assert(child_val == o[child_slot(val, j)]);
                            if !spec_is_leaf(val, j) {
                                lemma_in_lower(
                                    after_copy,
                                    copied.1,
                                    (level + 1) as nat,
                                    before.len() as int,
                                    block_end,
                                );
                                lemma_frame(after_copy, d, copied.1, (level + 1) as nat, block_end);
                            }
                            assert(0 <= slot < d.len());
                            assert forall|x: int, y: int, z: int|
                                #[trigger] node_hit(d, spec_is_leaf(val, j), d[slot], (level + 1) as nat, x, y, z)
                                    == node_hit(o, spec_is_leaf(val, j), o[child_slot(val, j)], (level + 1) as nat, x, y, z) by {
                                assert(node_hit(after_copy, copied.0, copied.1, (level + 1) as nat, x, y, z)
                                    == node_hit(o, child_is_leaf, child_val, (level + 1) as nat, x, y, z));
                            }
                        }
                    }
                }
                idx = idx + 1;
            }
            proof {
                assert(idx == count_bits_below(cc, (i + 1) as nat));
            }
            i = i + 1;
        }
        proof {
            lemma_word(cc, ll, new_pointer);
        }
        let w = (cc << 24) | (ll << 16) | new_pointer;
        proof {
            lemma_bytes(val);
            let d = self.data@;
            assert forall|j: u32| j < 8 implies child_rank(w, j) == count_bits_below(cc, j as nat) by {}
            assert(child_count(w) == pop_count);
            assert forall|j: u32|
                #![trigger spec_has_child(w, j)]
                j < 8 && spec_has_child(w, j) && !spec_is_leaf(w, j) implies node_in(
                    d,
                    d[child_slot(w, j)],
                    (level + 1) as nat,
                    start,
                ) by {
                assert(copied_child(d, o, val, level, start, block_end, j));
                lemma_in_lower(d, d[child_slot(w, j)], (level + 1) as nat, block_end, start);
            }
            assert forall|x: int, y: int, z: int|
                #[trigger] node_hit(d, false, w, level, x, y, z) == node_hit(
                    o,
                    false,
                    val,
                    level,
                    x,
                    y,
                    z,
                ) by {
                reveal_with_fuel(node_hit, 2);
                let j = octant(level as int, x, y, z);
                assert(spec_has_child(w, j) == spec_has_child(val, j));
                if spec_has_child(val, j) {
                    assert(copied_child(d, o, val, level, start, block_end, j));
                    lemma_rank_below_count(val, j);
                    lemma_rank_below_count(w, j);
                    let slot = start + count_bits_below(cc, j as nat);
                    assert(child_slot(w, j) == slot);
                    assert(spec_is_leaf(w, j) == spec_is_leaf(val, j));
                    if spec_is_leaf(val, j) {
                        assert(node_hit(d, true, d[slot], (level + 1) as nat, x, y, z) == Some(d[slot]));
                        assert(node_hit(d, false, w, level, x, y, z) == Some(d[slot]));
                        assert(node_hit(o, false, val, level, x, y, z) == Some(o[child_slot(val, j)]));
                    } else {
                        assert(node_hit(d, false, w, level, x, y, z) == node_hit(d, false, d[slot], (level + 1) as nat, x, y, z));
                        assert(node_hit(o, false, val, level, x, y, z) == node_hit(o, false, o[child_slot(val, j)], (level + 1) as nat, x, y, z));
                    }
                } else {
                    assert(node_hit(d, false, w, level, x, y, z) == None::<u32>);
                    assert(node_hit(o, false, val, level, x, y, z) == None::<u32>);
                }
            }
        }
        (false, w)
    }
}

/// What the child `j` of the branch node `w` holds at the voxel (x, y, z):
/// nothing where the child is missing.
spec fn child_hit(d: Seq<u32>, w: u32, level: nat, j: u32, x: int, y: int, z: int) -> Option<u32> {
    if spec_has_child(w, j) && 0 <= child_slot(w, j) < d.len() {
        node_hit(d, spec_is_leaf(w, j), d[child_slot(w, j)], (level + 1) as nat, x, y, z)
    } else {
        None
    }
}

/// A branch node holds at a voxel what its child for that voxel holds.
proof fn lemma_hit_by_child(d: Seq<u32>, w: u32, level: nat, x: int, y: int, z: int)
    requires
        level < 5,
    ensures
        octant(level as int, x, y, z) < 8,
        node_hit(d, false, w, level, x, y, z) == child_hit(
            d,
            w,
            level,
            octant(level as int, x, y, z),
            x,
            y,
            z,
        ),
{
}

/// The first `n` bits of a full byte are all set.
pub(crate) proof fn lemma_count_full(n: nat)
    requires
        n <= 8,
    ensures
        count_bits_below(0xFFu32, n) == n,
    decreases n,
{
    if n > 0 {
        lemma_count_full((n - 1) as nat);
        let j = (n - 1) as u32;
        assert((0xFFu32 >> j) & 1u32 == 1u32) by (bit_vector)
            requires
                j < 8,
        ;
    }
}

/// A solid leaf split into a branch whose eight children are leaves of the
/// same material, stored at `p`, holds the same everywhere.
proof fn lemma_subdivide(d: Seq<u32>, p: u32, sv: u32, level: nat, lo: int)
    requires
        level < 5,
        lo <= p,
        p < 0x10000,
        d.len() == p + 8,
        forall|k: int| p <= k < p + 8 ==> d[k] == sv,
    ensures
        node_in(d, (0xFFu32 << 24u32) | (0xFFu32 << 16u32) | p, level, lo),
        forall|x: int, y: int, z: int|
            #[trigger] node_hit(d, false, (0xFFu32 << 24u32) | (0xFFu32 << 16u32) | p, level, x, y, z)
                == Some(sv),
{
    let w = (0xFFu32 << 24u32) | (0xFFu32 << 16u32) | p;
    lemma_word(0xFF, 0xFF, p);
    lemma_count_full(8);
    assert forall|j: u32| j < 8 implies #[trigger] spec_has_child(w, j) && spec_is_leaf(w, j)
        && child_slot(w, j) == p + j by {
        assert(bit(0xFFu32, j)) by (bit_vector)
            requires
                j < 8,
        ;
        lemma_count_full(j as nat);
    }
    assert forall|x: int, y: int, z: int|
        #[trigger] node_hit(d, false, w, level, x, y, z) == Some(sv) by {
        lemma_hit_by_child(d, w, level, x, y, z);
        let j = octant(level as int, x, y, z);
        assert(spec_has_child(w, j));
    }
}

/// What merging has made of child `j` so far: `m` is the merged child (leaf
/// flag and word) in `d`, which holds the other child over this one's child.
spec fn merged_ok(
    d: Seq<u32>,
    o: Seq<u32>,
    s: Seq<u32>,
    sv: u32,
    ov: u32,
    level: nat,
    lo: int,
    j: u32,
    m: Option<(bool, u32)>,
) -> bool {
    match m {
        None => !spec_has_child(sv, j) && !spec_has_child(ov, j),
        Some((l, v)) => {
            &&& spec_has_child(sv, j) || spec_has_child(ov, j)
            &&& !l ==> node_in(d, v, (level + 1) as nat, lo)
            &&& forall|x: int, y: int, z: int|
                #[trigger] node_hit(d, l, v, (level + 1) as nat, x, y, z) == overlay(
                    child_hit(o, ov, level, j, x, y, z),
                    child_hit(s, sv, level, j, x, y, z),
                )
        },
    }
}

/// The merged child `j` is the node's own child, unchanged.
spec fn merged_same(s: Seq<u32>, sv: u32, ov: u32, j: u32, m: Option<(bool, u32)>) -> bool {
    &&& spec_has_child(ov, j) ==> spec_has_child(sv, j)
    &&& m matches Some((l, v)) ==> l == spec_is_leaf(sv, j) && v == s[child_slot(sv, j)]
}

/// A merged child stays what it was when the data only grows.
proof fn lemma_merged_frame(
    d1: Seq<u32>,
    d2: Seq<u32>,
    o: Seq<u32>,
    s: Seq<u32>,
    sv: u32,
    ov: u32,
    level: nat,
    lo: int,
    j: u32,
    m: Option<(bool, u32)>,
)
    requires
        0 <= lo,
        merged_ok(d1, o, s, sv, ov, level, lo, j, m),
        d2.len() >= d1.len(),
        forall|k: int| 0 <= k < d1.len() ==> d2[k] == d1[k],
    ensures
        merged_ok(d2, o, s, sv, ov, level, lo, j, m),
{
    if let Some((l, v)) = m {
        if !l {
            lemma_frame(d1, d2, v, (level + 1) as nat, lo);
        }
        assert forall|x: int, y: int, z: int|
            #[trigger] node_hit(d2, l, v, (level + 1) as nat, x, y, z) == overlay(
                child_hit(o, ov, level, j, x, y, z),
                child_hit(s, sv, level, j, x, y, z),
            ) by {
            assert(node_hit(d1, l, v, (level + 1) as nat, x, y, z) == overlay(
                child_hit(o, ov, level, j, x, y, z),
                child_hit(s, sv, level, j, x, y, z),
            ));
        }
    }
}

/// One more child flag added to a mask that has the flags of the children
/// before `i`.
proof fn lemma_mask_step(old_m: u32, m: u32, i: u32, set: bool)
    requires
        i < 8,
        old_m < (1u32 << i),
        m == if set {
            old_m | (1u32 << i)
        } else {
            old_m
        },
    ensures
        m < (1u32 << ((i + 1) as u32)),
        bit(m, i) == set,
        forall|j: u32| j < i ==> bit(m, j) == bit(old_m, j),
        count_bits_below(m, (i + 1) as nat) == count_bits_below(old_m, i as nat) + if set {
            1nat
        } else {
            0nat
        },
{
    assert forall|j: u32| j < 32 implies bit(m, j) == (bit(old_m, j) || (set && j == i)) by {
        if set {
            lemma_or_bit(old_m, i, j);
        }
    }
    assert forall|j: u32| i <= j < 32 implies !bit(old_m, j) by {
        lemma_small_mask_bits(old_m, i, j);
    }
    assert(m < (1u32 << ((i + 1) as u32))) by (bit_vector)
        requires
            i < 8,
            old_m < (1u32 << i),
            m == old_m || m == old_m | (1u32 << i),
    ;
    lemma_count_bits_agree(m, old_m, i as nat);
}

/// The branch node `w` has eight leaf children that all hold one material:
/// a single solid leaf would say the same.
pub open spec fn eight_equal_leaves(d: Seq<u32>, w: u32) -> bool {
    forall|i: u32|
        i < 8 ==> #[trigger] spec_has_child(w, i) && spec_is_leaf(w, i) && d[child_slot(w, i)]
            == d[node_ptr(w)]
}

/// All eight merged children are solid leaves of one material.
pub open spec fn uniform_leaves(m: Seq<Option<(bool, u32)>>) -> bool {
    &&& m[0] matches Some((true, _))
    &&& forall|q: int| 0 <= q < 8 ==> #[trigger] m[q] == m[0]
}

/// The merged child `j` is the other node's leaf child where the other node
/// has a leaf there, and the node's own child where only it has one.
spec fn child_word_ok(o: Seq<u32>, s: Seq<u32>, sv: u32, ov: u32, j: u32, m: Option<(bool, u32)>) -> bool {
    &&& spec_has_child(ov, j) && spec_is_leaf(ov, j) ==> m == Some((true, o[child_slot(ov, j)]))
    &&& !spec_has_child(ov, j) && spec_has_child(sv, j) ==> m == Some(
        (spec_is_leaf(sv, j), s[child_slot(sv, j)]),
    )
}

/// Child `i` of the merged node `w`, stored in `d`: it exists where the
/// node (`self_val` in `old_d`, a solid leaf where `self_is_leaf`) or the
/// other node `ov` of `o` has a child; where `ov` has a leaf child, it is
/// that leaf; where only the node has one, it is that child, unchanged (a
/// solid leaf's children are leaves of its material).
pub open spec fn merged_child_word(
    d: Seq<u32>,
    old_d: Seq<u32>,
    self_val: u32,
    self_is_leaf: bool,
    o: Seq<u32>,
    ov: u32,
    w: u32,
    i: u32,
) -> bool {
    let s_has = self_is_leaf || spec_has_child(self_val, i);
    &&& spec_has_child(w, i) == (s_has || spec_has_child(ov, i))
    &&& spec_has_child(ov, i) && spec_is_leaf(ov, i) ==> spec_is_leaf(w, i) && d[child_slot(w, i)]
        == o[child_slot(ov, i)]
    &&& !spec_has_child(ov, i) && s_has ==> spec_is_leaf(w, i) == (self_is_leaf || spec_is_leaf(
        self_val,
        i,
    )) && d[child_slot(w, i)] == if self_is_leaf {
        self_val
    } else {
        old_d[child_slot(self_val, i)]
    }
}

/// All eight children of the merged node are as `merged_child_word` says.
pub open spec fn merged_children_words(
    d: Seq<u32>,
    old_d: Seq<u32>,
    self_val: u32,
    self_is_leaf: bool,
    o: Seq<u32>,
    ov: u32,
    w: u32,
) -> bool {
    forall|i: u32|
        i < 8 ==> #[trigger] merged_child_word(d, old_d, self_val, self_is_leaf, o, ov, w, i)
}

/// The words of a merged node built from its merged children `m`.
proof fn lemma_result_words(
    d: Seq<u32>,
    od: Seq<u32>,
    self_val: u32,
    self_is_leaf: bool,
    o: Seq<u32>,
    s: Seq<u32>,
    sv: u32,
    ov: u32,
    w: u32,
    cc: u32,
    ll: u32,
    fp: int,
    m: Seq<Option<(bool, u32)>>,
)
    requires
        m.len() == 8,
        node_ptr(w) == fp,
        forall|j: u32| j < 8 ==> child_rank(w, j) == count_bits_below(cc, j as nat),
        forall|j: u32|
            j < 8 ==> (#[trigger] spec_has_child(w, j) == bit(cc, j) && spec_is_leaf(w, j) == bit(ll, j)),
        forall|j: u32|
            j < 8 ==> (#[trigger] bit(cc, j) == (m[j as int] is Some) && bit(ll, j) == (
            m[j as int] matches Some((true, _)))),
        forall|j: u32|
            j < 8 && (#[trigger] m[j as int]) is Some ==> d[fp + count_bits_below(cc, j as nat)] == (
            m[j as int]->0).1,
        forall|j: u32| j < 8 ==> child_word_ok(o, s, sv, ov, j, #[trigger] m[j as int]),
        forall|j: u32|
            j < 8 ==> ((#[trigger] m[j as int]) is None <==> !spec_has_child(sv, j) && !spec_has_child(ov, j)),
        self_is_leaf ==> forall|j: u32|
            j < 8 ==> #[trigger] spec_has_child(sv, j) && spec_is_leaf(sv, j) && s[child_slot(sv, j)]
                == self_val,
        !self_is_leaf ==> sv == self_val && s == od,
    ensures
        merged_children_words(d, od, self_val, self_is_leaf, o, ov, w),
{
    assert forall|i: u32| i < 8 implies #[trigger] merged_child_word(d, od, self_val, self_is_leaf, o, ov, w, i) by {
        assert(child_word_ok(o, s, sv, ov, i, m[i as int]));
        assert(bit(cc, i) == (m[i as int] is Some));
        assert(spec_has_child(w, i) == bit(cc, i));
        assert(spec_is_leaf(w, i) == bit(ll, i));
        assert(child_rank(w, i) == count_bits_below(cc, i as nat));
        assert(child_slot(w, i) == fp + count_bits_below(cc, i as nat));
        if self_is_leaf {
            assert(spec_has_child(sv, i));
        }
        if m[i as int] is Some {
            assert(d[fp + count_bits_below(cc, i as nat)] == (m[i as int]->0).1);
        }
    }
}

/// A merged node is never eight equal leaves unless its merged children
/// were: those are folded into one leaf before the node is built.
proof fn lemma_no_fold(d: Seq<u32>, w: u32, cc: u32, ll: u32, fp: int, m: Seq<Option<(bool, u32)>>)
    requires
        m.len() == 8,
        node_ptr(w) == fp,
        forall|j: u32| j < 8 ==> child_rank(w, j) == count_bits_below(cc, j as nat),
        forall|j: u32|
            j < 8 ==> (#[trigger] spec_has_child(w, j) == bit(cc, j) && spec_is_leaf(w, j) == bit(ll, j)),
        forall|j: u32|
            j < 8 ==> (#[trigger] bit(cc, j) == (m[j as int] is Some) && bit(ll, j) == (
            m[j as int] matches Some((true, _)))),
        forall|j: u32|
            j < 8 && (#[trigger] m[j as int]) is Some ==> d[fp + count_bits_below(cc, j as nat)] == (
            m[j as int]->0).1,
        count_bits_below(cc, 8) == 8 ==> !uniform_leaves(m),
    ensures
        !eight_equal_leaves(d, w),
{
    if eight_equal_leaves(d, w) {
        assert forall|j: u32| j < 8 implies bit(cc, j) == bit(0xFFu32, j) by {
            assert(spec_has_child(w, j) == bit(cc, j));
            assert(spec_has_child(w, j));
            assert(bit(0xFFu32, j)) by (bit_vector)
                requires
                    j < 8,
            ;
        }
        lemma_count_bits_agree(cc, 0xFFu32, 8);
        lemma_count_full(8);
        assert(spec_has_child(w, 0) == bit(cc, 0));
        assert(child_rank(w, 0) == count_bits_below(cc, 0));
        assert forall|q: int| 0 <= q < 8 implies #[trigger] m[q] == m[0] by {
            let j = q as u32;
            assert(spec_has_child(w, j) == bit(cc, j));
            assert(spec_has_child(w, j));
            assert(spec_is_leaf(w, j));
            assert(bit(cc, j) == (m[j as int] is Some));
            assert(bit(cc, 0) == (m[0] is Some));
            assert forall|t: u32| t < j implies bit(cc, t) == bit(0xFFu32, t) by {
                assert(spec_has_child(w, t) == bit(cc, t));
                assert(spec_has_child(w, t));
                assert(bit(0xFFu32, t)) by (bit_vector)
                    requires
                        t < 8,
                ;
            }
            lemma_count_bits_agree(cc, 0xFFu32, j as nat);
            lemma_count_full(j as nat);
            lemma_count_full(0);
            assert(child_rank(w, j) == count_bits_below(cc, j as nat));
            assert(child_slot(w, j) == fp + j);
            assert(child_slot(w, 0) == fp);
            assert(d[child_slot(w, j)] == d[node_ptr(w)]);
            assert(d[fp + count_bits_below(cc, j as nat)] == (m[j as int]->0).1);
            assert(d[fp + count_bits_below(cc, 0)] == (m[0]->0).1);
        }
        assert(uniform_leaves(m));
    }
}

impl Chunk {
    /// Merges the subtree of the node `other_val` of `other_data` (a leaf
    /// where `other_is_leaf`) into the subtree of this chunk's node
    /// `self_val` (a leaf where `self_is_leaf`), both of the given level:
    /// wherever the other subtree has a voxel, it wins. What is already in
    /// the data stays; new blocks are appended. Returns the merged node with
    /// its leaf flag; eight equal solid children become one solid node. The
    /// merged node and the length the data ends at are those `merge_shape`
    /// gives; the pointers it writes fit in 16 bits where that length does.
    #[verifier::spinoff_prover]
    #[verifier::rlimit(100)]
    fn merge_node_in_place(
        &mut self,
        self_val: u32,
        self_is_leaf: bool,
        other_data: &[u32],
        other_val: u32,
        other_is_leaf: bool,
        Ghost(level): Ghost<nat>,
        Ghost(lo): Ghost<int>,
    ) -> (r: (bool, u32))
        requires
            level <= 5,
            0 <= lo <= old(self).data@.len(),
            !self_is_leaf ==> node_in(old(self).data@, self_val, level, lo),
            !other_is_leaf ==> node_in(other_data@, other_val, level, 0),
            !other_is_leaf ==> merge_shape(
                old(self).data@,
                self_val,
                self_is_leaf,
                other_data@,
                other_val,
                level,
                old(self).data@.len(),
            ).2 <= 0xFFFF,
        ensures
            final(self).min_pos == old(self).min_pos,
            final(self).max_pos == old(self).max_pos,
            old(self).data@.len() <= final(self).data@.len(),
            !other_is_leaf ==> (r.0, r.1, final(self).data@.len()) == merge_shape(
                old(self).data@,
                self_val,
                self_is_leaf,
                other_data@,
                other_val,
                level,
                old(self).data@.len(),
            ),
            other_is_leaf ==> r == (true, other_val) && final(self).data@ == old(self).data@,
            forall|k: int|
                0 <= k < old(self).data@.len() ==> final(self).data@[k] == old(self).data@[k],
            !r.0 ==> node_in(final(self).data@, r.1, level, lo),
            !r.0 ==> !eight_equal_leaves(final(self).data@, r.1),
            !r.0 ==> merged_children_words(
                final(self).data@,
                old(self).data@,
                self_val,
                self_is_leaf,
                other_data@,
                other_val,
                r.1,
            ),
            forall|x: int, y: int, z: int|
                #[trigger] node_hit(final(self).data@, r.0, r.1, level, x, y, z) == overlay(
                    node_hit(other_data@, other_is_leaf, other_val, level, x, y, z),
                    node_hit(old(self).data@, self_is_leaf, self_val, level, x, y, z),
                ),
        decreases 5 - level,
    {
        if other_is_leaf {
            return (true, other_val);
        }
        let ghost o = other_data@;
        let ghost start = self.data@.len() as int;
        let ghost s0 = if self_is_leaf {
            node_word(0xFFu32, 0xFFu32, start as u32)
        } else {
            self_val
        };
        let ghost st: nat = if self_is_leaf {
            (start + 8) as nat
        } else {
            start as nat
        };
        let ghost f8 = merge_children_shape(old(self).data@, s0, self_is_leaf, self_val, o, other_val, level, st, 8);
        proof {
            assert(level < 5);
            lemma_shape_unfold(old(self).data@, self_val, self_is_leaf, o, other_val, level, start as nat);
            lemma_children_shape_grows(old(self).data@, s0, self_is_leaf, self_val, o, other_val, level, st, 8, 8);
            assert(merge_shape(old(self).data@, self_val, self_is_leaf, o, other_val, level, start as nat).2 >= f8.0);
            assert(st <= f8.0 <= 0xFFFF);
        }
        let mut s_val = self_val;
        let mut s_is_leaf = self_is_leaf;
        if s_is_leaf {
            let new_pointer = self.data.len() as u32;
            let mut k: usize = 0;
            while k < 8
                invariant
                    k <= 8,
                    start == new_pointer,
                    start + 8 <= 0xFFFF,
                    self.data@.len() == start + k,
                    forall|q: int| 0 <= q < start ==> self.data@[q] == old(self).data@[q],
                    forall|q: int| start <= q < start + k ==> self.data@[q] == self_val,
                    s_val == self_val,
                    self.min_pos == old(self).min_pos,
                    self.max_pos == old(self).max_pos,
                decreases 8 - k,
            {
                self.data.push(s_val);
                k = k + 1;
            }
            proof {
                lemma_subdivide(self.data@, new_pointer, self_val, level, lo);
            }
            s_val = (0xFF << 24) | (0xFF << 16) | new_pointer;
            s_is_leaf = false;
        }
        let ghost sd = self.data@;
        proof {
            assert(start <= sd.len() <= start + 8);
            if self_is_leaf {
                lemma_word(0xFF, 0xFF, start as u32);
                assert(s_val == (0xFFu32 << 24u32) | (0xFFu32 << 16u32) | (start as u32));
                assert forall|i: u32| i < 8 implies #[trigger] spec_has_child(s_val, i) && spec_is_leaf(s_val, i) by {
                    assert(bit(0xFFu32, i)) by (bit_vector)
                        requires
                            i < 8,
                    ;
                }
                assert(sd.len() == start + 8);
                assert forall|j: u32| j < 8 implies #[trigger] sd[child_slot(s_val, j)] == self_val by {
                    lemma_count_full(j as nat);
                    assert(child_byte(s_val) == 0xFFu32);
                    assert(child_slot(s_val, j) == start + j);
                }
            } else {
                assert(sd == old(self).data@);
            }
            assert(s_val == s0);
            assert(sd.len() == st);
            lemma_children_unfold(old(self).data@, s_val, self_is_leaf, self_val, o, other_val, level, sd.len() as nat, 0);
            assert forall|x: int, y: int, z: int|
                #[trigger] node_hit(sd, false, s_val, level, x, y, z) == node_hit(
                    old(self).data@,
                    self_is_leaf,
                    self_val,
                    level,
                    x,
                    y,
                    z,
                ) by {
                if !self_is_leaf {
                    assert(sd == old(self).data@);
                }
            }
        }
        let s_pointer = get_ending(s_val);
        let o_pointer = get_ending(other_val);
        let mut new_cc: u32 = 0;
        let mut new_ll: u32 = 0;
        let mut merged_children: Vec<Option<(bool, u32)>> = Vec::new();
        let mut k: usize = 0;
        while k < 8
            invariant
                k <= 8,
                merged_children@.len() == k,
                forall|q: int| 0 <= q < k ==> merged_children@[q] is None,
            decreases 8 - k,
        {
            merged_children.push(None);
            k = k + 1;
        }
        let mut mask_changed = false;
        let mut children_count: u32 = 0;
        assert((1u32 << 0u32) == 1u32) by (bit_vector);
        let mut i: u32 = 0;
        while i < 8
            invariant
                i <= 8,
                level < 5,
                o == other_data@,
                node_in(o, other_val, level, 0),
                f8 == merge_children_shape(old(self).data@, s_val, self_is_leaf, self_val, o, other_val, level, sd.len() as nat, 8),
                f8.0 <= 0xFFFF,
                self_is_leaf ==> forall|j: u32| j < 8 ==> #[trigger] sd[child_slot(s_val, j)] == self_val,
                !self_is_leaf ==> sd == old(self).data@ && s_val == self_val,
                self_is_leaf ==> forall|j: u32| j < 8 ==> #[trigger] spec_has_child(s_val, j) && spec_is_leaf(s_val, j),
                start == old(self).data@.len(),
                start <= sd.len() <= start + 8,
                0 <= lo <= start,
                node_in(sd, s_val, level, lo),
                forall|q: int| 0 <= q < start ==> sd[q] == old(self).data@[q],
                self.data@.len() == merge_children_shape(old(self).data@, s_val, self_is_leaf, self_val, o, other_val, level, sd.len() as nat, i as nat).0,
                new_cc == merge_children_shape(old(self).data@, s_val, self_is_leaf, self_val, o, other_val, level, sd.len() as nat, i as nat).1,
                new_ll == merge_children_shape(old(self).data@, s_val, self_is_leaf, self_val, o, other_val, level, sd.len() as nat, i as nat).2,
                mask_changed == merge_children_shape(old(self).data@, s_val, self_is_leaf, self_val, o, other_val, level, sd.len() as nat, i as nat).3,
                forall|j: int| 0 <= j < i ==> merged_children@[j] == merge_children_shape(old(self).data@, s_val, self_is_leaf, self_val, o, other_val, level, sd.len() as nat, i as nat).4[j],
                sd.len() <= self.data@.len(),
                forall|q: int| 0 <= q < sd.len() ==> self.data@[q] == sd[q],
                s_pointer == node_ptr(s_val),
                o_pointer == node_ptr(other_val),
                merged_children@.len() == 8,
                forall|j: u32| i <= j < 8 ==> (#[trigger] merged_children@[j as int]) is None,
                forall|j: u32|
                    j < i ==> child_word_ok(o, sd, s_val, other_val, j, #[trigger] merged_children@[j as int]),
                forall|j: u32|
                    j < i ==> merged_ok(
                        self.data@,
                        o,
                        sd,
                        s_val,
                        other_val,
                        level,
                        lo,
                        j,
                        #[trigger] merged_children@[j as int],
                    ),
                !mask_changed ==> forall|j: u32|
                    j < i ==> merged_same(
                        sd,
                        s_val,
                        other_val,
                        j,
                        #[trigger] merged_children@[j as int],
                    ),
                new_cc < (1u32 << i),
                new_ll < (1u32 << i),
                forall|j: u32|
                    j < i ==> (#[trigger] bit(new_cc, j) == (merged_children@[j as int] is Some)
                        && bit(new_ll, j) == (merged_children@[j as int] matches Some((true, _)))),
                children_count == count_bits_below(new_cc, i as nat),
                self.min_pos == old(self).min_pos,
                self.max_pos == old(self).max_pos,
            decreases 8 - i,
        {
            let s_has = has_child(s_val, i);
            let o_has = has_child(other_val, i);
            let ghost before = self.data@;
            let ghost old_cc = new_cc;
            let ghost old_ll = new_ll;
            let ghost old_m = merged_children@;
            let ghost old_changed = mask_changed;
            proof {
                lemma_count_bits_le(new_cc, i as nat);
                lemma_children_unfold(old(self).data@, s_val, self_is_leaf, self_val, o, other_val, level, sd.len() as nat, (i + 1) as nat);
                lemma_step_unfold(
                    old(self).data@,
                    s_val,
                    self_is_leaf,
                    self_val,
                    o,
                    other_val,
                    level,
                    merge_children_shape(old(self).data@, s_val, self_is_leaf, self_val, o, other_val, level, sd.len() as nat, i as nat),
                    i,
                );
                lemma_children_shape_grows(old(self).data@, s_val, self_is_leaf, self_val, o, other_val, level, sd.len() as nat, (i + 1) as nat, 8);
                lemma_children_shape_grows(old(self).data@, s_val, self_is_leaf, self_val, o, other_val, level, sd.len() as nat, i as nat, i as nat);
                if s_has {
                    lemma_rank_below_count(s_val, i);
                }
                if o_has {
                    lemma_rank_below_count(other_val, i);
                }
            }
            if s_has || o_has {
                if !s_has && o_has {
                    mask_changed = true;
                    let o_child_is_leaf = is_leaf(other_val, i);
                    let olen = other_data.len();
                    assert(o_pointer + child_rank(other_val, i) < olen);
                    let o_idx = o_pointer as usize + child_pop_count(other_val, i) as usize;
                    let copied = self.copy_subtree_from_other(
                        other_data,
                        other_data[o_idx],
                        o_child_is_leaf,
                        Ghost((level + 1) as nat),
                    );
                    proof {
                        let now = self.data@;
                        let m = Some(copied);
                        if !copied.0 {
                            lemma_in_lower(now, copied.1, (level + 1) as nat, before.len() as int, lo);
                        }
                        assert forall|x: int, y: int, z: int|
                            #[trigger] node_hit(now, copied.0, copied.1, (level + 1) as nat, x, y, z)
                                == overlay(
                                child_hit(o, other_val, level, i, x, y, z),
                                child_hit(sd, s_val, level, i, x, y, z),
                            ) by {
                            assert(node_hit(now, copied.0, copied.1, (level + 1) as nat, x, y, z)
                                == node_hit(o, o_child_is_leaf, o[o_idx as int], (level + 1) as nat, x, y, z));
                        }
                        assert(merged_ok(now, o, sd, s_val, other_val, level, lo, i, m));
                    }
                    merged_children.set(i as usize, Some(copied));
                    new_cc |= 1 << i;
                    if copied.0 {
                        new_ll |= 1 << i;
                    }
                    children_count += 1;
                } else if s_has && !o_has {
                    let s_child_is_leaf = is_leaf(s_val, i);
                    let s_idx = s_pointer as usize + child_pop_count(s_val, i) as usize;
                    let s_child_val = self.data[s_idx];
                    proof {
                        let now = self.data@;
                        assert(s_child_val == sd[child_slot(s_val, i)]);
                        if !s_child_is_leaf {
                            lemma_frame(sd, now, s_child_val, (level + 1) as nat, lo);
                        }
                        assert forall|x: int, y: int, z: int|
                            #[trigger] node_hit(now, s_child_is_leaf, s_child_val, (level + 1) as nat, x, y, z)
                                == overlay(
                                child_hit(o, other_val, level, i, x, y, z),
                                child_hit(sd, s_val, level, i, x, y, z),
                            ) by {
                            assert(node_hit(now, s_child_is_leaf, s_child_val, (level + 1) as nat, x, y, z)
                                == node_hit(sd, s_child_is_leaf, s_child_val, (level + 1) as nat, x, y, z));
                        }
                        assert(merged_ok(now, o, sd, s_val, other_val, level, lo, i, Some((s_child_is_leaf, s_child_val))));
                        assert(merged_same(sd, s_val, other_val, i, Some((s_child_is_leaf, s_child_val))));
                    }
                    merged_children.set(i as usize, Some((s_child_is_leaf, s_child_val)));
                    new_cc |= 1 << i;
                    if s_child_is_leaf {
                        new_ll |= 1 << i;
                    }
                    children_count += 1;
                } else {
                    let s_child_is_leaf = is_leaf(s_val, i);
                    let s_idx = s_pointer as usize + child_pop_count(s_val, i) as usize;
                    let o_child_is_leaf = is_leaf(other_val, i);
                    let olen = other_data.len();
                    assert(o_pointer + child_rank(other_val, i) < olen);
                    let o_idx = o_pointer as usize + child_pop_count(other_val, i) as usize;
                    let s_child_val = self.data[s_idx];
                    let o_child_val = other_data[o_idx];
                    proof {
                        assert(s_child_val == sd[child_slot(s_val, i)]);
                        assert(o_child_val == o[child_slot(other_val, i)]);
                        if !s_child_is_leaf {
                            lemma_frame(sd, before, s_child_val, (level + 1) as nat, lo);
                        }
                        if !o_child_is_leaf {
                            assert forall|k: int| 0 <= k < old(self).data@.len() implies before[k] == old(self).data@[k] by {
                                assert(before[k] == sd[k]);
                            }
                            lemma_shape_frame(
                                old(self).data@,
                                before,
                                s_child_val,
                                s_child_is_leaf,
                                o,
                                o_child_val,
                                (level + 1) as nat,
                                before.len() as nat,
                                lo,
                            );
                        }
                    }
                    let merged_child = self.merge_node_in_place(
                        s_child_val,
                        s_child_is_leaf,
                        other_data,
                        o_child_val,
                        o_child_is_leaf,
                        Ghost((level + 1) as nat),
                        Ghost(lo),
                    );
                    if merged_child.0 != s_child_is_leaf || merged_child.1 != s_child_val {
                        mask_changed = true;
                    }
                    proof {
                        let now = self.data@;
                        assert forall|x: int, y: int, z: int|
                            #[trigger] node_hit(now, merged_child.0, merged_child.1, (level + 1) as nat, x, y, z)
                                == overlay(
                                child_hit(o, other_val, level, i, x, y, z),
                                child_hit(sd, s_val, level, i, x, y, z),
                            ) by {
                            assert(node_hit(before, s_child_is_leaf, s_child_val, (level + 1) as nat, x, y, z)
                                == node_hit(sd, s_child_is_leaf, s_child_val, (level + 1) as nat, x, y, z));
                        }
                        assert(merged_ok(now, o, sd, s_val, other_val, level, lo, i, Some(merged_child)));
                        if !mask_changed {
                            assert(merged_same(sd, s_val, other_val, i, Some(merged_child)));
                        }
                    }
                    merged_children.set(i as usize, Some(merged_child));
                    new_cc |= 1 << i;
                    if merged_child.0 {
                        new_ll |= 1 << i;
                    }
                    children_count += 1;
                }
            }
            proof {
                let now = self.data@;
                let present = s_has || o_has;
                lemma_mask_step(old_cc, new_cc, i, present);
                lemma_mask_step(
                    old_ll,
                    new_ll,
                    i,
                    merged_children@[i as int] matches Some((true, _)),
                );
                assert forall|j: u32| j < i implies merged_ok(now, o, sd, s_val, other_val, level, lo,
                    j,
                    #[trigger] merged_children@[j as int],
                ) by {
                    assert(merged_children@[j as int] == old_m[j as int]);
                    lemma_merged_frame(before, now, o, sd, s_val, other_val, level, lo, j, old_m[j as int]);
                }
                if !present {
                    assert(merged_ok(now, o, sd, s_val, other_val, level, lo, i, None));
                }
                assert forall|j: u32|
                    j < i + 1 implies (#[trigger] bit(new_cc, j) == (merged_children@[j as int] is Some)
                        && bit(new_ll, j) == (merged_children@[j as int] matches Some((true, _)))) by {
                    if j < i {
                        assert(merged_children@[j as int] == old_m[j as int]);
                        assert(bit(old_cc, j) == (old_m[j as int] is Some));
                    }
                }
                if !mask_changed {
                    assert forall|j: u32| j < i + 1 implies merged_same(
                        sd,
                        s_val,
                        other_val,
                        j,
                        #[trigger] merged_children@[j as int],
                    ) by {
                        if j < i {
                            assert(merged_children@[j as int] == old_m[j as int]);
                        }
                    }
                }
            }
            i = i + 1;
        }
        let ghost cur0 = self.data@;
        proof {
            assert((1u32 << 8u32) == 256u32) by (bit_vector);
            lemma_shape_unfold(old(self).data@, self_val, self_is_leaf, o, other_val, level, start as nat);
            assert(merged_children@ =~= merge_children_shape(old(self).data@, s_val, self_is_leaf, self_val, o, other_val, level, sd.len() as nat, 8).4);
            assert forall|x: int, y: int, z: int|
                #[trigger] node_hit(sd, false, s_val, level, x, y, z) == node_hit(
                    old(self).data@,
                    self_is_leaf,
                    self_val,
                    level,
                    x,
                    y,
                    z,
                ) by {
                if !self_is_leaf {
                    assert(sd == old(self).data@);
                }
            }
        }
        self.finish_merge(
            merged_children,
            new_cc,
            new_ll,
            mask_changed,
            children_count,
            s_val,
            s_pointer,
            other_val,
            Ghost(old(self).data@),
            Ghost(o),
            Ghost(sd),
            Ghost(self_val),
            Ghost(self_is_leaf),
            Ghost(level),
            Ghost(lo),
            Ghost(start),
        )
    }

    /// The end of a merge: folds eight equal leaves into one, or builds the
    /// merged node from its merged children `merged_children`, appending a
    /// new block where a child changed.
    #[verifier::spinoff_prover]
    #[verifier::rlimit(100)]
    fn finish_merge(
        &mut self,
        merged_children: Vec<Option<(bool, u32)>>,
        new_cc: u32,
        new_ll: u32,
        mut mask_changed: bool,
        children_count: u32,
        s_val: u32,
        s_pointer: u32,
        other_val: u32,
        Ghost(od): Ghost<Seq<u32>>,
        Ghost(o): Ghost<Seq<u32>>,
        Ghost(sd): Ghost<Seq<u32>>,
        Ghost(self_val): Ghost<u32>,
        Ghost(self_is_leaf): Ghost<bool>,
        Ghost(level): Ghost<nat>,
        Ghost(lo): Ghost<int>,
        Ghost(start): Ghost<int>,
    ) -> (r: (bool, u32))
        requires
            level < 5,
            0 <= lo <= start,
            start == od.len(),
            start <= sd.len() <= start + 8,
            node_in(o, other_val, level, 0),
            node_in(sd, s_val, level, lo),
            forall|q: int| 0 <= q < start ==> sd[q] == od[q],
            sd.len() <= old(self).data@.len(),
            forall|q: int| 0 <= q < sd.len() ==> old(self).data@[q] == sd[q],
            s_pointer == node_ptr(s_val),
            merged_children@.len() == 8,
            forall|j: u32|
                j < 8 ==> merged_ok(
                    old(self).data@,
                    o,
                    sd,
                    s_val,
                    other_val,
                    level,
                    lo,
                    j,
                    #[trigger] merged_children@[j as int],
                ),
            !mask_changed ==> forall|j: u32|
                j < 8 ==> merged_same(sd, s_val, other_val, j, #[trigger] merged_children@[j as int]),
            forall|j: u32| j < 8 ==> child_word_ok(o, sd, s_val, other_val, j, #[trigger] merged_children@[j as int]),
            new_cc < 256,
            new_ll < 256,
            forall|j: u32|
                j < 8 ==> (#[trigger] bit(new_cc, j) == (merged_children@[j as int] is Some) && bit(new_ll, j)
                    == (merged_children@[j as int] matches Some((true, _)))),
            children_count == count_bits_below(new_cc, 8),
            forall|x: int, y: int, z: int|
                #[trigger] node_hit(sd, false, s_val, level, x, y, z) == node_hit(od, self_is_leaf, self_val, level, x, y, z),
            self_is_leaf ==> forall|j: u32| j < 8 ==> #[trigger] spec_has_child(s_val, j) && spec_is_leaf(s_val, j),
            self_is_leaf ==> forall|j: u32| j < 8 ==> #[trigger] sd[child_slot(s_val, j)] == self_val,
            !self_is_leaf ==> sd == od && s_val == self_val,
            merge_shape(od, self_val, self_is_leaf, o, other_val, level, start as nat).2 <= 0xFFFF,
            ({
                let f8 = merge_children_shape(od, s_val, self_is_leaf, self_val, o, other_val, level, sd.len() as nat, 8);
                &&& old(self).data@.len() == f8.0
                &&& new_cc == f8.1
                &&& new_ll == f8.2
                &&& mask_changed == f8.3
                &&& merged_children@ == f8.4
                &&& merge_shape(od, self_val, self_is_leaf, o, other_val, level, start as nat) == shape_from_children(s_val, f8)
            }),
        ensures
            final(self).min_pos == old(self).min_pos,
            final(self).max_pos == old(self).max_pos,
            old(self).data@.len() <= final(self).data@.len(),
            forall|k: int| 0 <= k < old(self).data@.len() ==> final(self).data@[k] == old(self).data@[k],
            (r.0, r.1, final(self).data@.len()) == merge_shape(od, self_val, self_is_leaf, o, other_val, level, start as nat),
            !r.0 ==> node_in(final(self).data@, r.1, level, lo),
            !r.0 ==> !eight_equal_leaves(final(self).data@, r.1),
            !r.0 ==> merged_children_words(final(self).data@, od, self_val, self_is_leaf, o, other_val, r.1),
            forall|x: int, y: int, z: int|
                #[trigger] node_hit(final(self).data@, r.0, r.1, level, x, y, z) == overlay(
                    node_hit(o, false, other_val, level, x, y, z),
                    node_hit(od, self_is_leaf, self_val, level, x, y, z),
                ),
    {
        let ghost cur = self.data@;
        let ghost f8 = merge_children_shape(od, s_val, self_is_leaf, self_val, o, other_val, level, sd.len() as nat, 8);
        proof {
            lemma_bytes(s_val);
            lemma_bytes(other_val);
            lemma_count_bits_le(new_cc, 8);
            assert(cur.len() == f8.0);
            assert(merged_children@ == f8.4);
            assert(f8.0 <= merge_shape(od, self_val, self_is_leaf, o, other_val, level, start as nat).2);
            assert forall|x: int, y: int, z: int|
                #[trigger] overlay(
                    node_hit(o, false, other_val, level, x, y, z),
                    node_hit(od, self_is_leaf, self_val, level, x, y, z),
                ) == overlay(
                    child_hit(o, other_val, level, octant(level as int, x, y, z), x, y, z),
                    child_hit(sd, s_val, level, octant(level as int, x, y, z), x, y, z),
                ) by {
                lemma_hit_by_child(o, other_val, level, x, y, z);
                lemma_hit_by_child(sd, s_val, level, x, y, z);
                assert(node_hit(sd, false, s_val, level, x, y, z) == node_hit(
                    od,
                    self_is_leaf,
                    self_val,
                    level,
                    x,
                    y,
                    z,
                ));
            }
        }
        if children_count == 8 {
            let mut all_same_leaf = true;
            let mut first_payload: u32 = 0;
            let mut j: usize = 0;
            while j < 8 && all_same_leaf
                invariant
                    j <= 8,
                    merged_children@.len() == 8,
                    all_same_leaf ==> forall|q: int|
                        0 <= q < j ==> merged_children@[q] == Some((true, first_payload)),
                    !all_same_leaf ==> !uniform_leaves(merged_children@),
                decreases 8 - j,
            {
                match merged_children[j] {
                    Some((true, p)) => {
                        if j == 0 {
                            first_payload = p;
                        } else if p != first_payload {
                            proof {
                                assert(merged_children@[0] == Some((true, first_payload)));
                                if uniform_leaves(merged_children@) {
                                    assert(merged_children@[j as int] == merged_children@[0]);
                                }
                            }
                            all_same_leaf = false;
                        }
                    },
                    _ => {
                        proof {
                            if uniform_leaves(merged_children@) {
                                assert(merged_children@[j as int] == merged_children@[0]);
                            }
                        }
                        all_same_leaf = false;
                    },
                }
                j = j + 1;
            }
            if all_same_leaf {
                proof {
                    assert forall|x: int, y: int, z: int|
                        #[trigger] node_hit(cur, true, first_payload, level, x, y, z) == overlay(
                            node_hit(o, false, other_val, level, x, y, z),
                            node_hit(od, self_is_leaf, self_val, level, x, y, z),
                        ) by {
                        let q = octant(level as int, x, y, z);
                        lemma_hit_by_child(o, other_val, level, x, y, z);
                        assert(merged_children@[q as int] == Some((true, first_payload)));
                        assert(merged_ok(cur, o, sd, s_val, other_val, level, lo, q, merged_children@[q as int]));
                        assert(node_hit(cur, true, first_payload, (level + 1) as nat, x, y, z) == Some(first_payload));
                    }
                    assert(uniform_leaves(merged_children@));
                    assert((f8.4[0]->0).1 == first_payload);
                }
                return (true, first_payload);
            }
        }
        assert(children_count != 8 || !uniform_leaves(merged_children@));
        proof {
            lemma_count_byte(child_byte(s_val), 32);
        }
        let own_count = count_ones(s_val >> 24);
        assert(own_count == child_count(s_val));
        if children_count != own_count {
            mask_changed = true;
        }
        let mut final_pointer = s_pointer;
        if mask_changed {
            final_pointer = self.data.len() as u32;
            let mut k: u32 = 0;
            while k < children_count
                invariant
                    k <= children_count <= 8,
                    self.data@.len() == cur.len() + k,
                    final_pointer == cur.len(),
                    forall|q: int| 0 <= q < cur.len() ==> self.data@[q] == cur[q],
                    self.min_pos == old(self).min_pos,
                    self.max_pos == old(self).max_pos,
                decreases children_count - k,
            {
                self.data.push(0);
                k = k + 1;
            }
        }
        let ghost pre = self.data@;
        proof {
            if !mask_changed {
                lemma_count_byte(s_val >> 24u32, 32);
                assert forall|j: u32| j < 8 implies bit(new_cc, j) == bit(child_byte(s_val), j) by {
                    assert(merged_ok(cur, o, sd, s_val, other_val, level, lo, j, merged_children@[j as int]));
                    assert(merged_same(sd, s_val, other_val, j, merged_children@[j as int]));
                }
                assert forall|j: u32| j <= 8 implies count_bits_below(new_cc, j as nat)
                    == count_bits_below(child_byte(s_val), j as nat) by {
                    lemma_count_bits_agree(new_cc, child_byte(s_val), j as nat);
                }
            }
        }
        let mut idx: usize = 0;
        let mut i: usize = 0;
        while i < 8
            invariant
                i <= 8,
                merged_children@.len() == 8,
                idx == count_bits_below(new_cc, i as nat),
                children_count == count_bits_below(new_cc, 8),
                children_count <= 8,
                forall|j: u32|
                    j < 8 ==> (#[trigger] bit(new_cc, j) == (merged_children@[j as int] is Some)),
                self.data@.len() == pre.len(),
                final_pointer + children_count <= pre.len(),
                mask_changed ==> final_pointer == cur.len(),
                mask_changed ==> forall|q: int| 0 <= q < cur.len() ==> self.data@[q] == pre[q],
                !mask_changed ==> self.data@ == pre,
                !mask_changed ==> final_pointer == s_pointer,
                !mask_changed ==> forall|j: u32|
                    j < 8 ==> count_bits_below(new_cc, j as nat) == count_bits_below(
                        child_byte(s_val),
                        j as nat,
                    ),
                !mask_changed ==> forall|j: u32|
                    j < 8 ==> merged_same(
                        sd,
                        s_val,
                        other_val,
                        j,
                        #[trigger] merged_children@[j as int],
                    ),
                forall|q: int| 0 <= q < sd.len() ==> pre[q] == sd[q],
                0 <= lo <= start,
                start <= sd.len(),
                mask_changed ==> sd.len() <= final_pointer,
                node_in(sd, s_val, level, lo),
                s_pointer == node_ptr(s_val),
                forall|j: u32|
                    j < 8 ==> merged_ok(cur, o, sd, s_val, other_val, level, lo,
                        j,
                        #[trigger] merged_children@[j as int],
                    ),
                forall|j: u32|
                    j < i && (#[trigger] merged_children@[j as int]) is Some ==> self.data@[final_pointer
                        + count_bits_below(new_cc, j as nat)] == (merged_children@[j as int]->0).1,
                self.min_pos == old(self).min_pos,
                self.max_pos == old(self).max_pos,
            decreases 8 - i,
        {
            proof {
                lemma_count_bits_le(new_cc, i as nat);
                if i < 8 && bit(new_cc, i as u32) {
                    lemma_count_bits_below_bit(new_cc, i as nat, 8);
                }
            }
            if let Some((_, val)) = merged_children[i] {
                let ghost prev = self.data@;
                proof {
                    assert(bit(new_cc, i as u32));
                    if !mask_changed {
                        assert(merged_ok(cur, o, sd, s_val, other_val, level, lo, i as u32, merged_children@[i as int]));
                        assert(merged_same(sd, s_val, other_val, i as u32, merged_children@[i as int]));
                        lemma_rank_below_count(s_val, i as u32);
                        assert(idx == child_rank(s_val, i as u32));
                        assert(final_pointer + idx == child_slot(s_val, i as u32));
                        assert(prev[final_pointer + idx] == val);
                    }
                }
                let dl = self.data.len();
                assert(final_pointer + idx < dl);
                self.data.set(final_pointer as usize + idx, val);
                proof {
                    if !mask_changed {
                        assert(self.data@ =~= prev);
                    }
                    assert forall|j: u32|
                        j < i + 1 && (#[trigger] merged_children@[j as int]) is Some implies self.data@[final_pointer
                            + count_bits_below(new_cc, j as nat)] == (merged_children@[j as int]->0).1 by {
                        if j < i {
                            assert(bit(new_cc, j));
                            lemma_count_bits_below_bit(new_cc, j as nat, i as nat);
                        }
                    }
                }
                idx = idx + 1;
            }
            proof {
                lemma_count_bits_agree(new_cc, new_cc, 0);
            }
            i = i + 1;
        }
        proof {
            assert((1u32 << 8u32) == 256u32) by (bit_vector);
            assert((s_val & 0xFFFFu32) < 0x10000) by (bit_vector);
            lemma_word(new_cc, new_ll, final_pointer);
        }
        let new_node = (new_cc << 24) | (new_ll << 16) | final_pointer;
        proof {
            let d = self.data@;
            assert forall|q: int| 0 <= q < cur.len() implies d[q] == cur[q] by {}
            assert forall|j: u32| j < 8 implies merged_ok(d, o, sd, s_val, other_val, level, lo,
                j,
                #[trigger] merged_children@[j as int],
            ) by {
                assert(merged_ok(cur, o, sd, s_val, other_val, level, lo, j, merged_children@[j as int]));
                lemma_merged_frame(cur, d, o, sd, s_val, other_val, level, lo, j, merged_children@[j as int]);
            }
            assert forall|j: u32| j < 8 implies child_rank(new_node, j) == count_bits_below(new_cc, j as nat) by {}
            assert(child_count(new_node) == children_count);
            assert forall|j: u32|
                #![trigger spec_has_child(new_node, j)]
                j < 8 && spec_has_child(new_node, j) && !spec_is_leaf(new_node, j) implies node_in(
                    d,
                    d[child_slot(new_node, j)],
                    (level + 1) as nat,
                    lo,
                ) by {
                assert(merged_ok(d, o, sd, s_val, other_val, level, lo, j, merged_children@[j as int]));
            }
            assert(node_in(d, new_node, level, lo));
            assert forall|j: u32| j < 8 implies ((#[trigger] merged_children@[j as int]) is None
                <==> !spec_has_child(s_val, j) && !spec_has_child(other_val, j)) by {
                assert(merged_ok(d, o, sd, s_val, other_val, level, lo, j, merged_children@[j as int]));
            }
            lemma_result_words(d, od, self_val, self_is_leaf, o, sd, s_val, other_val, new_node, new_cc, new_ll, final_pointer as int, merged_children@);
            lemma_no_fold(d, new_node, new_cc, new_ll, final_pointer as int, merged_children@);
            assert forall|x: int, y: int, z: int|
                #[trigger] node_hit(d, false, new_node, level, x, y, z) == overlay(
                    node_hit(o, false, other_val, level, x, y, z),
                    node_hit(od, self_is_leaf, self_val, level, x, y, z),
                ) by {
                let q = octant(level as int, x, y, z);
                lemma_hit_by_child(d, new_node, level, x, y, z);
                assert(merged_ok(d, o, sd, s_val, other_val, level, lo, q, merged_children@[q as int]));
                if merged_children@[q as int] is Some {
                    lemma_rank_below_count(new_node, q);
                }
            }
            assert(new_node == node_word(f8.1, f8.2, final_pointer));
            assert(mask_changed == (f8.3 || count_bits_below(f8.1, 8) != child_count(s_val)));
        }
        (false, new_node)
    }
}

/// The material that `svo_lookup` reads below a branch node is what
/// `node_hit` finds there, air where it finds nothing.
pub proof fn lemma_lookup_hit(d: Seq<u32>, w: u32, level: nat, x: int, y: int, z: int)
    ensures
        svo_lookup(d, w, level, x, y, z) == match node_hit(d, false, w, level, x, y, z) {
            Some(p) => p,
            None => AIR_MARKER,
        },
    decreases 5 - level,
{
    reveal_with_fuel(node_hit, 2);
    if level < 5 {
        let i = octant(level as int, x, y, z);
        if spec_has_child(w, i) && child_slot(w, i) < d.len() && !spec_is_leaf(w, i) {
            lemma_lookup_hit(d, d[child_slot(w, i)], (level + 1) as nat, x, y, z);
        }
    }
}

/// What the octree `d` of a chunk holds at the voxel (x, y, z): `None` where
/// it is empty. The root node word is the first element.
pub open spec fn chunk_hit(d: Seq<u32>, x: int, y: int, z: int) -> Option<u32> {
    if d.len() == 0 {
        None
    } else {
        node_hit(d, false, d[0], 0, x, y, z)
    }
}

/// A chunk's octree that another can be merged into: its root's blocks
/// come after the root itself, and all of it is well formed.
pub open spec fn chunk_tree_ok(d: Seq<u32>) -> bool {
    d.len() >= 1 && node_in(d, d[0], 0, 1)
}

/// Whether `add_chunk` merges the octree `o` into the octree `d`: both are
/// well formed, and the merge ends with the data no longer than what a
/// 16-bit pointer reaches, so that every node word it writes holds its
/// pointer.
pub open spec fn can_merge(d: Seq<u32>, o: Seq<u32>) -> bool {
    &&& chunk_tree_ok(d)
    &&& o.len() >= 1
    &&& node_in(o, o[0], 0, 0)
    &&& merge_shape(d, d[0], false, o, o[0], 0, d.len()).2 <= 0xFFFF
}

/// Of two well-formed octrees, `add_chunk` refuses a merge only where the
/// merge would carry the data past what a 16-bit pointer reaches: every
/// merge that ends at most `0xFFFF` long happens.
pub proof fn law_merge_refused_only_past_16_bits(d: Seq<u32>, o: Seq<u32>)
    requires
        chunk_tree_ok(d),
        o.len() >= 1,
        node_in(o, o[0], 0, 0),
    ensures
        can_merge(d, o) <==> merge_shape(d, d[0], false, o, o[0], 0, d.len()).2 <= 0xFFFF,
{
}

/// `merged` is the chunk `base` with the chunk `other` merged into it: the
/// same corners, a well-formed octree, and wherever `other` has a voxel,
/// that voxel; elsewhere the voxel of `base`.
pub open spec fn chunk_merged(base: Chunk, other: Chunk, merged: Chunk) -> bool {
    &&& merged.min_pos == base.min_pos
    &&& merged.max_pos == base.max_pos
    &&& chunk_tree_ok(merged.data@)
    &&& forall|x: int, y: int, z: int|
        #[trigger] chunk_hit(merged.data@, x, y, z) == overlay(
            chunk_hit(other.data@, x, y, z),
            chunk_hit(base.data@, x, y, z),
        )
    &&& forall|x: int, y: int, z: int|
        #[trigger] svo_voxel(merged.data@, x, y, z) == if chunk_hit(other.data@, x, y, z) is Some {
            svo_voxel(other.data@, x, y, z)
        } else {
            svo_voxel(base.data@, x, y, z)
        }
}

/// A bound on `copy_cost` at a level.
pub open spec fn cost_bound(level: nat) -> nat {
    if level >= 5 {
        0
    } else if level == 4 {
        16
    } else if level == 3 {
        144
    } else if level == 2 {
        1168
    } else if level == 1 {
        9360
    } else {
        74896
    }
}

/// Whether the branch node `w` of the given level is well formed in `data`
/// with every child block at or after `lo`.
fn subtree_in(data: &[u32], w: u32, level: u32, lo: usize) -> (r: bool)
    ensures
        r == node_in(data@, w, level as nat, lo as int),
    decreases 5 - level,
{
    if level >= 5 {
        return false;
    }
    let p = get_ending(w);
    let cc = w >> 24;
    proof {
        lemma_bytes(w);
        lemma_count_byte(cc, 32);
        lemma_count_bits_le(cc, 8);
    }
    let count = count_ones(cc);
    if (p as usize) < lo {
        return false;
    }
    if p as usize + count as usize > data.len() {
        return false;
    }
    let mut i: u32 = 0;
    while i < 8
        invariant
            i <= 8,
            level < 5,
            p == node_ptr(w),
            p < 0x10000,
            lo <= node_ptr(w),
            node_ptr(w) + child_count(w) <= data@.len(),
            forall|j: u32|
                #![trigger spec_has_child(w, j)]
                j < i && spec_has_child(w, j) && !spec_is_leaf(w, j) ==> node_in(
                    data@,
                    data@[child_slot(w, j)],
                    (level + 1) as nat,
                    lo as int,
                ),
        decreases 8 - i,
    {
        if has_child(w, i) && !is_leaf(w, i) {
            proof {
                lemma_rank_below_count(w, i);
                lemma_count_bits_le(child_byte(w), i as nat);
            }
            let slot = p as usize + child_pop_count(w, i) as usize;
            if !subtree_in(data, data[slot], level + 1, lo) {
                return false;
            }
        }
        i = i + 1;
    }
    true
}

/// `copy_cost` of the node `w` of the given level of `o`.
fn subtree_copy_cost(o: &[u32], w: u32, level: u32) -> (c: u64)
    requires
        level <= 5,
    ensures
        c == copy_cost(o@, w, level as nat),
        c <= cost_bound(level as nat),
    decreases 5 - level,
{
    if level >= 5 {
        return 0;
    }
    let p = get_ending(w);
    let cc = w >> 24;
    proof {
        lemma_bytes(w);
        lemma_count_byte(cc, 32);
        lemma_count_bits_le(cc, 8);
    }
    let ghost b = cost_bound((level + 1) as nat);
    let mut total: u64 = count_ones(cc) as u64;
    let mut i: u32 = 0;
    while i < 8
        invariant
            i <= 8,
            level < 5,
            p == node_ptr(w),
            p < 0x10000,
            b == cost_bound((level + 1) as nat),
            total == child_count(w) + copy_children_cost(o@, w, level as nat, i as nat),
            total <= 8 + i * b,
        decreases 8 - i,
    {
        if has_child(w, i) && !is_leaf(w, i) {
            proof {
                lemma_count_bits_le(child_byte(w), i as nat);
            }
            let slot = p as usize + child_pop_count(w, i) as usize;
            if slot < o.len() {
                let c = subtree_copy_cost(o, o[slot], level + 1);
                assert(total + c <= 8 + (i + 1) * b) by (nonlinear_arith)
                    requires
                        total <= 8 + i * b,
                        c <= b,
                ;
                total = total + c;
            } else {
                assert(8 + i * b <= 8 + (i + 1) * b) by (nonlinear_arith);
            }
        } else {
            assert(8 + i * b <= 8 + (i + 1) * b) by (nonlinear_arith);
        }
        i = i + 1;
    }
    assert(cost_bound(level as nat) == 16 + 8 * b);
    total
}

/// The number of set bits among the low eight bits of `x`.
fn count_low_bits(x: u32) -> (r: u32)
    ensures
        r == count_bits_below(x, 8),
        r <= 8,
{
    let mut r: u32 = 0;
    let mut j: u32 = 0;
    while j < 8
        invariant
            j <= 8,
            r == count_bits_below(x, j as nat),
            r <= j,
        decreases 8 - j,
    {
        if (x >> j) & 1 == 1 {
            r = r + 1;
        }
        j = j + 1;
    }
    r
}

/// `merge_shape` of merging the branch node `ov` of `o` into the node `sv`
/// of `d` (a solid leaf where `sl`) when the data is `start` long, worked
/// out without writing anything; `None` where the data would grow past
/// what 16-bit pointers reach.
#[verifier::spinoff_prover]
#[verifier::rlimit(100)]
fn merge_shape_of(
    d: &[u32],
    sv: u32,
    sl: bool,
    o: &[u32],
    ov: u32,
    level: u32,
    start: u32,
    Ghost(lo): Ghost<int>,
) -> (r: Option<(bool, u32, u32)>)
    requires
        start <= 0xFFFF,
        !sl ==> node_in(d@, sv, level as nat, lo),
        node_in(o@, ov, level as nat, 0),
    ensures
        ({
            let m = merge_shape(d@, sv, sl, o@, ov, level as nat, start as nat);
            match r {
                Some(t) => m.2 <= 0xFFFF && t.0 == m.0 && t.1 == m.1 && t.2 == m.2,
                None => m.2 > 0xFFFF,
            }
        }),
    decreases 5 - level,
{
    let ghost dd = d@;
    let ghost oo = o@;
    let ghost lv = level as nat;
    if sl && start + 8 > 0xFFFF {
        proof {
            let s = node_word(0xFFu32, 0xFFu32, start as u32);
            lemma_shape_unfold(dd, sv, sl, oo, ov, lv, start as nat);
            lemma_children_shape_grows(dd, s, sl, sv, oo, ov, lv, (start + 8) as nat, 8, 8);
        }
        return None;
    }
    let s: u32 = if sl {
        (0xFF << 24) | (0xFF << 16) | start
    } else {
        sv
    };
    let st: u32 = if sl {
        start + 8
    } else {
        start
    };
    let ghost f8 = merge_children_shape(dd, s, sl, sv, oo, ov, lv, st as nat, 8);
    let ghost total = merge_shape(dd, sv, sl, oo, ov, lv, start as nat);
    proof {
        lemma_shape_unfold(dd, sv, sl, oo, ov, lv, start as nat);
        lemma_children_unfold(dd, s, sl, sv, oo, ov, lv, st as nat, 0);
        lemma_children_shape_grows(dd, s, sl, sv, oo, ov, lv, st as nat, 8, 8);
        assert(total == shape_from_children(s, f8));
        assert(total.2 >= f8.0);
        if sl {
            lemma_split_leaves(start);
        }
    }
    let sp = get_ending(s);
    let op = get_ending(ov);
    let mut len: u32 = st;
    let mut cc: u32 = 0;
    let mut ll: u32 = 0;
    let mut changed = false;
    let mut kids: Vec<Option<(bool, u32)>> = Vec::new();
    let mut i: u32 = 0;
    while i < 8
        invariant
            i <= 8,
            lv < 5,
            lv == level,
            dd == d@,
            oo == o@,
            len <= 0xFFFF,
            sp == node_ptr(s),
            op == node_ptr(ov),
            sp < 0x10000,
            op < 0x10000,
            !sl ==> s == sv && node_in(dd, s, lv, lo),
            sl ==> forall|j: u32| j < 8 ==> #[trigger] spec_is_leaf(s, j),
            sl ==> forall|j: u32| j < 8 ==> #[trigger] spec_has_child(s, j),
            node_in(oo, ov, lv, 0),
            f8 == merge_children_shape(dd, s, sl, sv, oo, ov, lv, st as nat, 8),
            total.2 >= f8.0,
            total == merge_shape(dd, sv, sl, oo, ov, lv, start as nat),
            total == shape_from_children(s, f8),
            (len as nat, cc, ll, changed, kids@) == merge_children_shape(dd, s, sl, sv, oo, ov, lv, st as nat, i as nat),
        decreases 8 - i,
    {
        let ghost prev = merge_children_shape(dd, s, sl, sv, oo, ov, lv, st as nat, i as nat);
        proof {
            lemma_children_unfold(dd, s, sl, sv, oo, ov, lv, st as nat, (i + 1) as nat);
            lemma_step_unfold(dd, s, sl, sv, oo, ov, lv, prev, i);
            lemma_children_shape_grows(dd, s, sl, sv, oo, ov, lv, st as nat, (i + 1) as nat, 8);
        }
        let s_has = has_child(s, i);
        let o_has = has_child(ov, i);
        if s_has || o_has {
            let ghost c = child_merge(dd, s, sl, sv, oo, ov, lv, len as nat, i);
            let mut oc: u32 = 0;
            if o_has {
                proof {
                    lemma_rank_below_count(ov, i);
                    lemma_count_bits_le(child_byte(ov), i as nat);
                }
                oc = o[op as usize + child_pop_count(ov, i) as usize];
            }
            let mut sw: u32 = sv;
            if s_has && !sl {
                proof {
                    lemma_rank_below_count(s, i);
                    lemma_count_bits_le(child_byte(s), i as nat);
                }
                sw = d[sp as usize + child_pop_count(s, i) as usize];
            }
            let s_leaf = is_leaf(s, i);
            let o_leaf = is_leaf(ov, i);
            let mut c_leaf = false;
            let mut c_word: u32 = 0;
            let mut c_len: u32 = len;
            let mut c_ch = false;
            if !s_has {
                if o_leaf {
                    c_leaf = true;
                    c_word = oc;
                    c_ch = true;
                } else {
                    let cost = subtree_copy_cost(o, oc, level + 1);
                    if len as u64 + cost > 0xFFFF {
                        proof {
                            assert(c.2 > 0xFFFF);
                            assert(merge_children_shape(dd, s, sl, sv, oo, ov, lv, st as nat, (i + 1) as nat).0 == c.2);
                            assert(total.2 > 0xFFFF);
                        }
                        return None;
                    }
                    c_word = ((oc >> 24) << 24) | (((oc >> 16) & 0xFF) << 16) | len;
                    c_len = (len as u64 + cost) as u32;
                    c_ch = true;
                }
            } else if !o_has {
                c_leaf = s_leaf;
                c_word = sw;
            } else if o_leaf {
                c_leaf = true;
                c_word = oc;
                c_ch = !(s_leaf && sw == oc);
            } else {
                match merge_shape_of(d, sw, s_leaf, o, oc, level + 1, len, Ghost(lo)) {
                    None => {
                        proof {
                            assert(c.2 > 0xFFFF);
                            assert(merge_children_shape(dd, s, sl, sv, oo, ov, lv, st as nat, (i + 1) as nat).0 == c.2);
                            assert(total.2 > 0xFFFF);
                        }
                        return None;
                    },
                    Some((ml, mw, mlen)) => {
                        c_leaf = ml;
                        c_word = mw;
                        c_len = mlen;
                        c_ch = ml != s_leaf || mw != sw;
                    },
                }
            }
            assert(c == (c_leaf, c_word, c_len as nat, c_ch));
            len = c_len;
            cc = cc | (1 << i);
            if c_leaf {
                ll = ll | (1 << i);
            }
            changed = changed || c_ch;
            kids.push(Some((c_leaf, c_word)));
        } else {
            kids.push(None);
        }
        i = i + 1;
    }
    let count = count_low_bits(cc);
    if count == 8 {
        let mut same = true;
        let mut first: u32 = 0;
        let mut j: usize = 0;
        while j < 8 && same
            invariant
                j <= 8,
                kids@.len() == 8,
                same ==> forall|q: int| 0 <= q < j ==> kids@[q] == Some((true, first)),
                !same ==> !uniform_leaves(kids@),
            decreases 8 - j,
        {
            match kids[j] {
                Some((true, p)) => {
                    if j == 0 {
                        first = p;
                    } else if p != first {
                        proof {
                            if uniform_leaves(kids@) {
                                assert(kids@[j as int] == kids@[0]);
                            }
                        }
                        same = false;
                    }
                },
                _ => {
                    proof {
                        if uniform_leaves(kids@) {
                            assert(kids@[j as int] == kids@[0]);
                        }
                    }
                    same = false;
                },
            }
            j = j + 1;
        }
        if same {
            assert(uniform_leaves(kids@));
            return Some((true, first, len));
        }
    }
    proof {
        lemma_bytes(s);
        lemma_count_byte(child_byte(s), 32);
    }
    let own = count_ones(s >> 24);
    if changed || count != own {
        if len as u64 + count as u64 > 0xFFFF {
            return None;
        }
        Some((false, (cc << 24) | (ll << 16) | len, len + count))
    } else {
        Some((false, (cc << 24) | (ll << 16) | sp, len))
    }
}

impl Chunk {
    /// Merges the chunk `other` into this one: wherever `other` has a voxel,
    /// it replaces this chunk's, and elsewhere this chunk stays as it was.
    /// Returns whether it merged; it does not, and changes nothing, where an
    /// octree is malformed or where the merged octree would grow past what
    /// the 16-bit pointers of its node words reach.
    pub fn add_chunk(&mut self, other: &Chunk) -> (merged: bool)
        ensures
            merged == can_merge(old(self).data@, other.data@),
            !merged ==> *final(self) == *old(self),
            merged ==> chunk_merged(*old(self), *other, *final(self)),
            chunk_tree_ok(old(self).data@) && other.data@.len() >= 1 && node_in(
                other.data@,
                other.data@[0],
                0,
                0,
            ) && merge_shape(
                old(self).data@,
                old(self).data@[0],
                false,
                other.data@,
                other.data@[0],
                0,
                old(self).data@.len(),
            ).2 <= 0xFFFF ==> merged,
            merged ==> final(self).data@.len() == merge_shape(
                old(self).data@,
                old(self).data@[0],
                false,
                other.data@,
                other.data@[0],
                0,
                old(self).data@.len(),
            ).2 + if merge_shape(
                old(self).data@,
                old(self).data@[0],
                false,
                other.data@,
                other.data@[0],
                0,
                old(self).data@.len(),
            ).0 {
                8int
            } else {
                0int
            },
    {
        if self.data.len() == 0 || other.data.len() == 0 {
            return false;
        }
        if self.data.len() > 0xFFFF {
            proof {
                lemma_shape_grows(self.data@, self.data@[0], false, other.data@, other.data@[0], 0, self.data@.len());
            }
            return false;
        }
        let sroot = self.data[0];
        let oroot = other.data[0];
        if !subtree_in(self.data.as_slice(), sroot, 0, 1) {
            return false;
        }
        if !subtree_in(other.data.as_slice(), oroot, 0, 0) {
            return false;
        }
        let shape = merge_shape_of(
            self.data.as_slice(),
            sroot,
            false,
            other.data.as_slice(),
            oroot,
            0,
            self.data.len() as u32,
            Ghost(1),
        );
        if shape.is_none() {
            return false;
        }
        let ghost before = self.data@;
        let (leaf, root) = self.merge_node_in_place(
            sroot,
            false,
            other.data.as_slice(),
            oroot,
            false,
            Ghost(0),
            Ghost(1),
        );
        let ghost after = self.data@;
        let new_root = if leaf {
            let p = self.data.len() as u32;
            let mut k: usize = 0;
            while k < 8
                invariant
                    k <= 8,
                    p == after.len(),
                    self.data@.len() == after.len() + k,
                    forall|q: int| 0 <= q < after.len() ==> self.data@[q] == after[q],
                    forall|q: int| after.len() <= q < after.len() + k ==> self.data@[q] == root,
                    self.min_pos == old(self).min_pos,
                    self.max_pos == old(self).max_pos,
                decreases 8 - k,
            {
                self.data.push(root);
                k = k + 1;
            }
            proof {
                lemma_subdivide(self.data@, p, root, 0, 1);
            }
            (0xFF << 24) | (0xFF << 16) | p
        } else {
            root
        };
        let ghost grown = self.data@;
        proof {
            assert(node_in(grown, new_root, 0, 1)) by {
                if !leaf {
                    lemma_frame(after, grown, root, 0, 1);
                }
            }
            assert forall|x: int, y: int, z: int|
                #[trigger] node_hit(grown, false, new_root, 0, x, y, z) == overlay(
                    chunk_hit(other.data@, x, y, z),
                    chunk_hit(before, x, y, z),
                ) by {
                assert(node_hit(after, leaf, root, 0, x, y, z) == overlay(
                    node_hit(other.data@, false, oroot, 0, x, y, z),
                    node_hit(before, false, sroot, 0, x, y, z),
                ));
                if !leaf {
                    lemma_frame(after, grown, root, 0, 1);
                }
            }
        }
        self.data.set(0, new_root);
        proof {
            let d = self.data@;
            lemma_frame(grown, d, new_root, 0, 1);
            assert(d[0] == new_root);
            assert forall|x: int, y: int, z: int|
                #[trigger] chunk_hit(d, x, y, z) == overlay(
                    chunk_hit(other.data@, x, y, z),
                    chunk_hit(before, x, y, z),
                ) by {
                assert(node_hit(grown, false, new_root, 0, x, y, z) == overlay(
                    chunk_hit(other.data@, x, y, z),
                    chunk_hit(before, x, y, z),
                ));
            }
            assert forall|x: int, y: int, z: int|
                #[trigger] svo_voxel(d, x, y, z) == if chunk_hit(other.data@, x, y, z) is Some {
                    svo_voxel(other.data@, x, y, z)
                } else {
                    svo_voxel(before, x, y, z)
                } by {
                assert(chunk_hit(d, x, y, z) == overlay(
                    chunk_hit(other.data@, x, y, z),
                    chunk_hit(before, x, y, z),
                ));
                lemma_lookup_hit(d, d[0], 0, x, y, z);
                lemma_lookup_hit(other.data@, other.data@[0], 0, x, y, z);
                lemma_lookup_hit(before, before[0], 0, x, y, z);
            }
        }
        true
    }
}

} // verus!
