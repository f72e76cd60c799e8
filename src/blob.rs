//! Locating the blob region through the instructions that load its address
//! next to those that load the tree's and the name table's.
use std::collections::BTreeMap;
use vstd::prelude::*;
use crate::bytes::{le32, read_le32};
use crate::executable::ExecutableMapping;

verus! {

broadcast use vstd::std_specs::btree::group_btree_axioms;

/// The opcode of `push imm32`.
pub const PUSH_OPCODE: u8 = 0x68;

/// The opcode of `lea r, [rip + disp32]`.
pub const LEA_OPCODE: u8 = 0x8d;

/// The file offset that a `push imm32` at `p` refers to, where one stands
/// there and its immediate translates.
pub open spec fn push_target(b: Seq<u8>, m: ExecutableMapping, p: int) -> Option<usize> {
    if 0 <= p && p + 5 <= b.len() && b[p] == PUSH_OPCODE {
        m.spec_rva_to_file_offset(le32(b, p + 1))
    } else {
        None
    }
}

/// The file offset that a `lea` at `p` refers to: its position plus its
/// displacement plus the instruction's length, translated.
pub open spec fn lea_target(b: Seq<u8>, m: ExecutableMapping, p: int) -> Option<usize> {
    if 0 <= p && p + 6 <= b.len() && b[p] == LEA_OPCODE && p + le32(b, p + 2) + 6 <= usize::MAX {
        m.spec_rva_to_file_offset(p + le32(b, p + 2) + 6)
    } else {
        None
    }
}

/// The ModR/M bytes that select the registers that receive the tree, the name
/// table and the blob region: RSI, RDX, RCX under System V; RDX, R8, R9 under
/// the Microsoft convention.
pub open spec fn lea_regs(is_win: bool) -> (u8, u8, u8) {
    if is_win {
        (0x15, 0x05, 0x0d)
    } else {
        (0x35, 0x15, 0x0d)
    }
}

/// Whether the `push` at `p` loads the tree's or the name table's offset.
pub open spec fn push_anchor(b: Seq<u8>, m: ExecutableMapping, tree: usize, name: usize, p: int) -> bool {
    match push_target(b, m, p) {
        Some(v) => v == tree || v == name,
        None => false,
    }
}

/// Whether the `lea` at `p` loads the tree's offset into the tree register or
/// the name table's offset into the name register.
pub open spec fn lea_anchor(
    b: Seq<u8>,
    m: ExecutableMapping,
    tree: usize,
    name: usize,
    is_win: bool,
    p: int,
) -> bool {
    match lea_target(b, m, p) {
        Some(v) => (b[p + 1] == lea_regs(is_win).0 && v == tree) || (b[p + 1] == lea_regs(is_win).1
            && v == name),
        None => false,
    }
}

/// The positions below `k` of the `push` anchors, in increasing order.
pub open spec fn push_anchors(b: Seq<u8>, m: ExecutableMapping, tree: usize, name: usize, k: int) -> Seq<usize>
    decreases k,
{
    if k <= 0 {
        Seq::empty()
    } else if push_anchor(b, m, tree, name, k - 1) {
        push_anchors(b, m, tree, name, k - 1).push((k - 1) as usize)
    } else {
        push_anchors(b, m, tree, name, k - 1)
    }
}

/// The positions below `k` of the `lea` anchors, in increasing order.
pub open spec fn lea_anchors(
    b: Seq<u8>,
    m: ExecutableMapping,
    tree: usize,
    name: usize,
    is_win: bool,
    k: int,
) -> Seq<usize>
    decreases k,
{
    if k <= 0 {
        Seq::empty()
    } else if lea_anchor(b, m, tree, name, is_win, k - 1) {
        lea_anchors(b, m, tree, name, is_win, k - 1).push((k - 1) as usize)
    } else {
        lea_anchors(b, m, tree, name, is_win, k - 1)
    }
}

/// The distance from `p` to the nearest position of the nonempty `s`.
pub open spec fn min_dist(s: Seq<usize>, p: int) -> int
    decreases s.len(),
{
    let d = if s.last() >= p {
        s.last() - p
    } else {
        p - s.last()
    };
    if s.len() <= 1 {
        d
    } else {
        let e = min_dist(s.drop_last(), p);
        if d < e {
            d
        } else {
            e
        }
    }
}

/// The scores of the `push`es below `k`: each `push` that is no anchor and
/// whose immediate translates to `v` maps its distance to the nearest of
/// `anchors` to `v`; of two with one distance the later one stays.
pub open spec fn push_scores(
    b: Seq<u8>,
    m: ExecutableMapping,
    tree: usize,
    name: usize,
    anchors: Seq<usize>,
    k: int,
) -> Map<usize, usize>
    decreases k,
{
    if k <= 0 {
        Map::empty()
    } else {
        let prev = push_scores(b, m, tree, name, anchors, k - 1);
        match push_target(b, m, k - 1) {
            Some(v) => if push_anchor(b, m, tree, name, k - 1) {
                prev
            } else {
                prev.insert(min_dist(anchors, k - 1) as usize, v)
            },
            None => prev,
        }
    }
}

/// The scores of the `lea`s below `k`: each `lea` into the blob register
/// whose target translates to `v` maps its distance to the nearest of
/// `anchors` to `v`; of two with one distance the later one stays.
pub open spec fn lea_scores(b: Seq<u8>, m: ExecutableMapping, is_win: bool, anchors: Seq<usize>, k: int) -> Map<
    usize,
    usize,
>
    decreases k,
{
    if k <= 0 {
        Map::empty()
    } else {
        let prev = lea_scores(b, m, is_win, anchors, k - 1);
        match lea_target(b, m, k - 1) {
            Some(v) => if b[k] == lea_regs(is_win).2 {
                prev.insert(min_dist(anchors, k - 1) as usize, v)
            } else {
                prev
            },
            None => prev,
        }
    }
}

/// The distance from `p` to the nearest of `anchors`.
fn nearest_distance(anchors: &Vec<usize>, p: usize) -> (r: usize)
    requires
        anchors@.len() >= 1,
    ensures
        r == min_dist(anchors@, p as int),
{
    let mut best: usize = if anchors[0] >= p {
        anchors[0] - p
    } else {
        p - anchors[0]
    };
    let mut i: usize = 1;
    assert(anchors@.take(1).drop_last().len() == 0);
    while i < anchors.len()
        invariant
            1 <= i <= anchors@.len(),
            best == min_dist(anchors@.take(i as int), p as int),
        decreases anchors@.len() - i,
    {
        let a = anchors[i];
        let d = if a >= p {
            a - p
        } else {
            p - a
        };
        assert(anchors@.take(i + 1).drop_last() == anchors@.take(i as int));
        if d < best {
            best = d;
        }
        i = i + 1;
    }
    assert(anchors@.take(anchors@.len() as int) == anchors@);
    best
}

/// The translated target of a `push imm32` at `p`.
fn push_at(bytes: &[u8], mapping: &ExecutableMapping, p: usize) -> (r: Option<usize>)
    ensures
        r == push_target(bytes@, *mapping, p as int),
{
    let n = bytes.len();
    if p >= n || n - p < 5 || bytes[p] != PUSH_OPCODE {
        return None;
    }
    mapping.rva_to_file_offset(read_le32(bytes, p + 1) as usize)
}

/// The translated target of a `lea r, [rip + disp32]` at `p`.
fn lea_at(bytes: &[u8], mapping: &ExecutableMapping, p: usize) -> (r: Option<usize>)
    ensures
        r == lea_target(bytes@, *mapping, p as int),
{
    let n = bytes.len();
    if p >= n || n - p < 6 || bytes[p] != LEA_OPCODE {
        return None;
    }
    let disp = read_le32(bytes, p + 2) as usize;
    if disp > usize::MAX - p || 6 > usize::MAX - p - disp {
        return None;
    }
    mapping.rva_to_file_offset(p + disp + 6)
}

/// Scores the candidate blob bases that `push imm32` instructions load. The
/// pushes of the tree's or the name table's offset are anchors; every other
/// push whose immediate translates maps its distance to the nearest anchor to
/// the offset it loads. Empty where there is no anchor.
pub fn find_blobs_push(
    bytes: &[u8],
    mapping: &ExecutableMapping,
    tree_offset: usize,
    name_offset: usize,
) -> (r: BTreeMap<usize, usize>)
    ensures
        ({
            let anchors = push_anchors(bytes@, *mapping, tree_offset, name_offset, bytes@.len() as int);
            &&& anchors.len() == 0 ==> r@ == Map::<usize, usize>::empty()
            &&& anchors.len() > 0 ==> r@ == push_scores(
                bytes@,
                *mapping,
                tree_offset,
                name_offset,
                anchors,
                bytes@.len() as int,
            )
        }),
{
    let ghost b = bytes@;
    let n = bytes.len();
    let mut anchors: Vec<usize> = Vec::new();
    let mut p: usize = 0;
    while p < n
        invariant
            n == b.len(),
            b == bytes@,
            p <= n,
            anchors@ == push_anchors(b, *mapping, tree_offset, name_offset, p as int),
        decreases n - p,
    {
        match push_at(bytes, mapping, p) {
            Some(v) => {
                if v == tree_offset || v == name_offset {
                    anchors.push(p);
                }
            },
            None => {},
        }
        p = p + 1;
    }
    let mut scores: BTreeMap<usize, usize> = BTreeMap::new();
    if anchors.len() == 0 {
        assert(scores@ =~= Map::<usize, usize>::empty());
        return scores;
    }
    let mut p: usize = 0;
    while p < n
        invariant
            n == b.len(),
            b == bytes@,
            p <= n,
            anchors@ == push_anchors(b, *mapping, tree_offset, name_offset, n as int),
            anchors@.len() >= 1,
            scores@ == push_scores(b, *mapping, tree_offset, name_offset, anchors@, p as int),
        decreases n - p,
    {
        match push_at(bytes, mapping, p) {
            Some(v) => {
                if !(v == tree_offset || v == name_offset) {
                    let d = nearest_distance(&anchors, p);
                    scores.insert(d, v);
                }
            },
            None => {},
        }
        p = p + 1;
    }
    scores
}

/// Scores the candidate blob bases that `lea r, [rip + disp32]` instructions
/// load. The `lea`s of the tree's offset into the tree register or of the name
/// table's offset into the name register are anchors; every `lea` into the
/// blob register whose target translates maps its distance to the nearest
/// anchor, itself included, to the offset it loads. Empty where there is no
/// anchor.
pub fn find_blobs_lea(
    bytes: &[u8],
    mapping: &ExecutableMapping,
    tree_offset: usize,
    name_offset: usize,
    is_win: bool,
) -> (r: BTreeMap<usize, usize>)
    ensures
        ({
            let anchors = lea_anchors(bytes@, *mapping, tree_offset, name_offset, is_win, bytes@.len() as int);
            &&& anchors.len() == 0 ==> r@ == Map::<usize, usize>::empty()
            &&& anchors.len() > 0 ==> r@ == lea_scores(bytes@, *mapping, is_win, anchors, bytes@.len() as int)
        }),
{
    let ghost b = bytes@;
    let (tree_reg, name_reg, blob_reg): (u8, u8, u8) = if is_win {
        (0x15, 0x05, 0x0d)
    } else {
        (0x35, 0x15, 0x0d)
    };
    let n = bytes.len();
    let mut anchors: Vec<usize> = Vec::new();
    let mut p: usize = 0;
    while p < n
        invariant
            n == b.len(),
            b == bytes@,
            p <= n,
            (tree_reg, name_reg, blob_reg) == lea_regs(is_win),
            anchors@ == lea_anchors(b, *mapping, tree_offset, name_offset, is_win, p as int),
        decreases n - p,
    {
        match lea_at(bytes, mapping, p) {
            Some(v) => {
                let reg = bytes[p + 1];
                if (reg == tree_reg && v == tree_offset) || (reg == name_reg && v == name_offset) {
                    anchors.push(p);
                }
            },
            None => {},
        }
        p = p + 1;
    }
    let mut scores: BTreeMap<usize, usize> = BTreeMap::new();
    if anchors.len() == 0 {
        assert(scores@ =~= Map::<usize, usize>::empty());
        return scores;
    }
    let mut p: usize = 0;
    while p < n
        invariant
            n == b.len(),
            b == bytes@,
            p <= n,
            (tree_reg, name_reg, blob_reg) == lea_regs(is_win),
            anchors@ == lea_anchors(b, *mapping, tree_offset, name_offset, is_win, n as int),
            anchors@.len() >= 1,
            scores@ == lea_scores(b, *mapping, is_win, anchors@, p as int),
        decreases n - p,
    {
        if n - p >= 6 && bytes[p + 1] == blob_reg {
            match lea_at(bytes, mapping, p) {
                Some(v) => {
                    let d = nearest_distance(&anchors, p);
                    scores.insert(d, v);
                },
                None => {},
            }
        }
        p = p + 1;
    }
    scores
}

} // verus!
