//! The directory tree of a bundle: a flat array of 22-byte big-endian entries
//! indexed by node id, whose directories name contiguous ranges of children.
use std::collections::{BTreeMap, BTreeSet, HashSet};
use vstd::prelude::*;
use crate::bytes::{be16, be32, be64, read_be16, read_be32, read_be64};
use crate::ranges::{covered, empty_ranges, interval, ranges_contain, ranges_insert};
use rangemap::RangeSet;
use vstd::laws_cmp::obeys_cmp;
use vstd::std_specs::btree::{increasing_seq, spec_btree_keys_iter, spec_keys_iter};
use vstd::slice::slice_subrange;
use vstd::std_specs::cmp::OrdSpec;
use vstd::std_specs::iter::IteratorSpec;

verus! {

broadcast use vstd::std_specs::btree::group_btree_axioms, vstd::std_specs::hash::group_hash_axioms;

/// The size in bytes of one tree entry.
pub const ENTRY_SIZE: usize = 22;

/// A blob record: a nonzero size and that many payload bytes.
pub struct Blob {
    pub size: u32,
    pub bytes: Vec<u8>,
}

/// The variant part of a tree entry, chosen by bit 1 of its flags.
#[derive(Clone, Copy, Debug, PartialEq, Eq)]
pub enum EntryData {
    Directory { node_id: u32, count: u32 },
    File { locale: u32, data_offset: u32 },
}

/// One tree entry.
#[derive(Clone, Copy, Debug, PartialEq, Eq)]
pub struct Entry {
    pub name_offset: u32,
    pub flags: u16,
    pub data: EntryData,
    pub last_modified: u64,
}

/// The entry whose 22 bytes start at `p`.
pub open spec fn entry_at(b: Seq<u8>, p: int) -> Entry {
    let flags = be16(b, p + 4) as u16;
    Entry {
        name_offset: be32(b, p) as u32,
        flags,
        data: if flags & 2 != 0 {
            EntryData::Directory { node_id: be32(b, p + 6) as u32, count: be32(b, p + 10) as u32 }
        } else {
            EntryData::File { locale: be32(b, p + 6) as u32, data_offset: be32(b, p + 10) as u32 }
        },
        last_modified: be64(b, p + 14) as u64,
    }
}

/// The entry with node id `id` of the tree that starts at the beginning of `b`.
pub open spec fn node(b: Seq<u8>, id: int) -> Entry {
    entry_at(b, ENTRY_SIZE * id)
}

/// Reads the entry whose 22 bytes start at `p`.
pub fn read_tree_entry(bytes: &[u8], p: usize) -> (r: Entry)
    requires
        p + ENTRY_SIZE <= bytes@.len(),
    ensures
        r == entry_at(bytes@, p as int),
{
    let _n = bytes.len();
    let name_offset = read_be32(bytes, p);
    let flags = read_be16(bytes, p + 4);
    let a = read_be32(bytes, p + 6);
    let c = read_be32(bytes, p + 10);
    let data = if flags & 2 != 0 {
        EntryData::Directory { node_id: a, count: c }
    } else {
        EntryData::File { locale: a, data_offset: c }
    };
    let last_modified = read_be64(bytes, p + 14);
    Entry { name_offset, flags, data, last_modified }
}

/// The number of whole entries in `b`.
pub open spec fn records(b: Seq<u8>) -> int {
    b.len() as int / ENTRY_SIZE as int
}

/// The number of ids below `n` that `v` does not hold.
pub open spec fn unvisited(v: Set<int>, n: int) -> nat
    decreases n,
{
    if n <= 0 {
        0
    } else {
        unvisited(v, n - 1) + if v.contains(n - 1) {
            0nat
        } else {
            1nat
        }
    }
}

pub proof fn lemma_unvisited_bound(v: Set<int>, n: int)
    ensures
        unvisited(v, n) <= if n <= 0 {
            0
        } else {
            n
        },
    decreases n,
{
    if n > 0 {
        lemma_unvisited_bound(v, n - 1);
    }
}

pub proof fn lemma_unvisited_mono(v: Set<int>, w: Set<int>, n: int)
    requires
        v.subset_of(w),
    ensures
        unvisited(w, n) <= unvisited(v, n),
    decreases n,
{
    if n > 0 {
        lemma_unvisited_mono(v, w, n - 1);
    }
}

/// Adding ids `[a, c)` below `n`, none of them held before, lowers the count
/// by the number of ids added.
pub proof fn lemma_unvisited_add(v: Set<int>, a: int, c: int, n: int)
    requires
        0 <= a <= c,
        forall|i: int| a <= i < c ==> !v.contains(i),
    ensures
        unvisited(v.union(interval(a, c)), n) + (if n <= a {
            0
        } else if n <= c {
            n - a
        } else {
            c - a
        }) == unvisited(v, n),
    decreases n,
{
    if n > 0 {
        lemma_unvisited_add(v, a, c, n - 1);
    }
}

/// Whether the child range `[node_id, node_id + count)` may be walked from the
/// visited ids `v` in a tree of `n` entries: it is nonempty, ends before the
/// last entry, and holds no visited id.
pub open spec fn range_open(v: Set<int>, n: int, node_id: int, count: int) -> bool {
    &&& 0 <= node_id
    &&& 0 < count
    &&& node_id + count < n
    &&& forall|i: int| node_id <= i < node_id + count ==> !#[trigger] v.contains(i)
}

/// Marks the ids `[node_id, node_id + count)` visited where the range may be
/// walked; otherwise leaves `node_ids` as it was.
pub(crate) fn claim_range(node_ids: &mut RangeSet<usize>, n: usize, node_id: usize, count: usize) -> (r: bool)
    ensures
        r == range_open(covered(*old(node_ids)), n as int, node_id as int, count as int),
        r ==> covered(*final(node_ids)) == covered(*old(node_ids)).union(
            interval(node_id as int, node_id + count),
        ),
        !r ==> covered(*final(node_ids)) == covered(*old(node_ids)),
{
    let ghost v_old = covered(*node_ids);
    if n <= node_id || n - node_id <= count || count == 0 {
        return false;
    }
    let end = node_id + count;
    let mut id = node_id;
    while id < end
        invariant
            end == node_id + count,
            node_id + count < n,
            node_id <= id <= end,
            covered(*node_ids) == v_old,
            v_old == covered(*old(node_ids)),
            forall|i: int| node_id <= i < id ==> !v_old.contains(i),
        decreases end - id,
    {
        if ranges_contain(node_ids, id) {
            assert(v_old.contains(id as int));
            return false;
        }
        id = id + 1;
    }
    ranges_insert(node_ids, node_id, end);
    true
}

/// Walks the child range `[node_id, node_id + count)` of the tree at the start
/// of `b`, with `v` the ids visited so far. `None` rejects the tree; otherwise
/// the ids visited afterwards.
pub open spec fn visit(names: Set<usize>, b: Seq<u8>, v: Set<int>, node_id: int, count: int) -> Option<
    Set<int>,
>
    decreases unvisited(v, records(b)), 0int,
{
    let n = records(b);
    if !range_open(v, n, node_id, count) {
        None
    } else {
        proof {
            lemma_unvisited_add(v, node_id, node_id + count, n);
        }
        visit_entries(names, b, v.union(interval(node_id, node_id + count)), node_id, count, 0)
    }
}

/// Checks the entries `base + i .. base + count` in turn, descending into each
/// directory.
pub open spec fn visit_entries(
    names: Set<usize>,
    b: Seq<u8>,
    v: Set<int>,
    base: int,
    count: int,
    i: int,
) -> Option<Set<int>>
    decreases unvisited(v, records(b)), 1 + count - i,
{
    if i >= count {
        Some(v)
    } else {
        let e = node(b, base + i);
        if !names.contains(e.name_offset as usize) || e.flags > 2 {
            None
        } else {
            match e.data {
                EntryData::Directory { node_id, count: c } => {
                    match visit(names, b, v, node_id as int, c as int) {
                        None => None,
                        Some(w) => {
                            proof {
                                lemma_unvisited_mono(v, v.union(w), records(b));
                            }
                            visit_entries(names, b, v.union(w), base, count, i + 1)
                        },
                    }
                },
                EntryData::File { .. } => visit_entries(names, b, v, base, count, i + 1),
            }
        }
    }
}

/// Validates the child range `[node_id, node_id + count)` of the tree at the
/// start of `bytes`: the range must lie before the last whole entry, hold no id
/// already in `node_ids`, and be nonempty; each entry must name an offset of
/// `name_offsets` and have flags of at most 2; each directory's own range must
/// validate in turn. The range is added to `node_ids`. Returns the number of
/// entries visited, or 0 where the tree is rejected.
pub fn parse_tree(
    name_offsets: &HashSet<usize>,
    node_ids: &mut RangeSet<usize>,
    bytes: &[u8],
    node_id: usize,
    count: usize,
) -> (r: usize)
    ensures
        covered(*old(node_ids)).subset_of(covered(*final(node_ids))),
        !range_open(covered(*old(node_ids)), records(bytes@), node_id as int, count as int) ==> r == 0
            && covered(*final(node_ids)) == covered(*old(node_ids)),
        ({
            let res = visit(
                name_offsets@,
                bytes@,
                covered(*old(node_ids)),
                node_id as int,
                count as int,
            );
            &&& res is None ==> r == 0
            &&& res is Some ==> {
                &&& r > 0
                &&& covered(*final(node_ids)) == res->0
                &&& r == unvisited(covered(*old(node_ids)), records(bytes@)) - unvisited(
                    covered(*final(node_ids)),
                    records(bytes@),
                )
            }
        }),
    decreases unvisited(covered(*old(node_ids)), records(bytes@)),
{
    let ghost b = bytes@;
    let ghost names = name_offsets@;
    let ghost v_old = covered(*node_ids);
    let n = bytes.len() / ENTRY_SIZE;
    assert(n * ENTRY_SIZE <= b.len()) by (nonlinear_arith)
        requires
            n == b.len() / 22,
    ;
    if !claim_range(node_ids, n, node_id, count) {
        return 0;
    }
    let end = node_id + count;
    let ghost v_init = covered(*node_ids);
    proof {
        lemma_unvisited_add(v_old, node_id as int, end as int, n as int);
        lemma_unvisited_bound(v_old, n as int);
        assert(visit(names, b, v_old, node_id as int, count as int) == visit_entries(
            names,
            b,
            v_init,
            node_id as int,
            count as int,
            0,
        ));
    }
    let mut result: usize = 0;
    let mut i: usize = 0;
    while i < count
        invariant
            b == bytes@,
            names == name_offsets@,
            n == records(b),
            node_id + count < n,
            n * ENTRY_SIZE <= b.len(),
            b.len() <= usize::MAX,
            i <= count,
            count + unvisited(v_init, n as int) <= n,
            v_old.subset_of(v_init),
            v_old == covered(*old(node_ids)),
            range_open(v_old, n as int, node_id as int, count as int),
            v_old.subset_of(covered(*node_ids)),
            v_init.subset_of(covered(*node_ids)),
            visit(names, b, v_old, node_id as int, count as int) == visit_entries(
                names,
                b,
                covered(*node_ids),
                node_id as int,
                count as int,
                i as int,
            ),
            unvisited(v_init, n as int) == unvisited(v_old, n as int) - count,
            unvisited(covered(*node_ids), n as int) <= unvisited(v_init, n as int),
            result == i + unvisited(v_init, n as int) - unvisited(covered(*node_ids), n as int),
        decreases count - i,
    {
        let ghost cur = covered(*node_ids);
        assert((node_id + i) * ENTRY_SIZE + ENTRY_SIZE <= n * ENTRY_SIZE) by (nonlinear_arith)
            requires
                node_id + i < n,
        ;
        let e = read_tree_entry(bytes, (node_id + i) * ENTRY_SIZE);
        if !name_offsets.contains(&(e.name_offset as usize)) || e.flags > 2 {
            return 0;
        }
        match e.data {
            EntryData::Directory { node_id: child, count: child_count } => {
                proof {
                    lemma_unvisited_mono(v_init, cur, n as int);
                }
                let c = parse_tree(name_offsets, node_ids, bytes, child as usize, child_count as usize);
                if c == 0 {
                    return 0;
                }
                proof {
                    let w = covered(*node_ids);
                    assert(cur.union(w) == w);
                    lemma_unvisited_mono(v_init, w, n as int);
                }
                result = result + c;
            },
            EntryData::File { .. } => {},
        }
        result = result + 1;
        i = i + 1;
    }
    result
}

/// Gathers the data offsets of the file entries reachable from the child range
/// `[node_id, node_id + count)`, with `v` the ids visited so far. A range that
/// does not lie before the last whole entry, or that meets an id already
/// visited, contributes nothing. Returns the ids visited afterwards and the
/// offsets found.
pub open spec fn collect(b: Seq<u8>, v: Set<int>, node_id: int, count: int) -> (Set<int>, Set<usize>)
    decreases unvisited(v, records(b)), 0int,
{
    let n = records(b);
    if !range_open(v, n, node_id, count) {
        (v, Set::empty())
    } else {
        proof {
            lemma_unvisited_add(v, node_id, node_id + count, n);
        }
        collect_entries(b, v.union(interval(node_id, node_id + count)), node_id, count, 0)
    }
}

/// Gathers the data offsets of the entries `base + i .. base + count`.
pub open spec fn collect_entries(b: Seq<u8>, v: Set<int>, base: int, count: int, i: int) -> (Set<int>, Set<usize>)
    decreases unvisited(v, records(b)), 1 + count - i,
{
    if i >= count {
        (v, Set::empty())
    } else {
        match node(b, base + i).data {
            EntryData::Directory { node_id, count: c } => {
                let (w, s) = collect(b, v, node_id as int, c as int);
                proof {
                    lemma_unvisited_mono(v, v.union(w), records(b));
                }
                let (rest_ids, s2) = collect_entries(b, v.union(w), base, count, i + 1);
                (rest_ids, s.union(s2))
            },
            EntryData::File { data_offset, .. } => {
                let (rest_ids, s2) = collect_entries(b, v, base, count, i + 1);
                (rest_ids, s2.insert(data_offset as usize))
            },
        }
    }
}

fn collect_into(
    bytes: &[u8],
    node_ids: &mut RangeSet<usize>,
    offsets: &mut BTreeSet<usize>,
    node_id: usize,
    count: usize,
)
    ensures
        covered(*old(node_ids)).subset_of(covered(*final(node_ids))),
        ({
            let (w, s) = collect(bytes@, covered(*old(node_ids)), node_id as int, count as int);
            &&& covered(*final(node_ids)) == w
            &&& final(offsets)@ == old(offsets)@.union(s)
        }),
    decreases unvisited(covered(*old(node_ids)), records(bytes@)),
{
    let ghost b = bytes@;
    let ghost v_old = covered(*node_ids);
    let ghost o_old = offsets@;
    let n = bytes.len() / ENTRY_SIZE;
    assert(n * ENTRY_SIZE <= b.len()) by (nonlinear_arith)
        requires
            n == b.len() / 22,
    ;
    if !claim_range(node_ids, n, node_id, count) {
        assert(offsets@ =~= o_old.union(Set::empty()));
        return;
    }
    let end = node_id + count;
    let ghost v_init = covered(*node_ids);
    proof {
        lemma_unvisited_add(v_old, node_id as int, end as int, n as int);
    }
    let mut i: usize = 0;
    let ghost mut acc: Set<usize> = Set::empty();
    while i < count
        invariant
            b == bytes@,
            n == records(b),
            node_id + count < n,
            n * ENTRY_SIZE <= b.len(),
            b.len() <= usize::MAX,
            i <= count,
            o_old == old(offsets)@,
            v_old == covered(*old(node_ids)),
            v_old.subset_of(covered(*node_ids)),
            v_init.subset_of(covered(*node_ids)),
            unvisited(v_init, n as int) < unvisited(v_old, n as int),
            ({
                let (w, s) = collect(b, v_old, node_id as int, count as int);
                let (rest_ids, s2) = collect_entries(b, covered(*node_ids), node_id as int, count as int, i as int);
                &&& w == rest_ids
                &&& s == acc.union(s2)
                &&& offsets@ == o_old.union(acc)
            }),
        decreases count - i,
    {
        let ghost cur = covered(*node_ids);
        assert((node_id + i) * ENTRY_SIZE + ENTRY_SIZE <= n * ENTRY_SIZE) by (nonlinear_arith)
            requires
                node_id + i < n,
        ;
        let e = read_tree_entry(bytes, (node_id + i) * ENTRY_SIZE);
        match e.data {
            EntryData::Directory { node_id: child, count: child_count } => {
                proof {
                    lemma_unvisited_mono(v_init, cur, n as int);
                }
                collect_into(bytes, node_ids, offsets, child as usize, child_count as usize);
                proof {
                    let w = covered(*node_ids);
                    assert(cur.union(w) == w);
                    let (whole_ids, whole_offsets) = collect(b, v_old, node_id as int, count as int);
                    let (cw, cs) = collect(b, cur, child as int, child_count as int);
                    let (next_ids, next_offsets) = collect_entries(b, w, node_id as int, count as int, i + 1);
                    assert(whole_offsets =~= acc.union(cs).union(next_offsets));
                    assert(offsets@ =~= o_old.union(acc.union(cs)));
                    acc = acc.union(cs);
                }
            },
            EntryData::File { data_offset, .. } => {
                offsets.insert(data_offset as usize);
                proof {
                    let (whole_ids, whole_offsets) = collect(b, v_old, node_id as int, count as int);
                    let (next_ids, next_offsets) = collect_entries(b, cur, node_id as int, count as int, i + 1);
                    assert(whole_offsets =~= acc.insert(data_offset as usize).union(next_offsets));
                    assert(offsets@ =~= o_old.union(acc.insert(data_offset as usize)));
                    acc = acc.insert(data_offset as usize);
                }
            },
        }
        i = i + 1;
    }
    proof {
        let (whole_ids, whole_offsets) = collect(b, v_old, node_id as int, count as int);
        assert(whole_offsets =~= acc);
    }
}

/// The data offsets of the file entries reachable from the child range
/// `[node_id, node_id + count)` of the tree at the start of `bytes`. Each id is
/// read once; a range out of bounds, or one that meets ids already read,
/// contributes nothing.
pub fn collect_data_offsets(bytes: &[u8], node_id: usize, count: usize) -> (r: BTreeSet<usize>)
    ensures
        r@ == collect(bytes@, Set::empty(), node_id as int, count as int).1,
{
    let mut node_ids = empty_ranges();
    let mut offsets: BTreeSet<usize> = BTreeSet::new();
    collect_into(bytes, &mut node_ids, &mut offsets, node_id, count);
    assert(offsets@ =~= collect(bytes@, Set::empty(), node_id as int, count as int).1);
    offsets
}

/// Whether `s` lists the values of `set` in strictly increasing order.
pub open spec fn sorted_listing(s: Seq<usize>, set: Set<usize>) -> bool {
    &&& forall|i: int, j: int| 0 <= i < j < s.len() ==> s[i] < s[j]
    &&& forall|x: usize| #[trigger] set.contains(x) <==> s.contains(x)
}

/// The values of `set` in increasing order.
pub(crate) fn listing(set: &BTreeSet<usize>) -> (r: Vec<usize>)
    ensures
        sorted_listing(r@, set@),
{
    let mut v: Vec<usize> = Vec::new();
    let ghost all = spec_btree_keys_iter(set).remaining();
    for x in it: set.iter()
        invariant
            it.seq() == all,
            v@ == it.seq().take(it.index() as int).map_values(|r: &usize| *r),
    {
        v.push(*x);
    }
    proof {
        broadcast use vstd::laws_cmp::group_laws_cmp;

        assert(obeys_cmp::<usize>());
        assert(obeys_cmp::<&usize>());
        assert(increasing_seq(all));
        assert(v@ == all.map_values(|r: &usize| *r));
        assert(all.unref().to_set() == set@);
        assert forall|i: int, j: int| 0 <= i < j < v@.len() implies v@[i] < v@[j] by {
            assert(<&usize as OrdSpec>::cmp_spec(&all[i], &all[j]) is Less);
        }
        assert forall|x: usize| #[trigger] set@.contains(x) <==> v@.contains(x) by {
            if set@.contains(x) {
                assert(all.unref().to_set().contains(x));
                let k = choose|k: int| 0 <= k < all.unref().len() && all.unref()[k] == x;
                assert(v@[k] == x);
            }
            if v@.contains(x) {
                let k = choose|k: int| 0 <= k < v@.len() && v@[k] == x;
                assert(all.unref()[k] == x);
                assert(all.unref().to_set().contains(x));
            }
        }
    }
    v
}

/// The number of entries that a walk from `v` to `w` visited.
pub open spec fn visited_count(b: Seq<u8>, v: Set<int>, w: Set<int>) -> int {
    unvisited(v, records(b)) - unvisited(w, records(b))
}

/// Whether the tree that starts at `o` is accepted for a name table whose
/// offsets are `names`: `o` is 8-aligned, and the walk from the root `(0, 1)`
/// succeeds and visits at least as many entries as there are names.
pub open spec fn tree_accepted(names: Set<usize>, b: Seq<u8>, o: int) -> bool {
    let t = b.subrange(o, b.len() as int);
    let res = visit(names, t, Set::empty(), 0, 1);
    &&& 0 <= o < b.len()
    &&& o % 8 == 0
    &&& res is Some
    &&& visited_count(t, Set::empty(), res->0) >= names.len()
}

/// The offsets of a name table's names, as a hash set.
fn name_offset_set(names: &BTreeMap<usize, String>) -> (r: HashSet<usize>)
    ensures
        r@ == names@.dom(),
{
    let mut set: HashSet<usize> = HashSet::new();
    let ghost all = spec_keys_iter(names).remaining();
    for k in it: names.keys()
        invariant
            it.seq() == all,
            set@ == all.take(it.index() as int).unref().to_set(),
    {
        proof {
            assert(all.take(it.index() + 1).unref() == all.take(it.index() as int).unref().push(
                *k,
            ));
            all.take(it.index() as int).unref().lemma_push_to_set_commute(*k);
        }
        set.insert(*k);
    }
    proof {
        assert(all.take(all.len() as int) == all);
    }
    set
}

/// Whether the tree at `o` validates for the name offsets `name_offsets`.
fn tree_fits(name_offsets: &HashSet<usize>, bytes: &[u8], o: usize) -> (r: bool)
    requires
        o < bytes@.len(),
        o % 8 == 0,
    ensures
        r == tree_accepted(name_offsets@, bytes@, o as int),
{
    let tree = slice_subrange(bytes, o, bytes.len());
    let mut node_ids = empty_ranges();
    let count = parse_tree(name_offsets, &mut node_ids, tree, 0, 1);
    count > 0 && count >= name_offsets.len()
}

proof fn lemma_same_aligned(x: int, o: int)
    requires
        x % 8 == 0,
        o % 8 == 0,
        o <= x < o + 8,
    ensures
        x == o,
{
}

/// Finds the trees that the name table `names` could belong to: every
/// 8-aligned offset of `bytes`, tried from the last, whose tree validates from
/// the root and visits at least as many entries as the table has names.
pub fn find_tree_offsets(names: &BTreeMap<usize, String>, bytes: &[u8]) -> (r: BTreeSet<usize>)
    ensures
        forall|o: usize| #[trigger]
            r@.contains(o) <==> tree_accepted(names@.dom(), bytes@, o as int),
{
    let ghost dom = names@.dom();
    let ghost b = bytes@;
    let name_offsets = name_offset_set(names);
    let mut found: BTreeSet<usize> = BTreeSet::new();
    let n = bytes.len();
    let mut o: usize = n - n % 8;
    if o < n && tree_fits(&name_offsets, bytes, o) {
        found.insert(o);
    }
    assert forall|x: usize| #[trigger] found@.contains(x) <==> (x >= o && tree_accepted(dom, b, x as int)) by {
        if x >= o && tree_accepted(dom, b, x as int) {
            lemma_same_aligned(x as int, o as int);
        }
    }
    while o > 0
        invariant
            n == b.len(),
            b == bytes@,
            dom == names@.dom(),
            name_offsets@ == dom,
            o % 8 == 0,
            o <= n,
            forall|x: usize| #[trigger] found@.contains(x) <==> (x >= o && tree_accepted(dom, b, x as int)),
        decreases o,
    {
        o = o - 8;
        let fits = tree_fits(&name_offsets, bytes, o);
        if fits {
            found.insert(o);
        }
        assert forall|x: usize| #[trigger] found@.contains(x) <==> (x >= o && tree_accepted(dom, b, x as int)) by {
            if x >= o && x < o + 8 && tree_accepted(dom, b, x as int) {
                lemma_same_aligned(x as int, o as int);
            }
        }
    }
    found
}

/// The blob sizes that consecutive data offsets imply: each gap less the
/// 4-byte size field.
pub open spec fn blob_deltas(s: Seq<usize>) -> Seq<int> {
    Seq::new((s.len() - 1) as nat, |i: int| s[i + 1] - s[i] - 4)
}

/// Whether the data offsets `s` leave room for a size field between each
/// pair, and there are at least two of them.
pub open spec fn deltas_defined(s: Seq<usize>) -> bool {
    s.len() >= 2 && forall|i: int| 0 <= i < s.len() - 1 ==> s[i + 1] - #[trigger] s[i] >= 4
}

/// Where the `k`-th size field of a chain from `start` stands.
pub open spec fn chain_pos(start: int, d: Seq<int>, k: int) -> int
    decreases k,
{
    if k <= 0 {
        start
    } else {
        chain_pos(start, d, k - 1) + d[k - 1] + 4
    }
}

/// Whether the size fields read along the chain from `start` are the sizes `d`.
pub open spec fn chain_ok(b: Seq<u8>, d: Seq<int>, start: int) -> bool {
    forall|k: int|
        0 <= k < d.len() ==> chain_pos(start, d, k) + 4 <= b.len() && be32(
            b,
            #[trigger] chain_pos(start, d, k),
        ) == d[k]
}

/// The blob bases whose size chain matches the data offsets `s`.
pub open spec fn size_chain_starts(b: Seq<u8>, s: Seq<usize>) -> Set<usize> {
    if deltas_defined(s) {
        Set::new(|o: usize| chain_ok(b, blob_deltas(s), o as int))
    } else {
        Set::empty()
    }
}

/// The data offsets of the tree that starts at `tree_offset`.
pub open spec fn tree_data_offsets(b: Seq<u8>, tree_offset: int) -> Set<usize> {
    if tree_offset <= b.len() {
        collect(b.subrange(tree_offset, b.len() as int), Set::empty(), 0, 1).1
    } else {
        Set::empty()
    }
}

/// The values of `v` as integers.
pub open spec fn ints(v: Seq<usize>) -> Seq<int> {
    v.map_values(|x: usize| x as int)
}

/// The blob sizes that the sorted data offsets imply, where they are defined.
fn size_deltas(offsets: &Vec<usize>) -> (r: Option<Vec<usize>>)
    ensures
        r is Some <==> deltas_defined(offsets@),
        r is Some ==> ints(r->0@) == blob_deltas(offsets@),
{
    if offsets.len() < 2 {
        return None;
    }
    let mut deltas: Vec<usize> = Vec::new();
    let mut i: usize = 0;
    while i < offsets.len() - 1
        invariant
            offsets@.len() >= 2,
            i <= offsets@.len() - 1,
            deltas@.len() == i,
            forall|k: int| 0 <= k < i ==> offsets@[k + 1] - #[trigger] offsets@[k] >= 4,
            forall|k: int| 0 <= k < i ==> #[trigger] deltas@[k] == blob_deltas(offsets@)[k],
        decreases offsets@.len() - i,
    {
        if offsets[i + 1] < offsets[i] || offsets[i + 1] - offsets[i] < 4 {
            return None;
        }
        deltas.push(offsets[i + 1] - offsets[i] - 4);
        i = i + 1;
    }
    assert(ints(deltas@) =~= blob_deltas(offsets@));
    Some(deltas)
}

/// Whether the chain of size fields from `start` reads the sizes `deltas`.
fn chain_matches(bytes: &[u8], deltas: &Vec<usize>, start: usize) -> (r: bool)
    requires
        deltas@.len() >= 1,
        start + 4 <= bytes@.len(),
    ensures
        r == chain_ok(bytes@, ints(deltas@), start as int),
{
    let ghost b = bytes@;
    let ghost d = ints(deltas@);
    let n = bytes.len();
    let mut cur = read_be32(bytes, start) as usize;
    assert(chain_pos(start as int, d, 0) == start);
    if cur != deltas[0] {
        return false;
    }
    let mut pos = start;
    let mut k: usize = 1;
    while k < deltas.len()
        invariant
            n == b.len(),
            b == bytes@,
            d == ints(deltas@),
            1 <= k <= d.len(),
            pos == chain_pos(start as int, d, k - 1),
            pos + 4 <= n,
            cur == d[k - 1],
            forall|q: int|
                0 <= q < k ==> chain_pos(start as int, d, q) + 4 <= b.len() && be32(
                    b,
                    #[trigger] chain_pos(start as int, d, q),
                ) == d[q],
        decreases d.len() - k,
    {
        if n - pos < 8 || cur > n - pos - 8 {
            assert(chain_pos(start as int, d, k as int) == pos + cur + 4);
            return false;
        }
        pos = pos + cur + 4;
        assert(chain_pos(start as int, d, k as int) == pos);
        cur = read_be32(bytes, pos) as usize;
        if cur != deltas[k] {
            return false;
        }
        k = k + 1;
    }
    true
}

/// Finds the blob bases of `bytes` whose chain of size fields matches the
/// sizes that the data offsets of the tree at `tree_offset` imply.
pub fn find_blob_offsets(tree_offset: usize, bytes: &[u8]) -> (r: BTreeSet<usize>)
    ensures
        exists|s: Seq<usize>|
            sorted_listing(s, tree_data_offsets(bytes@, tree_offset as int)) && r@
                == size_chain_starts(bytes@, s),
{
    let ghost b = bytes@;
    let mut found: BTreeSet<usize> = BTreeSet::new();
    let n = bytes.len();
    if tree_offset > n {
        assert(sorted_listing(Seq::empty(), tree_data_offsets(b, tree_offset as int)));
        assert(found@ =~= size_chain_starts(b, Seq::empty()));
        return found;
    }
    let tree = slice_subrange(bytes, tree_offset, n);
    let set = collect_data_offsets(tree, 0, 1);
    let offsets = listing(&set);
    assert(set@ == tree_data_offsets(b, tree_offset as int));
    let deltas = match size_deltas(&offsets) {
        Some(d) => d,
        None => {
            assert(found@ =~= size_chain_starts(b, offsets@));
            return found;
        },
    };
    let ghost d = blob_deltas(offsets@);
    let mut start: usize = 0;
    while start < n && n - start >= 4
        invariant
            n == b.len(),
            b == bytes@,
            ints(deltas@) == d,
            d.len() >= 1,
            forall|o: usize| #[trigger]
                found@.contains(o) <==> (o < start && chain_ok(b, d, o as int)),
        decreases n - start,
    {
        if chain_matches(bytes, &deltas, start) {
            found.insert(start);
        }
        start = start + 1;
    }
    assert(found@ =~= size_chain_starts(b, offsets@)) by {
        assert forall|o: usize| chain_ok(b, d, o as int) implies o < start by {
            assert(chain_pos(o as int, d, 0) == o);
        }
    }
    found
}

/// Whether entry `id` of the tree at the start of `b` names an offset of
/// `names` and has flags of at most 2.
pub open spec fn entry_fits(names: Set<usize>, b: Seq<u8>, id: int) -> bool {
    &&& 0 <= id < records(b)
    &&& names.contains(node(b, id).name_offset as usize)
    &&& node(b, id).flags <= 2
}

/// For any walk that succeeds, from any child range and any visited ids `v`:
/// the visited ids only grow, and every entry it newly visits names an offset
/// of `names` and has flags of at most 2. (Each range it walks is disjoint
/// from the ids visited before it, or the walk fails.)
pub proof fn lemma_visit_fits(names: Set<usize>, b: Seq<u8>, v: Set<int>, node_id: int, count: int)
    requires
        visit(names, b, v, node_id, count) is Some,
    ensures
        ({
            let w = visit(names, b, v, node_id, count)->0;
            &&& v.subset_of(w)
            &&& forall|id: int| #[trigger] w.contains(id) && !v.contains(id) ==> entry_fits(names, b, id)
        }),
    decreases unvisited(v, records(b)), 0int,
{
    let n = records(b);
    lemma_unvisited_add(v, node_id, node_id + count, n);
    let v1 = v.union(interval(node_id, node_id + count));
    lemma_visit_entries_fits(names, b, v1, node_id, count, 0);
    let w = visit(names, b, v, node_id, count)->0;
    assert forall|id: int| #[trigger] w.contains(id) && !v.contains(id) implies entry_fits(names, b, id) by {
        if node_id <= id < node_id + count {
            assert(entry_fits(names, b, node_id + (id - node_id)));
        } else {
            assert(!v1.contains(id));
        }
    }
}

pub proof fn lemma_visit_entries_fits(
    names: Set<usize>,
    b: Seq<u8>,
    v: Set<int>,
    base: int,
    count: int,
    i: int,
)
    requires
        visit_entries(names, b, v, base, count, i) is Some,
        0 <= i,
        0 <= base,
        base + count < records(b),
    ensures
        ({
            let w = visit_entries(names, b, v, base, count, i)->0;
            &&& v.subset_of(w)
            &&& forall|id: int| #[trigger] w.contains(id) && !v.contains(id) ==> entry_fits(names, b, id)
            &&& forall|j: int| i <= j < count ==> #[trigger] entry_fits(names, b, base + j)
        }),
    decreases unvisited(v, records(b)), 1 + count - i,
{
    if i < count {
        let e = node(b, base + i);
        match e.data {
            EntryData::Directory { node_id, count: c } => {
                let w = visit(names, b, v, node_id as int, c as int)->0;
                lemma_visit_fits(names, b, v, node_id as int, c as int);
                lemma_unvisited_mono(v, v.union(w), records(b));
                lemma_visit_entries_fits(names, b, v.union(w), base, count, i + 1);
                assert(v.union(w) == w);
            },
            EntryData::File { .. } => {
                lemma_visit_entries_fits(names, b, v, base, count, i + 1);
            },
        }
        let w = visit_entries(names, b, v, base, count, i)->0;
        assert forall|j: int| i <= j < count implies #[trigger] entry_fits(names, b, base + j) by {
            if j == i {
                assert(names.contains(e.name_offset as usize) && e.flags <= 2);
            }
        }
    }
}

/// For a tree accepted for a name table: the walk from its root visits each
/// entry once (a range that meets an entry already visited rejects the tree),
/// visits at least as many entries as the table has names, and every entry it
/// visits names an offset of the table and has flags of at most 2.
pub proof fn lemma_accepted_tree(names: Set<usize>, b: Seq<u8>, o: int)
    requires
        tree_accepted(names, b, o),
    ensures
        ({
            let t = b.subrange(o, b.len() as int);
            let w = visit(names, t, Set::empty(), 0, 1)->0;
            &&& visited_count(t, Set::empty(), w) >= names.len()
            &&& forall|id: int| #[trigger] w.contains(id) ==> entry_fits(names, t, id)
        }),
{
    let t = b.subrange(o, b.len() as int);
    lemma_visit_fits(names, t, Set::empty(), 0, 1);
}

/// For a blob base `o` that the size-chain search accepts for the data
/// offsets `s`: the size field read at `o` plus the running sum of 4 plus each
/// earlier size is, step by step, the size that the offsets imply.
pub proof fn lemma_size_chain(b: Seq<u8>, s: Seq<usize>, o: usize)
    requires
        size_chain_starts(b, s).contains(o),
    ensures
        deltas_defined(s),
        forall|k: int|
            0 <= k < blob_deltas(s).len() ==> #[trigger] chain_pos(o as int, blob_deltas(s), k) + 4
                <= b.len() && be32(b, chain_pos(o as int, blob_deltas(s), k)) == blob_deltas(s)[k],
        forall|k: int|
            0 < k <= blob_deltas(s).len() ==> #[trigger] chain_pos(o as int, blob_deltas(s), k)
                == chain_pos(o as int, blob_deltas(s), k - 1) + 4 + blob_deltas(s)[k - 1],
        chain_pos(o as int, blob_deltas(s), 0) == o,
{
}

} // verus!
