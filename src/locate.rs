//! Ranking of candidate regions by their distance to a name table, and the
//! fallback guess of a blob region placed after the name table.
use std::collections::{BTreeMap, BTreeSet, HashSet};
use std::ops::Range;
use vstd::prelude::*;
use crate::bytes::{be32, read_be32};
use crate::ranges::{covered, empty_ranges, interval, ranges_contain};
use crate::tree::{
    lemma_visit_entries_fits, listing, parse_tree, records, sorted_listing, visit, visit_entries, ENTRY_SIZE,
};
use vstd::laws_cmp::obeys_cmp;
use vstd::std_specs::btree::{increasing_seq, spec_keys_iter};
use vstd::std_specs::cmp::OrdSpec;
use vstd::std_specs::iter::IteratorSpec;

verus! {

broadcast use vstd::std_specs::btree::group_btree_axioms;

/// The gap between two ranges: zero where they overlap, else the distance from
/// the end of the lower one to the start of the higher one.
pub open spec fn range_gap(a: Range<usize>, b: Range<usize>) -> int {
    if a.end <= b.start {
        b.start - a.end
    } else if b.end <= a.start {
        a.start - b.end
    } else {
        0
    }
}

/// Calculates the distance between two ranges.
pub fn distance(lhs: &Range<usize>, rhs: &Range<usize>) -> (r: usize)
    ensures
        r == range_gap(*lhs, *rhs),
{
    if lhs.end <= rhs.start {
        rhs.start - lhs.end
    } else if rhs.end <= lhs.start {
        lhs.start - rhs.end
    } else {
        0
    }
}

/// Where an entry with key `key` goes in `t`: after every leading entry whose
/// key is at most `key`.
pub open spec fn insert_pos(t: Seq<(usize, Range<usize>)>, key: usize) -> int
    decreases t.len(),
{
    if t.len() == 0 || t[0].0 > key {
        0
    } else {
        1 + insert_pos(t.subrange(1, t.len() as int), key)
    }
}

/// `t` with `x` inserted after the entries whose key is at most its own.
pub open spec fn insert_ranked(t: Seq<(usize, Range<usize>)>, x: (usize, Range<usize>)) -> Seq<(usize, Range<usize>)> {
    let k = insert_pos(t, x.0);
    t.take(k) + seq![x] + t.skip(k)
}

/// The ranges of `s`, each with its gap to `anchor`, ordered by gap; ranges
/// with equal gaps keep their order.
pub open spec fn ranked(anchor: Range<usize>, s: Seq<Range<usize>>) -> Seq<(usize, Range<usize>)>
    decreases s.len(),
{
    if s.len() == 0 {
        Seq::empty()
    } else {
        insert_ranked(ranked(anchor, s.drop_last()), (range_gap(anchor, s.last()) as usize, s.last()))
    }
}

proof fn lemma_insert_pos_bound(t: Seq<(usize, Range<usize>)>, key: usize)
    ensures
        0 <= insert_pos(t, key) <= t.len(),
    decreases t.len(),
{
    if t.len() > 0 && t[0].0 <= key {
        lemma_insert_pos_bound(t.subrange(1, t.len() as int), key);
    }
}

/// Ranks `ranges` by their distance to `anchor`, closest first; ranges at the
/// same distance keep their order.
pub fn rank_by_distance(anchor: &Range<usize>, ranges: &Vec<Range<usize>>) -> (r: Vec<(usize, Range<usize>)>)
    ensures
        r@ == ranked(*anchor, ranges@),
{
    let mut out: Vec<(usize, Range<usize>)> = Vec::new();
    let mut i: usize = 0;
    while i < ranges.len()
        invariant
            i <= ranges@.len(),
            out@ == ranked(*anchor, ranges@.take(i as int)),
        decreases ranges@.len() - i,
    {
        let d = distance(anchor, &ranges[i]);
        let rg = ranges[i].start..ranges[i].end;
        assert(ranges@.take(i + 1).drop_last() == ranges@.take(i as int));
        let mut k: usize = 0;
        assert(out@.subrange(0, out@.len() as int) == out@);
        while k < out.len() && out[k].0 <= d
            invariant
                k <= out@.len(),
                insert_pos(out@, d) == k + insert_pos(out@.subrange(k as int, out@.len() as int), d),
            decreases out@.len() - k,
        {
            assert(out@.subrange(k as int, out@.len() as int).subrange(1, out@.len() - k) == out@.subrange(
                k + 1,
                out@.len() as int,
            ));
            k = k + 1;
        }
        proof {
            assert(insert_pos(out@.subrange(k as int, out@.len() as int), d) == 0);
        }
        let ghost before = out@;
        out.insert(k, (d, rg));
        assert(out@ =~= insert_ranked(before, (d, rg)));
        i = i + 1;
    }
    assert(ranges@.take(ranges@.len() as int) == ranges@);
    out
}

/// The candidate blob regions for the bases `starts` in a buffer of `len`
/// bytes: each base inside the buffer, as a point, runs to the end.
pub open spec fn blob_points(starts: Seq<usize>, len: usize) -> Seq<Range<usize>>
    decreases starts.len(),
{
    if starts.len() == 0 {
        Seq::empty()
    } else if starts.last() <= len {
        blob_points(starts.drop_last(), len).push(starts.last()..starts.last())
    } else {
        blob_points(starts.drop_last(), len)
    }
}

/// Ranks the blob bases `starts` by the distance of each base to `anchor`,
/// closest first, and gives each the region from it to the end of a buffer of
/// `len` bytes; bases past the end are dropped.
pub fn rank_blob_starts(anchor: &Range<usize>, starts: &Vec<usize>, len: usize) -> (r: Vec<(usize, Range<usize>)>)
    ensures
        r@.len() == ranked(*anchor, blob_points(starts@, len)).len(),
        forall|j: int| 0 <= j < r@.len() ==> {
            let (g, p) = #[trigger] ranked(*anchor, blob_points(starts@, len))[j];
            r@[j] == (g, p.start..len)
        },
{
    let mut points: Vec<Range<usize>> = Vec::new();
    let mut i: usize = 0;
    while i < starts.len()
        invariant
            i <= starts@.len(),
            points@ == blob_points(starts@.take(i as int), len),
        decreases starts@.len() - i,
    {
        assert(starts@.take(i + 1).drop_last() == starts@.take(i as int));
        if starts[i] <= len {
            points.push(starts[i]..starts[i]);
        }
        i = i + 1;
    }
    assert(starts@.take(starts@.len() as int) == starts@);
    let ranked_points = rank_by_distance(anchor, &points);
    let mut out: Vec<(usize, Range<usize>)> = Vec::new();
    let mut j: usize = 0;
    while j < ranked_points.len()
        invariant
            j <= ranked_points@.len(),
            ranked_points@ == ranked(*anchor, blob_points(starts@, len)),
            out@.len() == j,
            forall|q: int| 0 <= q < j ==> {
                let (g, p) = #[trigger] ranked_points@[q];
                out@[q] == (g, p.start..len)
            },
        decreases ranked_points@.len() - j,
    {
        let g = ranked_points[j].0;
        let s = ranked_points[j].1.start;
        out.push((g, s..len));
        j = j + 1;
    }
    out
}

/// The highest id below `k` that `w` holds, or -1 where it holds none.
pub open spec fn highest(w: Set<int>, k: int) -> int
    decreases k,
{
    if k <= 0 {
        -1
    } else if w.contains(k - 1) {
        k - 1
    } else {
        highest(w, k - 1)
    }
}

proof fn lemma_highest_bound(w: Set<int>, k: int)
    ensures
        -1 <= highest(w, k) < if k <= 0 { 0 } else { k },
    decreases k,
{
    if k > 0 {
        lemma_highest_bound(w, k - 1);
    }
}

/// The byte range of the tree at `offset`, where it validates from its root
/// for the name offsets `names`: from its start to the start of the entry
/// with the highest id that the walk visits.
pub open spec fn tree_extent(names: Set<usize>, b: Seq<u8>, offset: int) -> Option<Range<usize>> {
    let t = b.subrange(offset, b.len() as int);
    let res = visit(names, t, Set::empty(), 0, 1);
    if 0 <= offset < b.len() && res is Some {
        let last = highest(res->0, records(t));
        Some(offset as usize..(offset + ENTRY_SIZE * last) as usize)
    } else {
        None
    }
}

/// The byte range of the tree at `offset`, where it validates for the name
/// offsets `names`.
pub fn tree_range(names: &HashSet<usize>, bytes: &[u8], offset: usize) -> (r: Option<Range<usize>>)
    ensures
        r == tree_extent(names@, bytes@, offset as int),
{
    if offset >= bytes.len() {
        return None;
    }
    let tree = vstd::slice::slice_subrange(bytes, offset, bytes.len());
    let mut node_ids = empty_ranges();
    let count = parse_tree(names, &mut node_ids, tree, 0, 1);
    if count == 0 {
        return None;
    }
    let ghost w = covered(node_ids);
    let n = tree.len() / ENTRY_SIZE;
    proof {
        let v1 = Set::<int>::empty().union(interval(0, 1));
        assert(visit(names@, tree@, Set::empty(), 0, 1) == visit_entries(names@, tree@, v1, 0, 1, 0));
        lemma_visit_entries_fits(names@, tree@, v1, 0, 1, 0);
        assert(v1.contains(0));
    }
    let mut k = n;
    while k > 0 && !ranges_contain(&node_ids, k - 1)
        invariant
            k <= n,
            n == records(tree@),
            w == covered(node_ids),
            w.contains(0),
            highest(w, n as int) == highest(w, k as int),
            forall|q: int| k <= q < n ==> !w.contains(q),
        decreases k,
    {
        k = k - 1;
    }
    proof {
        lemma_highest_bound(w, n as int);
    }
    assert(k > 0) by {
        if k == 0 {
            assert(highest(w, 0) == -1);
        }
    }
    let last = k - 1;
    assert(n * ENTRY_SIZE <= tree@.len()) by (nonlinear_arith)
        requires
            n == tree@.len() / 22,
    ;
    assert(ENTRY_SIZE * last <= n * ENTRY_SIZE) by (nonlinear_arith)
        requires
            last < n,
    ;
    Some(offset..offset + ENTRY_SIZE * last)
}

/// Whether the 8 bytes at `p` are all zero.
pub open spec fn zero_block(b: Seq<u8>, p: int) -> bool {
    p + 8 <= b.len() && forall|k: int| p <= k < p + 8 ==> b[k] == 0
}

/// The first position from `p` on, in steps of 8, that does not start a block
/// of 8 zero bytes.
pub open spec fn skip_padding(b: Seq<u8>, p: int) -> int
    decreases b.len() - p,
{
    if 0 <= p && zero_block(b, p) {
        skip_padding(b, p + 8)
    } else {
        p
    }
}

/// The blob region guessed after a name table that ends at `name_end`: the
/// first 8-aligned position from there that does not start a zero block, with
/// the record size read there; `None` where no whole block is left, or where
/// the region would not fit in `b`.
pub open spec fn padding_guess(b: Seq<u8>, name_end: int) -> Option<Range<usize>> {
    let aligned = (name_end + 7) / 8 * 8;
    let p = skip_padding(b, aligned);
    if aligned <= usize::MAX && p + 8 <= b.len() && p + 4 + be32(b, p) <= b.len() {
        Some(p as usize..(p + 4 + be32(b, p)) as usize)
    } else {
        None
    }
}

/// Guesses the blob region of a bundle whose name table ends at `name_end`,
/// for when no strategy found one: the first record after the table's end and
/// the zero padding that follows it.
pub fn guess_blob_range(bytes: &[u8], name_end: usize) -> (r: Option<Range<usize>>)
    ensures
        r == padding_guess(bytes@, name_end as int),
{
    let n = bytes.len();
    if name_end > usize::MAX - 7 {
        return None;
    }
    let mut offset = (name_end + 7) / 8 * 8;
    assert(offset == (name_end + 7) / 8 * 8);
    let ghost aligned = offset as int;
    loop
        invariant
            n == bytes@.len(),
            aligned <= usize::MAX,
            skip_padding(bytes@, aligned) == skip_padding(bytes@, offset as int),
        ensures
            skip_padding(bytes@, aligned) == offset,
        decreases n + 8 - offset,
    {
        if offset > n || n - offset < 8 {
            assert(!zero_block(bytes@, offset as int));
            break;
        }
        let mut zero = true;
        let mut k: usize = 0;
        while k < 8
            invariant
                offset + 8 <= n,
                n == bytes@.len(),
                k <= 8,
                zero <==> forall|q: int| offset <= q < offset + k ==> bytes@[q] == 0,
            decreases 8 - k,
        {
            if bytes[offset + k] != 0 {
                zero = false;
            }
            k = k + 1;
        }
        if !zero {
            assert(!zero_block(bytes@, offset as int));
            break;
        }
        assert(zero_block(bytes@, offset as int));
        offset = offset + 8;
    }
    if offset > n || n - offset < 8 {
        return None;
    }
    let size = read_be32(bytes, offset) as usize;
    if size > n - offset - 4 {
        return None;
    }
    Some(offset..offset + 4 + size)
}

/// The values of `m`, in the order of their keys.
pub open spec fn in_key_order(m: Map<usize, usize>, keys: Seq<usize>) -> Seq<usize> {
    keys.map_values(|k: usize| m[k])
}

/// The values of `m` in the order of their keys.
fn values_in_key_order(m: &BTreeMap<usize, usize>) -> (r: Vec<usize>)
    ensures
        exists|keys: Seq<usize>| sorted_listing(keys, m@.dom()) && r@ == in_key_order(m@, keys),
{
    let mut v: Vec<usize> = Vec::new();
    let ghost all = spec_keys_iter(m).remaining();
    for k in it: m.keys()
        invariant
            it.seq() == all,
            all.unref().to_set() == m@.dom(),
            v@ == in_key_order(m@, all.take(it.index() as int).unref()),
    {
        proof {
            assert(all.take(it.index() + 1).unref() == all.take(it.index() as int).unref().push(*k));
            assert(m@.dom().contains(*k)) by {
                assert(all.unref()[it.index() as int] == *k);
            }
        }
        match m.get(k) {
            Some(x) => {
                v.push(*x);
            },
            None => {},
        }
        proof {
            assert(v@ =~= in_key_order(m@, all.take(it.index() + 1).unref()));
        }
    }
    proof {
        broadcast use vstd::laws_cmp::group_laws_cmp;

        assert(obeys_cmp::<usize>());
        assert(obeys_cmp::<&usize>());
        assert(increasing_seq(all));
        let keys = all.unref();
        assert(all.take(all.len() as int) == all);
        assert forall|i: int, j: int| 0 <= i < j < keys.len() implies keys[i] < keys[j] by {
            assert(<&usize as OrdSpec>::cmp_spec(&all[i], &all[j]) is Less);
        }
        assert forall|x: usize| #[trigger] m@.dom().contains(x) <==> keys.contains(x) by {
            assert(keys.to_set().contains(x) == keys.contains(x));
        }
        assert(sorted_listing(keys, m@.dom()));
    }
    v
}

/// The blob bases of the first strategy that found any, in the order in which
/// to try them: the size-chain matches `chain` in increasing order, else the
/// targets of the `push` scan `push`, the System V `lea` scan `lea` and the
/// Microsoft `lea` scan `lea_win`, each by increasing distance to its anchors.
pub fn first_blob_candidates(
    chain: &BTreeSet<usize>,
    push: &BTreeMap<usize, usize>,
    lea: &BTreeMap<usize, usize>,
    lea_win: &BTreeMap<usize, usize>,
) -> (r: Vec<usize>)
    ensures
        chain@.len() > 0 ==> sorted_listing(r@, chain@),
        chain@.len() == 0 && push@.len() > 0 ==> exists|keys: Seq<usize>|
            sorted_listing(keys, push@.dom()) && r@ == in_key_order(push@, keys),
        chain@.len() == 0 && push@.len() == 0 && lea@.len() > 0 ==> exists|keys: Seq<usize>|
            sorted_listing(keys, lea@.dom()) && r@ == in_key_order(lea@, keys),
        chain@.len() == 0 && push@.len() == 0 && lea@.len() == 0 ==> exists|keys: Seq<usize>|
            sorted_listing(keys, lea_win@.dom()) && r@ == in_key_order(lea_win@, keys),
{
    if chain.len() > 0 {
        return listing(chain);
    }
    if push.len() > 0 {
        return values_in_key_order(push);
    }
    if lea.len() > 0 {
        return values_in_key_order(lea);
    }
    values_in_key_order(lea_win)
}

} // verus!
