//! Planning the extraction of a validated tree: the directories to create and
//! the files to write, in the order of a depth-first walk.
use std::collections::BTreeMap;
use vstd::prelude::*;
use crate::bytes::{be32, read_be32};
use crate::inflate::{inflate, zlib_inflated};
use crate::ranges::{covered, empty_ranges, interval};
use crate::tree::{
    claim_range, lemma_unvisited_add, lemma_unvisited_mono, node, range_open, read_tree_entry, records,
    unvisited, Blob, EntryData, ENTRY_SIZE,
};
use rangemap::RangeSet;

verus! {

broadcast use vstd::std_specs::btree::group_btree_axioms;

/// One step of an extraction, with its path relative to the output root.
pub enum Output {
    Directory { path: Vec<String> },
    File { path: Vec<String>, contents: Vec<u8> },
}

/// The mathematical content of an [`Output`].
pub enum OutputView {
    Directory(Seq<Seq<char>>),
    File(Seq<Seq<char>>, Seq<u8>),
}

/// The path components of `p` as character sequences.
pub open spec fn path_view(p: Seq<String>) -> Seq<Seq<char>> {
    p.map_values(|s: String| s@)
}

impl View for Output {
    type V = OutputView;

    open spec fn view(&self) -> OutputView {
        match self {
            Output::Directory { path } => OutputView::Directory(path_view(path@)),
            Output::File { path, contents } => OutputView::File(path_view(path@), contents@),
        }
    }
}

/// The views of a sequence of outputs.
pub open spec fn outputs_view(s: Seq<Output>) -> Seq<OutputView> {
    s.map_values(|o: Output| o@)
}

/// Why an extraction stopped.
#[derive(Clone, Copy, Debug, PartialEq, Eq)]
pub enum ExtractError {
    /// A compressed blob is shorter than its 4-byte length prefix.
    ShortCompressedBlob,
    /// A compressed blob does not inflate.
    Inflate,
}

/// The payload of the blob record at `off`: a nonzero big-endian size, then
/// that many bytes, all inside `blobs`.
pub open spec fn blob_at(blobs: Seq<u8>, off: int) -> Option<Seq<u8>> {
    if 0 <= off && off + 4 <= blobs.len() && be32(blobs, off) > 0 && off + 4 + be32(blobs, off)
        <= blobs.len() {
        Some(blobs.subrange(off + 4, off + 4 + be32(blobs, off)))
    } else {
        None
    }
}

/// Reads the blob record at `offset`, if a whole one stands there.
pub fn read_blob(blobs: &[u8], offset: usize) -> (r: Option<Blob>)
    ensures
        r is Some <==> blob_at(blobs@, offset as int) is Some,
        r is Some ==> r->0.bytes@ == blob_at(blobs@, offset as int)->0 && r->0.size as int == r->0.bytes@.len(),
{
    let n = blobs.len();
    if offset > n || n - offset < 4 {
        return None;
    }
    let size = read_be32(blobs, offset);
    if size == 0 || (size as usize) > n - offset - 4 {
        return None;
    }
    let mut bytes: Vec<u8> = Vec::new();
    let start = offset + 4;
    let mut i: usize = 0;
    while i < size as usize
        invariant
            n == blobs@.len(),
            start + size <= n,
            i <= size,
            bytes@ == blobs@.subrange(start as int, start + i),
        decreases size - i,
    {
        bytes.push(blobs[start + i]);
        i = i + 1;
        assert(bytes@ =~= blobs@.subrange(start as int, start + i));
    }
    Some(Blob { size, bytes })
}

/// What a file entry with `flags` and data offset `off` writes: `None` where
/// no blob record stands there (the entry is skipped), an error where a
/// compressed payload does not inflate, else the contents.
pub open spec fn file_contents(blobs: Seq<u8>, flags: u16, off: int) -> Option<Result<Seq<u8>, ExtractError>> {
    match blob_at(blobs, off) {
        None => None,
        Some(p) => if flags & 1 == 1 {
            if p.len() < 4 {
                Some(Err(ExtractError::ShortCompressedBlob))
            } else {
                match zlib_inflated(p.subrange(4, p.len() as int)) {
                    None => Some(Err(ExtractError::Inflate)),
                    Some(c) => Some(Ok(c)),
                }
            }
        } else {
            Some(Ok(p))
        },
    }
}

/// What a file entry writes when its blob record is whole: the payload itself
/// where bit 0 of its flags is clear, else what the payload after its 4-byte
/// length prefix inflates to.
pub proof fn lemma_file_contents(blobs: Seq<u8>, flags: u16, off: int)
    requires
        blob_at(blobs, off) is Some,
    ensures
        ({
            let p = blob_at(blobs, off)->0;
            &&& flags & 1 == 0 ==> file_contents(blobs, flags, off) == Some(
                Ok::<Seq<u8>, ExtractError>(p),
            )
            &&& flags & 1 == 1 && p.len() >= 4 && zlib_inflated(p.subrange(4, p.len() as int)) is Some
                ==> file_contents(blobs, flags, off) == Some(
                Ok::<Seq<u8>, ExtractError>(zlib_inflated(p.subrange(4, p.len() as int))->0),
            )
            &&& p == blobs.subrange(off + 4, off + 4 + be32(blobs, off))
        }),
{
}

/// The outputs of the child range `[node_id, node_id + count)` below `path`,
/// with `v` the ids walked so far; ranges out of bounds or already walked give
/// nothing. Returns the ids walked afterwards and the outputs or the error.
pub open spec fn plan(
    names: Map<usize, String>,
    blobs: Seq<u8>,
    b: Seq<u8>,
    v: Set<int>,
    path: Seq<Seq<char>>,
    node_id: int,
    count: int,
) -> (Set<int>, Result<Seq<OutputView>, ExtractError>)
    decreases unvisited(v, records(b)), 0int,
{
    let n = records(b);
    if !range_open(v, n, node_id, count) {
        (v, Ok(Seq::empty()))
    } else {
        proof {
            lemma_unvisited_add(v, node_id, node_id + count, n);
        }
        plan_entries(
            names,
            blobs,
            b,
            v.union(interval(node_id, node_id + count)),
            path,
            node_id,
            count,
            0,
        )
    }
}

/// The outputs of the entries `base + i .. base + count` below `path`.
pub open spec fn plan_entries(
    names: Map<usize, String>,
    blobs: Seq<u8>,
    b: Seq<u8>,
    v: Set<int>,
    path: Seq<Seq<char>>,
    base: int,
    count: int,
    i: int,
) -> (Set<int>, Result<Seq<OutputView>, ExtractError>)
    decreases unvisited(v, records(b)), 1 + count - i,
{
    if i >= count {
        (v, Ok(Seq::empty()))
    } else {
        let e = node(b, base + i);
        if !names.contains_key(e.name_offset as usize) {
            plan_entries(names, blobs, b, v, path, base, count, i + 1)
        } else {
            let p = path.push(names[e.name_offset as usize]@);
            match e.data {
                EntryData::Directory { node_id, count: c } => {
                    let (w, r) = plan(names, blobs, b, v, p, node_id as int, c as int);
                    proof {
                        lemma_unvisited_mono(v, v.union(w), records(b));
                    }
                    match r {
                        Err(err) => (v.union(w), Err(err)),
                        Ok(inner) => {
                            let (rest_ids, r2) = plan_entries(names, blobs, b, v.union(w), path, base, count, i + 1);
                            match r2 {
                                Err(err) => (rest_ids, Err(err)),
                                Ok(rest) => (rest_ids, Ok(seq![OutputView::Directory(p)] + inner + rest)),
                            }
                        },
                    }
                },
                EntryData::File { data_offset, .. } => {
                    match file_contents(blobs, e.flags, data_offset as int) {
                        None => plan_entries(names, blobs, b, v, path, base, count, i + 1),
                        Some(Err(err)) => (v, Err(err)),
                        Some(Ok(c)) => {
                            let (rest_ids, r2) = plan_entries(names, blobs, b, v, path, base, count, i + 1);
                            match r2 {
                                Err(err) => (rest_ids, Err(err)),
                                Ok(rest) => (rest_ids, Ok(seq![OutputView::File(p, c)] + rest)),
                            }
                        },
                    }
                },
            }
        }
    }
}

/// The path `path` with `name` appended.
fn extend_path(path: &Vec<String>, name: &String) -> (r: Vec<String>)
    ensures
        path_view(r@) == path_view(path@).push(name@),
{
    let mut r: Vec<String> = Vec::new();
    let mut i: usize = 0;
    while i < path.len()
        invariant
            i <= path@.len(),
            r@.len() == i,
            forall|k: int| 0 <= k < i ==> #[trigger] r@[k] == path@[k],
        decreases path@.len() - i,
    {
        let c = path[i].clone();
        assert(c == path@[i as int]);
        let ghost r0 = r@;
        r.push(c);
        assert(r@ == r0.push(c));
        i = i + 1;
    }
    let c = name.clone();
    assert(c == *name);
    let ghost r0 = r@;
    r.push(c);
    assert(path_view(r@) =~= path_view(path@).push(name@)) by {
        assert forall|k: int| 0 <= k < r@.len() implies path_view(r@)[k] == path_view(path@).push(
            name@,
        )[k] by {
            if k < r@.len() - 1 {
                assert(r@[k] == r0[k]);
            }
        }
    }
    r
}

/// What the file entry with `flags` and data offset `off` writes.
fn file_output(blobs: &[u8], flags: u16, off: usize) -> (r: Option<Result<Vec<u8>, ExtractError>>)
    ensures
        match (r, file_contents(blobs@, flags, off as int)) {
            (None, None) => true,
            (Some(Err(e1)), Some(Err(e2))) => e1 == e2,
            (Some(Ok(c1)), Some(Ok(c2))) => c1@ == c2,
            _ => false,
        },
{
    let blob = match read_blob(blobs, off) {
        Some(blob) => blob,
        None => {
            return None;
        },
    };
    if flags & 1 == 1 {
        if blob.bytes.len() < 4 {
            return Some(Err(ExtractError::ShortCompressedBlob));
        }
        let payload = vstd::slice::slice_subrange(blob.bytes.as_slice(), 4, blob.bytes.len());
        match inflate(payload) {
            Some(c) => Some(Ok(c)),
            None => Some(Err(ExtractError::Inflate)),
        }
    } else {
        Some(Ok(blob.bytes))
    }
}

/// The walk of `[node_id, node_id + count)` from `v_old` gives what `acc`
/// followed by the walk of its entries from `i` on, from `cur`, gives.
spec fn plan_progress(
    names: Map<usize, String>,
    blobs: Seq<u8>,
    b: Seq<u8>,
    v_old: Set<int>,
    pv: Seq<Seq<char>>,
    node_id: int,
    count: int,
    cur: Set<int>,
    i: int,
    acc: Seq<OutputView>,
) -> bool {
    let (whole_ids, whole) = plan(names, blobs, b, v_old, pv, node_id, count);
    let (rest_ids, rest) = plan_entries(names, blobs, b, cur, pv, node_id, count, i);
    &&& whole_ids == rest_ids
    &&& rest is Err ==> whole == rest
    &&& rest is Ok ==> whole == Ok::<Seq<OutputView>, ExtractError>(acc + rest->Ok_0)
}

fn plan_into(
    names: &BTreeMap<usize, String>,
    blobs: &[u8],
    bytes: &[u8],
    node_ids: &mut RangeSet<usize>,
    path: &Vec<String>,
    out: &mut Vec<Output>,
    node_id: usize,
    count: usize,
) -> (r: Result<(), ExtractError>)
    ensures
        covered(*old(node_ids)).subset_of(covered(*final(node_ids))),
        ({
            let (w, p) = plan(
                names@,
                blobs@,
                bytes@,
                covered(*old(node_ids)),
                path_view(path@),
                node_id as int,
                count as int,
            );
            &&& r is Ok <==> p is Ok
            &&& r is Ok ==> covered(*final(node_ids)) == w && outputs_view(final(out)@)
                == outputs_view(old(out)@) + p->Ok_0
            &&& r is Err ==> r->Err_0 == p->Err_0
        }),
    decreases unvisited(covered(*old(node_ids)), records(bytes@)),
{
    let ghost b = bytes@;
    let ghost pv = path_view(path@);
    let ghost v_old = covered(*node_ids);
    let ghost o_old = outputs_view(out@);
    let n = bytes.len() / ENTRY_SIZE;
    assert(n * ENTRY_SIZE <= b.len()) by (nonlinear_arith)
        requires
            n == b.len() / 22,
    ;
    if !claim_range(node_ids, n, node_id, count) {
        assert(outputs_view(out@) =~= o_old + Seq::empty());
        return Ok(());
    }
    let end = node_id + count;
    let ghost v_init = covered(*node_ids);
    proof {
        lemma_unvisited_add(v_old, node_id as int, end as int, n as int);
    }
    let mut i: usize = 0;
    let ghost mut acc: Seq<OutputView> = Seq::empty();
    while i < count
        invariant
            b == bytes@,
            pv == path_view(path@),
            n == records(b),
            node_id + count < n,
            n * ENTRY_SIZE <= b.len(),
            b.len() <= usize::MAX,
            i <= count,
            v_old == covered(*old(node_ids)),
            o_old == outputs_view(old(out)@),
            v_old.subset_of(covered(*node_ids)),
            v_init.subset_of(covered(*node_ids)),
            unvisited(v_init, n as int) < unvisited(v_old, n as int),
            outputs_view(out@) == o_old + acc,
            plan_progress(names@, blobs@, b, v_old, pv, node_id as int, count as int, covered(*node_ids), i as int, acc),
        decreases count - i,
    {
        let ghost cur = covered(*node_ids);
        assert((node_id + i) * ENTRY_SIZE + ENTRY_SIZE <= n * ENTRY_SIZE) by (nonlinear_arith)
            requires
                node_id + i < n,
        ;
        let e = read_tree_entry(bytes, (node_id + i) * ENTRY_SIZE);
        let key = e.name_offset as usize;
        match names.get(&key) {
            None => {
                assert(plan_progress(names@, blobs@, b, v_old, pv, node_id as int, count as int, covered(*node_ids), i + 1, acc));
            },
            Some(name) => {
                let ghost p = pv.push(name@);
                match e.data {
                    EntryData::Directory { node_id: child, count: child_count } => {
                        let dir_path = extend_path(path, name);
                        let child_path = extend_path(path, name);
                        let ghost out0 = out@;
                        out.push(Output::Directory { path: dir_path });
                        proof {
                            assert(outputs_view(out@) =~= outputs_view(out0).push(OutputView::Directory(p))) by {
                                assert forall|k: int| 0 <= k < out@.len() - 1 implies out@[k] == out0[k] by {}
                            }
                            lemma_unvisited_mono(v_init, cur, n as int);
                            assert(outputs_view(out@) =~= o_old + acc.push(OutputView::Directory(p)));
                        }
                        let res = plan_into(
                            names,
                            blobs,
                            bytes,
                            node_ids,
                            &child_path,
                            out,
                            child as usize,
                            child_count as usize,
                        );
                        if let Err(err) = res {
                            return Err(err);
                        }
                        proof {
                            let w = covered(*node_ids);
                            assert(cur.union(w) == w);
                            let (cw, cp) = plan(names@, blobs@, b, cur, p, child as int, child_count as int);
                            assert(cp is Ok);
                            assert(plan_entries(names@, blobs@, b, cur, pv, node_id as int, count as int, i as int) == ({
                                let (next_ids, next) = plan_entries(names@, blobs@, b, w, pv, node_id as int, count as int, i + 1);
                                match next {
                                    Err(err) => (next_ids, Err(err)),
                                    Ok(rest) => (next_ids, Ok(seq![OutputView::Directory(p)] + cp->Ok_0 + rest)),
                                }
                            }));
                            let acc0 = acc;
                            acc = acc.push(OutputView::Directory(p)) + cp->Ok_0;
                            assert(outputs_view(out@) =~= o_old + acc);
                            let (next_ids, next) = plan_entries(names@, blobs@, b, w, pv, node_id as int, count as int, i + 1);
                            if next is Ok {
                                assert(acc0 + (seq![OutputView::Directory(p)] + cp->Ok_0 + next->Ok_0) =~= acc + next->Ok_0);
                            }
                            assert(plan_progress(names@, blobs@, b, v_old, pv, node_id as int, count as int, covered(*node_ids), i + 1, acc));
                        }
                    },
                    EntryData::File { data_offset, .. } => {
                        match file_output(blobs, e.flags, data_offset as usize) {
                            None => {
                                assert(plan_progress(names@, blobs@, b, v_old, pv, node_id as int, count as int, covered(*node_ids), i + 1, acc));
                            },
                            Some(Err(err)) => {
                                return Err(err);
                            },
                            Some(Ok(contents)) => {
                                let file_path = extend_path(path, name);
                                let ghost cv = contents@;
                                let ghost out0 = out@;
                                out.push(Output::File { path: file_path, contents });
                                proof {
                                    assert(outputs_view(out@) =~= outputs_view(out0).push(OutputView::File(p, cv))) by {
                                        assert forall|k: int| 0 <= k < out@.len() - 1 implies out@[k] == out0[k] by {}
                                    }
                                    assert(plan_entries(names@, blobs@, b, cur, pv, node_id as int, count as int, i as int) == ({
                                        let (next_ids, next) = plan_entries(names@, blobs@, b, cur, pv, node_id as int, count as int, i + 1);
                                        match next {
                                            Err(err) => (next_ids, Err(err)),
                                            Ok(rest) => (next_ids, Ok(seq![OutputView::File(p, cv)] + rest)),
                                        }
                                    }));
                                    let (next_ids, next) = plan_entries(names@, blobs@, b, cur, pv, node_id as int, count as int, i + 1);
                                    let acc0 = acc;
                                    acc = acc.push(OutputView::File(p, cv));
                                    assert(outputs_view(out@) =~= o_old + acc);
                                    if next is Ok {
                                        assert(acc0 + (seq![OutputView::File(p, cv)] + next->Ok_0) =~= acc + next->Ok_0);
                                    }
                                    assert(plan_progress(names@, blobs@, b, v_old, pv, node_id as int, count as int, covered(*node_ids), i + 1, acc));
                                }
                            },
                        }
                    },
                }
            },
        }
        i = i + 1;
    }
    proof {
        assert(acc + Seq::<OutputView>::empty() =~= acc);
    }
    Ok(())
}

/// Plans the extraction of the child range `[node_id, node_id + count)` of the
/// tree at the start of `bytes`, whose file entries point into `blobs`: each
/// entry whose name offset is in `names` gives a directory to create or a file
/// to write, named by the path of names from the walk's start. Entries whose
/// blob record is missing are skipped; a compressed blob that does not inflate
/// stops the plan with an error.
pub fn extract_tree(
    names: &BTreeMap<usize, String>,
    blobs: &[u8],
    bytes: &[u8],
    node_id: usize,
    count: usize,
) -> (r: Result<Vec<Output>, ExtractError>)
    ensures
        ({
            let (w, p) = plan(
                names@,
                blobs@,
                bytes@,
                Set::empty(),
                Seq::empty(),
                node_id as int,
                count as int,
            );
            &&& r is Ok <==> p is Ok
            &&& r is Ok ==> outputs_view(r->Ok_0@) == p->Ok_0
            &&& r is Err ==> r->Err_0 == p->Err_0
        }),
{
    let mut node_ids = empty_ranges();
    let mut out: Vec<Output> = Vec::new();
    let path: Vec<String> = Vec::new();
    assert(path_view(path@) =~= Seq::empty());
    match plan_into(names, blobs, bytes, &mut node_ids, &path, &mut out, node_id, count) {
        Ok(()) => {
            assert(outputs_view(out@) =~= outputs_view(Seq::<Output>::empty()) + outputs_view(out@));
            Ok(out)
        },
        Err(e) => Err(e),
    }
}

} // verus!
