//! Discovery and parsing of name tables.
//!
//! A name table is a run of entries `[u16 size | u32 hash | size UTF-16 BE
//! code units]`, big-endian, that ends at the end of the bytes or at the first
//! entry that does not hold together.
use std::collections::{BTreeMap, BTreeSet};
use std::ops::Range;
use vstd::prelude::*;
use crate::bytes::{be16, be32, read_be16, read_be32};
use crate::hash::{hash_chars, hash_str, qhash};
use crate::ranges::{covered, empty_ranges, interval, ranges_contain, ranges_insert};
use crate::text::{decode_utf16, utf16_len, utf16_text};
use rangemap::RangeSet;

verus! {

broadcast use vstd::std_specs::btree::group_btree_axioms;

/// The `n` big-endian code units that start at `q`.
pub open spec fn units_at(b: Seq<u8>, q: int, n: int) -> Seq<u16> {
    Seq::new(n as nat, |k: int| be16(b, q + 2 * k) as u16)
}

/// The number of code units that the entry at `p` declares.
pub open spec fn entry_size(b: Seq<u8>, p: int) -> int {
    be16(b, p)
}

/// The length in bytes of the entry at `p`.
pub open spec fn entry_len(b: Seq<u8>, p: int) -> int {
    6 + 2 * entry_size(b, p)
}

/// The text of the entry at `p`, where its code units decode.
pub open spec fn entry_text(b: Seq<u8>, p: int) -> Seq<char> {
    utf16_text(units_at(b, p + 6, entry_size(b, p)))->0
}

/// Whether a valid name entry starts at `p`: a nonzero size, all of its bytes
/// present, text that decodes, and a stored hash that matches the text.
pub open spec fn entry_ok(b: Seq<u8>, p: int) -> bool {
    &&& 0 <= p
    &&& p + 6 <= b.len()
    &&& entry_size(b, p) > 0
    &&& p + entry_len(b, p) <= b.len()
    &&& utf16_text(units_at(b, p + 6, entry_size(b, p))) is Some
    &&& utf16_len(entry_text(b, p)) == entry_size(b, p)
    &&& qhash(entry_text(b, p)) as int == be32(b, p + 2)
}

/// The position just past the last entry of the table that starts at `p`.
pub open spec fn table_end(b: Seq<u8>, p: int) -> int
    decreases b.len() - p,
{
    if entry_ok(b, p) {
        table_end(b, p + entry_len(b, p))
    } else {
        p
    }
}

/// The entries of the table that starts at `p`, by absolute position.
pub open spec fn table_entries(b: Seq<u8>, p: int) -> Map<int, Seq<char>>
    decreases b.len() - p,
{
    if entry_ok(b, p) {
        table_entries(b, p + entry_len(b, p)).insert(p, entry_text(b, p))
    } else {
        Map::empty()
    }
}

/// `m` holds the entries of the table at `start`, keyed by their offset from
/// `start`.
pub open spec fn names_of_table(m: Map<usize, String>, b: Seq<u8>, start: int) -> bool {
    &&& forall|k: usize| #[trigger]
        m.contains_key(k) <==> table_entries(b, start).contains_key(start + k)
    &&& forall|k: usize| #[trigger]
        m.contains_key(k) ==> m[k]@ == table_entries(b, start)[start + k]
}

/// Every entry of the table at `p` lies at or after `p` and ends by its end.
pub proof fn lemma_entries_within(b: Seq<u8>, p: int)
    ensures
        p <= table_end(b, p),
        forall|q: int| #[trigger]
            table_entries(b, p).contains_key(q) ==> p <= q && q + entry_len(b, q) <= table_end(
                b,
                p,
            ) && entry_ok(b, q) && table_entries(b, p)[q] == entry_text(b, q),
    decreases b.len() - p,
{
    if entry_ok(b, p) {
        let n = p + entry_len(b, p);
        lemma_entries_within(b, n);
        assert(table_entries(b, p) == table_entries(b, n).insert(p, entry_text(b, p)));
        assert(table_end(b, p) == table_end(b, n));
    } else {
        assert(table_entries(b, p) == Map::<int, Seq<char>>::empty());
    }
}

/// Reads the name entry at `p`, if one is valid there.
fn read_entry(bytes: &[u8], p: usize) -> (r: Option<(usize, String)>)
    ensures
        r is Some <==> entry_ok(bytes@, p as int),
        r is Some ==> (r->0).0 == p + entry_len(bytes@, p as int) && (r->0).1@ == entry_text(
            bytes@,
            p as int,
        ),
{
    let n = bytes.len();
    if p > n || n - p < 6 {
        return None;
    }
    let size = read_be16(bytes, p) as usize;
    if size == 0 || (n - p - 6) / 2 < size {
        return None;
    }
    let hash = read_be32(bytes, p + 2);
    let mut units: Vec<u16> = Vec::new();
    let mut i: usize = 0;
    while i < size
        invariant
            n == bytes@.len(),
            p + 6 + 2 * size <= n,
            size == entry_size(bytes@, p as int),
            i <= size,
            units@ == units_at(bytes@, p + 6, size as int).take(i as int),
        decreases size - i,
    {
        let u = read_be16(bytes, p + 6 + 2 * i);
        units.push(u);
        i = i + 1;
        assert(units@ =~= units_at(bytes@, p + 6, size as int).take(i as int));
    }
    assert(units@ =~= units_at(bytes@, p + 6, size as int));
    let text = match decode_utf16(units.as_slice()) {
        Some(t) => t,
        None => {
            return None;
        },
    };
    if hash_str(text.as_str()) != hash {
        return None;
    }
    Some((p + 6 + 2 * size, text))
}

/// Parses the name table that starts at `offset`. Returns the byte range that
/// its valid entries span and each entry's text keyed by its offset from the
/// table's start. The range is empty where no valid entry starts at `offset`.
pub fn parse_names(bytes: &[u8], offset: usize) -> (r: (Range<usize>, BTreeMap<usize, String>))
    ensures
        r.0.start == offset,
        r.0.end == table_end(bytes@, offset as int),
        names_of_table(r.1@, bytes@, offset as int),
{
    let start = offset;
    let mut end = offset;
    let mut names: BTreeMap<usize, String> = BTreeMap::new();
    proof {
        lemma_entries_within(bytes@, start as int);
    }
    loop
        invariant
            start <= end,
            table_end(bytes@, start as int) == table_end(bytes@, end as int),
            forall|q: int|
                #[trigger] table_entries(bytes@, start as int).contains_key(q) ==> (q < end
                    || table_entries(bytes@, end as int).contains_key(q)),
            forall|q: int|
                #[trigger] table_entries(bytes@, end as int).contains_key(q) ==> (
                table_entries(bytes@, start as int).contains_key(q) && table_entries(
                    bytes@,
                    start as int,
                )[q] == table_entries(bytes@, end as int)[q]),
            forall|k: usize| #[trigger]
                names@.contains_key(k) <==> (start + k < end && table_entries(
                    bytes@,
                    start as int,
                ).contains_key(start + k)),
            forall|k: usize| #[trigger]
                names@.contains_key(k) ==> names@[k]@ == table_entries(bytes@, start as int)[start
                    + k],
        ensures
            table_end(bytes@, end as int) == end,
        decreases bytes@.len() - end,
    {
        proof {
            lemma_entries_within(bytes@, end as int);
        }
        match read_entry(bytes, end) {
            Some((next, text)) => {
                proof {
                    lemma_entries_within(bytes@, next as int);
                    assert(table_entries(bytes@, end as int) == table_entries(
                        bytes@,
                        next as int,
                    ).insert(end as int, text@));
                    assert(table_end(bytes@, end as int) == table_end(bytes@, next as int));
                    assert forall|q: int| #[trigger]
                        table_entries(bytes@, next as int).contains_key(q) implies table_entries(
                            bytes@,
                            start as int,
                        ).contains_key(q) && table_entries(bytes@, start as int)[q]
                            == table_entries(bytes@, next as int)[q] by {
                        assert(table_entries(bytes@, end as int).contains_key(q));
                    }
                }
                let ghost old_names = names@;
                let key = end - start;
                names.insert(key, text);
                proof {
                    assert(table_entries(bytes@, end as int).contains_key(end as int));
                    assert(table_entries(bytes@, start as int).contains_key(end as int));
                    assert forall|k: usize| #[trigger]
                        names@.contains_key(k) <==> (start + k < next && table_entries(
                            bytes@,
                            start as int,
                        ).contains_key(start + k)) by {
                        if k != key {
                            assert(old_names.contains_key(k) == names@.contains_key(k));
                            if start + k < next && start + k >= end && table_entries(
                                bytes@,
                                start as int,
                            ).contains_key(start + k) {
                                assert(table_entries(bytes@, end as int).contains_key(start + k));
                            }
                        }
                    }
                }
                end = next;
            },
            None => {
                assert(table_end(bytes@, end as int) == end);
                break;
            },
        }
    }
    assert(names_of_table(names@, bytes@, start as int)) by {
        assert forall|k: usize|
            table_entries(bytes@, start as int).contains_key(start + k) implies #[trigger]
            names@.contains_key(k) by {
            if start + k >= end {
                assert(table_entries(bytes@, end as int).contains_key(start + k));
            }
        }
    }
    (start..end, names)
}

/// Whether the two bytes at `p` look like an ASCII-graphic character in
/// UTF-16 BE: a zero byte, then a byte in `0x21..=0x7e`.
pub open spec fn graphic_pair(b: Seq<u8>, p: int) -> bool {
    &&& 0 <= p
    &&& p + 2 <= b.len()
    &&& b[p] == 0
    &&& 0x21 <= b[p + 1] <= 0x7e
}

/// The number of consecutive graphic pairs that start at `p`.
pub open spec fn run_len(b: Seq<u8>, p: int) -> nat
    decreases b.len() - p,
{
    if graphic_pair(b, p) {
        1 + run_len(b, p + 2)
    } else {
        0
    }
}

/// The `n` characters that the graphic pairs starting at `p` spell.
pub open spec fn ascii_text(b: Seq<u8>, p: int, n: int) -> Seq<char> {
    Seq::new(n as nat, |k: int| b[p + 2 * k + 1] as char)
}

/// Whether the scan with parity `delta` finds a name at `st`: `st` is where a
/// run of graphic pairs starts in the walk over pairs from `6 + delta`, a
/// non-graphic pair closes the run, and the size and hash stored in the six
/// bytes before `st` describe a nonempty prefix of the run.
pub open spec fn name_candidate(b: Seq<u8>, delta: int, st: int) -> bool {
    let m = run_len(b, st);
    let size = be16(b, st - 6);
    &&& st >= 6 + delta
    &&& (st - 6 - delta) % 2 == 0
    &&& (st == 6 + delta || !graphic_pair(b, st - 2))
    &&& m >= 1
    &&& st + 2 * m + 2 <= b.len()
    &&& 0 < size <= m
    &&& qhash(ascii_text(b, st, size)) as int == be32(b, st - 4)
}

/// The table starts that the scan with parity `delta` finds.
pub open spec fn scanned_starts(b: Seq<u8>, delta: int) -> Set<usize> {
    Set::new(|o: usize| name_candidate(b, delta, o + 6))
}

/// Inside a run of graphic pairs, the run continues to its end.
proof fn lemma_run_inside(b: Seq<u8>, p: int, j: int)
    requires
        0 <= j < run_len(b, p),
    ensures
        graphic_pair(b, p + 2 * j),
        run_len(b, p + 2 * j) == run_len(b, p) - j,
    decreases j,
{
    if j > 0 {
        lemma_run_inside(b, p + 2, j - 1);
    }
}

/// The pair just past a run is not graphic.
proof fn lemma_run_end(b: Seq<u8>, p: int)
    ensures
        !graphic_pair(b, p + 2 * run_len(b, p)),
    decreases b.len() - p,
{
    if graphic_pair(b, p) {
        lemma_run_end(b, p + 2);
    }
}

/// Two runs that start after a break, or at the first pair, and that end at the
/// same pair start at the same place.
proof fn lemma_same_run(b: Seq<u8>, delta: int, start: int, st: int, pos: int)
    requires
        start >= 6 + delta,
        st >= 6 + delta,
        start == 6 + delta || !graphic_pair(b, start - 2),
        st == 6 + delta || !graphic_pair(b, st - 2),
        (start - 6 - delta) % 2 == 0,
        (st - 6 - delta) % 2 == 0,
        start <= pos,
        run_len(b, start) == (pos - start) / 2,
        (pos - start) % 2 == 0,
        st + 2 * run_len(b, st) == pos,
        run_len(b, st) >= 1,
    ensures
        st == start,
{
    if st < start {
        lemma_run_inside(b, st, (start - 2 - st) / 2);
    } else if st > start {
        lemma_run_inside(b, start, (st - 2 - start) / 2);
    }
}

/// Adds to `offsets` the start of every name entry that the heuristic scan
/// finds when it walks the pairs of `bytes` from `6 + delta`.
pub fn scan_ascii_names(offsets: &mut BTreeSet<usize>, bytes: &[u8], delta: usize)
    requires
        delta <= 1,
    ensures
        final(offsets)@ == old(offsets)@.union(scanned_starts(bytes@, delta as int)),
        bytes@.len() < 6 ==> final(offsets)@ == old(offsets)@,
{
    let ghost b = bytes@;
    let n = bytes.len();
    if n < 6 {
        assert(scanned_starts(b, delta as int) =~= Set::empty()) by {
            assert forall|o: usize| !#[trigger] name_candidate(b, delta as int, o + 6) by {
                if name_candidate(b, delta as int, o + 6) {
                    assert(run_len(b, o + 6) >= 1);
                }
            }
        }
        assert(final(offsets)@ =~= old(offsets)@.union(scanned_starts(b, delta as int)));
        return;
    }
    let mut chars: Vec<char> = Vec::new();
    let mut start: usize = 6 + delta;
    let mut pos: usize = 6 + delta;
    while pos < n && n - pos >= 2
        invariant
            n == b.len(),
            b == bytes@,
            delta <= 1,
            6 + delta <= start <= pos <= n + 1,
            (start - 6 - delta) % 2 == 0,
            (pos - start) % 2 == 0,
            start == 6 + delta || !graphic_pair(b, start - 2),
            chars@ == ascii_text(b, start as int, (pos - start) / 2),
            run_len(b, start as int) == (pos - start) / 2 + run_len(b, pos as int),
            offsets@ == old(offsets)@.union(
                Set::new(
                    |o: usize|
                        name_candidate(b, delta as int, o + 6) && o + 6 + 2 * run_len(b, o + 6)
                            < pos,
                ),
            ),
        decreases n - pos,
    {
        let hi = bytes[pos];
        let lo = bytes[pos + 1];
        if hi == 0 && 0x21 <= lo && lo <= 0x7e {
            chars.push(lo as char);
            assert(chars@ =~= ascii_text(b, start as int, (pos + 2 - start) / 2));
            pos = pos + 2;
            assert(offsets@ =~= old(offsets)@.union(
                Set::new(
                    |o: usize|
                        name_candidate(b, delta as int, o + 6) && o + 6 + 2 * run_len(b, o + 6)
                            < pos,
                ),
            )) by {
                assert forall|o: usize|
                    #[trigger] name_candidate(b, delta as int, o + 6) && o + 6 + 2 * run_len(b, o + 6)
                        < pos implies o + 6 + 2 * run_len(b, o + 6) < pos - 2 by {
                    let st = o + 6;
                    if st + 2 * run_len(b, st) == pos - 2 {
                        lemma_run_end(b, st);
                    }
                }
            }
        } else {
            let ghost found = name_candidate(b, delta as int, start as int);
            if chars.len() > 0 {
                let size = read_be16(bytes, start - 6) as usize;
                if size > 0 && size <= chars.len() {
                    let hash = read_be32(bytes, start - 4);
                    chars.truncate(size);
                    assert(chars@ =~= ascii_text(b, start as int, size as int));
                    if hash_chars(chars.as_slice()) == hash {
                        offsets.insert(start - 6);
                    }
                }
            }
            assert(offsets@ =~= old(offsets)@.union(
                Set::new(
                    |o: usize|
                        name_candidate(b, delta as int, o + 6) && o + 6 + 2 * run_len(b, o + 6)
                            < pos + 2,
                ),
            )) by {
                assert forall|o: usize|
                    #[trigger] name_candidate(b, delta as int, o + 6) && o + 6 + 2 * run_len(b, o + 6)
                        < pos + 2 && o + 6 + 2 * run_len(b, o + 6) >= pos implies o + 6
                        == start by {
                    lemma_same_run(b, delta as int, start as int, o + 6, pos as int);
                }
                if found {
                    assert(offsets@.contains((start - 6) as usize));
                }
            }
            chars = Vec::new();
            start = pos + 2;
            pos = pos + 2;
        }
    }
    assert(offsets@ =~= old(offsets)@.union(scanned_starts(b, delta as int)));
}

/// Every parsed name holds to its entry: the stored hash is the hash of the
/// name, and the stored size is the nonzero number of UTF-16 code units that
/// decode to it, which is the name's UTF-16 length.
pub proof fn lemma_parsed_names_match(m: Map<usize, String>, b: Seq<u8>, start: int)
    requires
        names_of_table(m, b, start),
    ensures
        forall|k: usize| #[trigger]
            m.contains_key(k) ==> {
                &&& qhash(m[k]@) as int == be32(b, start + k + 2)
                &&& be16(b, start + k) > 0
                &&& utf16_text(units_at(b, start + k + 6, be16(b, start + k))) == Some(m[k]@)
                &&& utf16_len(m[k]@) == be16(b, start + k)
            },
{
    lemma_entries_within(b, start);
    assert forall|k: usize| #[trigger] m.contains_key(k) implies {
        &&& qhash(m[k]@) as int == be32(b, start + k + 2)
        &&& be16(b, start + k) > 0
        &&& utf16_text(units_at(b, start + k + 6, be16(b, start + k))) == Some(m[k]@)
        &&& utf16_len(m[k]@) == be16(b, start + k)
    } by {
        assert(table_entries(b, start).contains_key(start + k));
    }
}

/// Whether either parity of the heuristic scan finds a table start at `o`.
pub open spec fn table_candidate(b: Seq<u8>, o: int) -> bool {
    name_candidate(b, 0, o + 6) || name_candidate(b, 1, o + 6)
}

/// Whether the table at `o` is taken, given the values `c` that tables taken
/// before it cover: `o` is a candidate outside `c` and a valid entry starts there.
pub open spec fn table_taken(b: Seq<u8>, o: int, c: Set<int>) -> bool {
    table_candidate(b, o) && !c.contains(o) && table_end(b, o) > o
}

/// The values covered by the tables taken at positions below `p`.
pub open spec fn taken_before(b: Seq<u8>, p: int) -> Set<int>
    decreases p,
{
    if p <= 0 {
        Set::empty()
    } else {
        let c = taken_before(b, p - 1);
        if table_taken(b, p - 1, c) {
            c.union(interval(p - 1, table_end(b, p - 1)))
        } else {
            c
        }
    }
}

/// Whether the table that starts at `o` is one of those that the scan yields.
pub open spec fn table_taken_at(b: Seq<u8>, o: int) -> bool {
    table_taken(b, o, taken_before(b, o))
}

/// Finds the name tables of `bytes`. Candidates from both parities of the
/// heuristic scan are parsed in ascending order, skipping those inside a table
/// already taken; each nonempty table is yielded under its start, with its
/// byte range and its names keyed by their offset from the start.
pub fn scan_names(bytes: &[u8]) -> (r: BTreeMap<usize, (Range<usize>, BTreeMap<usize, String>)>)
    ensures
        forall|o: usize| #[trigger] r@.contains_key(o) <==> table_taken_at(bytes@, o as int),
        forall|o: usize| #[trigger]
            r@.contains_key(o) ==> {
                &&& r@[o].0.start == o
                &&& r@[o].0.end == table_end(bytes@, o as int)
                &&& names_of_table(r@[o].1@, bytes@, o as int)
            },
        bytes@.len() < 6 ==> r@.is_empty(),
{
    let ghost b = bytes@;
    let mut offsets: BTreeSet<usize> = BTreeSet::new();
    scan_ascii_names(&mut offsets, bytes, 0);
    scan_ascii_names(&mut offsets, bytes, 1);
    assert forall|o: usize| #[trigger] offsets@.contains(o) <==> table_candidate(b, o as int) by {
        assert(scanned_starts(b, 0).contains(o) == name_candidate(b, 0, o + 6));
        assert(scanned_starts(b, 1).contains(o) == name_candidate(b, 1, o + 6));
    }
    let mut ranges: RangeSet<usize> = empty_ranges();
    let mut sections: BTreeMap<usize, (Range<usize>, BTreeMap<usize, String>)> = BTreeMap::new();
    let n = bytes.len();
    let mut o: usize = 0;
    while o < n
        invariant
            b == bytes@,
            n == b.len(),
            o <= n,
            forall|k: usize| #[trigger] offsets@.contains(k) <==> table_candidate(b, k as int),
            covered(ranges) == taken_before(b, o as int),
            forall|k: usize| #[trigger]
                sections@.contains_key(k) <==> (k < o && table_taken_at(b, k as int)),
            forall|k: usize| #[trigger]
                sections@.contains_key(k) ==> {
                    &&& sections@[k].0.start == k
                    &&& sections@[k].0.end == table_end(b, k as int)
                    &&& names_of_table(sections@[k].1@, b, k as int)
                },
        decreases n - o,
    {
        if offsets.contains(&o) && !ranges_contain(&ranges, o) {
            let (range, names) = parse_names(bytes, o);
            if range.start < range.end {
                ranges_insert(&mut ranges, range.start, range.end);
                sections.insert(o, (range, names));
            }
        }
        o = o + 1;
    }
    proof {
        if b.len() < 6 {
            assert forall|k: usize| !table_candidate(b, k as int) by {
                if name_candidate(b, 0, k + 6) {
                    assert(run_len(b, k + 6) >= 1);
                }
                if name_candidate(b, 1, k + 6) {
                    assert(run_len(b, k + 6) >= 1);
                }
            }
            assert(sections@ =~= Map::empty());
        }
    }
    sections
}

} // verus!
