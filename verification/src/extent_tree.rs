use vstd::prelude::*;
use vstd::bytes::*;
use vstd::slice::slice_subrange;
use crate::block::{append_bytes, le_u16_at, le_u32_at, header_bytes, write_bytes, Block, BlockHeader};
use crate::constants::{BLOCK_HEADER_SIZE, BLOCK_MAX_ENTRIES, BLOCK_SIZE, ENTRY_SIZE, NODE_HEADER_SIZE, ROOT_MAX_ENTRIES, TREE_MAGIC};
use crate::file_errors::FileError;
use crate::bitmaps::{bit_count, bits, free_entries, lemma_free_entry_facts};
use crate::directories::allocate_block;

verus! {

broadcast use vstd::seq_lib::group_seq_properties;

/// A run of `length` physical blocks starting at `physical_start`, holding the
/// logical blocks `[logical_start, logical_start + length)` of a file.
#[derive(Clone, Copy, Debug, PartialEq, Eq, Structural)]
pub struct Extent {
    pub logical_start: u32,
    pub physical_start: u32,
    pub length: u32,
}

/// An entry of an internal node: the subtree stored in `child_block` covers
/// logical blocks from `logical_start` on.
#[derive(Clone, Copy, Debug, PartialEq, Eq, Structural)]
pub struct IndexEntry {
    pub logical_start: u32,
    pub child_block: u32,
    pub _reserved: u32,
}

/// The 12 bytes an extent is stored as.
pub open spec fn extent_bytes(e: Extent) -> Seq<u8> {
    spec_u32_to_le_bytes(e.logical_start) + spec_u32_to_le_bytes(e.physical_start)
        + spec_u32_to_le_bytes(e.length)
}

/// The extent stored in 12 bytes.
pub open spec fn extent_of_bytes(b: Seq<u8>) -> Extent {
    Extent {
        logical_start: le_u32_at(b, 0),
        physical_start: le_u32_at(b, 4),
        length: le_u32_at(b, 8),
    }
}

/// The 12 bytes an index entry is stored as.
pub open spec fn index_bytes(e: IndexEntry) -> Seq<u8> {
    spec_u32_to_le_bytes(e.logical_start) + spec_u32_to_le_bytes(e.child_block)
        + spec_u32_to_le_bytes(e._reserved)
}

/// The index entry stored in 12 bytes.
pub open spec fn index_of_bytes(b: Seq<u8>) -> IndexEntry {
    IndexEntry {
        logical_start: le_u32_at(b, 0),
        child_block: le_u32_at(b, 4),
        _reserved: le_u32_at(b, 8),
    }
}

proof fn lemma_three_words(a: u32, b: u32, c: u32)
    ensures
        ({
            let s = spec_u32_to_le_bytes(a) + spec_u32_to_le_bytes(b) + spec_u32_to_le_bytes(c);
            &&& s.len() == 12
            &&& le_u32_at(s, 0) == a
            &&& le_u32_at(s, 4) == b
            &&& le_u32_at(s, 8) == c
        }),
{
    lemma_auto_spec_u32_to_from_le_bytes();
    let s = spec_u32_to_le_bytes(a) + spec_u32_to_le_bytes(b) + spec_u32_to_le_bytes(c);
    assert(s.subrange(0, 4) =~= spec_u32_to_le_bytes(a));
    assert(s.subrange(4, 8) =~= spec_u32_to_le_bytes(b));
    assert(s.subrange(8, 12) =~= spec_u32_to_le_bytes(c));
}

/// Reading back a stored extent gives the extent.
pub proof fn law_extent_round_trip(e: Extent)
    ensures
        extent_bytes(e).len() == ENTRY_SIZE,
        extent_of_bytes(extent_bytes(e)) == e,
{
    lemma_three_words(e.logical_start, e.physical_start, e.length);
}

/// Reading back a stored index entry gives the entry.
pub proof fn law_index_round_trip(e: IndexEntry)
    ensures
        index_bytes(e).len() == ENTRY_SIZE,
        index_of_bytes(index_bytes(e)) == e,
{
    lemma_three_words(e.logical_start, e.child_block, e._reserved);
}

fn words_to_entry(a: u32, b: u32, c: u32) -> (r: [u8; ENTRY_SIZE])
    ensures
        r@ == spec_u32_to_le_bytes(a) + spec_u32_to_le_bytes(b) + spec_u32_to_le_bytes(c),
{
    proof {
        lemma_auto_spec_u32_to_from_le_bytes();
    }
    let x = u32_to_le_bytes(a);
    let y = u32_to_le_bytes(b);
    let z = u32_to_le_bytes(c);
    let r = [x[0], x[1], x[2], x[3], y[0], y[1], y[2], y[3], z[0], z[1], z[2], z[3]];
    assert(r@ =~= x@ + y@ + z@);
    r
}

impl Extent {
    /// The 12 bytes the extent is stored as.
    pub fn to_bytes(&self) -> (r: [u8; ENTRY_SIZE])
        ensures
            r@ == extent_bytes(*self),
    {
        words_to_entry(self.logical_start, self.physical_start, self.length)
    }

    /// The extent stored in `b`.
    pub fn from_bytes(b: &[u8; ENTRY_SIZE]) -> (r: Self)
        ensures
            r == extent_of_bytes(b@),
    {
        let s = b.as_slice();
        Self {
            logical_start: u32_from_le_bytes(slice_subrange(s, 0, 4)),
            physical_start: u32_from_le_bytes(slice_subrange(s, 4, 8)),
            length: u32_from_le_bytes(slice_subrange(s, 8, 12)),
        }
    }
}

impl IndexEntry {
    /// The 12 bytes the entry is stored as.
    pub fn to_bytes(&self) -> (r: [u8; ENTRY_SIZE])
        ensures
            r@ == index_bytes(*self),
    {
        words_to_entry(self.logical_start, self.child_block, self._reserved)
    }

    /// The index entry stored in `b`.
    pub fn from_bytes(b: &[u8; ENTRY_SIZE]) -> (r: Self)
        ensures
            r == index_of_bytes(b@),
    {
        let s = b.as_slice();
        Self {
            logical_start: u32_from_le_bytes(slice_subrange(s, 0, 4)),
            child_block: u32_from_le_bytes(slice_subrange(s, 4, 8)),
            _reserved: u32_from_le_bytes(slice_subrange(s, 8, 12)),
        }
    }
}

/// What a delete reports to the node above it.
#[derive(Clone, Copy, Debug, PartialEq, Eq, Structural)]
pub enum DeleteResult {
    Done,
    Underflow,
}

/// What an insert reports to the node above it: the node's new smallest key,
/// and, when it split, the key and block of its new right sibling.
#[derive(Clone, Copy, Debug, PartialEq, Eq, Structural)]
pub enum InsertResult {
    Done { new_min: u32 },
    Split { key: u32, new_block: u32, new_min: u32 },
}

/// First logical block after the extent.
pub open spec fn ext_end(e: Extent) -> int {
    e.logical_start + e.length
}

/// The extent's logical and physical ranges are representable.
pub open spec fn extent_fits(e: Extent) -> bool {
    &&& e.logical_start + e.length <= u32::MAX
    &&& e.physical_start + e.length <= u32::MAX
}

/// Every extent of `exts` fits.
pub open spec fn all_fit(exts: Seq<Extent>) -> bool {
    forall|j: int| 0 <= j < exts.len() ==> #[trigger] extent_fits(exts[j])
}

/// Logical block `l` is stored in physical block `p` according to `exts`.
pub open spec fn maps_to(exts: Seq<Extent>, l: int, p: int) -> bool {
    exists|j: int|
        0 <= j < exts.len() && #[trigger] exts[j].logical_start <= l < ext_end(exts[j]) && p
            == exts[j].physical_start + (l - exts[j].logical_start)
}

/// The extent meets the logical range `[s, t)` in the sense the leaf
/// operations use: it neither ends at or before `s` nor starts at or after `t`.
pub open spec fn meets(e: Extent, s: int, t: int) -> bool {
    !(ext_end(e) <= s || e.logical_start >= t)
}

/// The part of `e` outside `[s, t)`: `e` itself when it does not meet the
/// range, otherwise the pieces before `s` and after `t` that are nonempty.
pub open spec fn kept_pieces(e: Extent, s: int, t: int) -> Seq<Extent> {
    if !meets(e, s, t) {
        seq![e]
    } else {
        (if e.logical_start < s {
            seq![
                Extent {
                    logical_start: e.logical_start,
                    physical_start: e.physical_start,
                    length: (s - e.logical_start) as u32,
                },
            ]
        } else {
            Seq::empty()
        }) + (if ext_end(e) > t {
            seq![
                Extent {
                    logical_start: t as u32,
                    physical_start: (e.physical_start + (t - e.logical_start)) as u32,
                    length: (ext_end(e) - t) as u32,
                },
            ]
        } else {
            Seq::empty()
        })
    }
}

/// The part of `e` inside `[s, t)`.
pub open spec fn cut_piece(e: Extent, s: int, t: int) -> Extent {
    let lo = if e.logical_start > s { e.logical_start as int } else { s };
    let hi = if ext_end(e) < t { ext_end(e) } else { t };
    Extent {
        logical_start: lo as u32,
        physical_start: (e.physical_start + (lo - e.logical_start)) as u32,
        length: (hi - lo) as u32,
    }
}

/// `exts` with the logical range `[s, t)` cut out of every extent, in order.
pub open spec fn clip_kept(exts: Seq<Extent>, s: int, t: int) -> Seq<Extent>
    decreases exts.len(),
{
    if exts.len() == 0 {
        Seq::empty()
    } else {
        clip_kept(exts.drop_last(), s, t) + kept_pieces(exts.last(), s, t)
    }
}

/// The pieces cut out of `exts` by `clip_kept`, in order.
pub open spec fn clip_cut(exts: Seq<Extent>, s: int, t: int) -> Seq<Extent>
    decreases exts.len(),
{
    if exts.len() == 0 {
        Seq::empty()
    } else {
        clip_cut(exts.drop_last(), s, t) + if meets(exts.last(), s, t) {
            seq![cut_piece(exts.last(), s, t)]
        } else {
            Seq::empty()
        }
    }
}

/// Cutting `[s, t)` out of `exts` is free of overflow: the range is ordered,
/// or no extent meets it.
pub open spec fn clip_ok(exts: Seq<Extent>, s: int, t: int) -> bool {
    s <= t || forall|j: int| 0 <= j < exts.len() ==> !#[trigger] meets(exts[j], s, t)
}

proof fn lemma_clip_push(exts: Seq<Extent>, e: Extent, s: int, t: int)
    ensures
        clip_kept(exts.push(e), s, t) == clip_kept(exts, s, t) + kept_pieces(e, s, t),
        clip_cut(exts.push(e), s, t) == clip_cut(exts, s, t) + if meets(e, s, t) {
            seq![cut_piece(e, s, t)]
        } else {
            Seq::empty()
        },
{
    assert(exts.push(e).drop_last() =~= exts);
}

/// Cuts `[start, end)` out of `existing`: returns what is left, in order,
/// and appends the pieces cut out to `freed`.
fn clip_extents(existing: &Vec<Extent>, start: u32, end: u32, freed: &mut Vec<Extent>) -> (r: Vec<
    Extent,
>)
    requires
        all_fit(existing@),
        clip_ok(existing@, start as int, end as int),
    ensures
        r@ == clip_kept(existing@, start as int, end as int),
        final(freed)@ == old(freed)@ + clip_cut(existing@, start as int, end as int),
{
    let mut remaining: Vec<Extent> = Vec::new();
    let mut i: usize = 0;
    while i < existing.len()
        invariant
            i <= existing@.len(),
            all_fit(existing@),
            clip_ok(existing@, start as int, end as int),
            remaining@ == clip_kept(existing@.take(i as int), start as int, end as int),
            freed@ == old(freed)@ + clip_cut(existing@.take(i as int), start as int, end as int),
        decreases existing@.len() - i,
    {
        let e = existing[i];
        proof {
            assert(existing@.take(i + 1) =~= existing@.take(i as int).push(e));
            lemma_clip_push(existing@.take(i as int), e, start as int, end as int);
            assert(extent_fits(existing@[i as int]));
        }
        let e_start = e.logical_start;
        let e_end = e.logical_start + e.length;
        if e_end <= start || e_start >= end {
            remaining.push(e);
            assert(remaining@ =~= clip_kept(existing@.take(i + 1), start as int, end as int));
        } else {
            let overlap_start = if e_start > start { e_start } else { start };
            let overlap_end = if e_end < end { e_end } else { end };
            freed.push(
                Extent {
                    logical_start: overlap_start,
                    physical_start: e.physical_start + (overlap_start - e_start),
                    length: overlap_end - overlap_start,
                },
            );
            if e_start < start {
                remaining.push(
                    Extent {
                        logical_start: e_start,
                        physical_start: e.physical_start,
                        length: start - e_start,
                    },
                );
            }
            if e_end > end {
                let logical_offset = end - e_start;
                remaining.push(
                    Extent {
                        logical_start: end,
                        physical_start: e.physical_start + logical_offset,
                        length: e_end - end,
                    },
                );
            }
            assert(remaining@ =~= clip_kept(existing@.take(i + 1), start as int, end as int));
            assert(freed@ =~= old(freed)@ + clip_cut(
                existing@.take(i + 1),
                start as int,
                end as int,
            ));
        }
        i = i + 1;
    }
    assert(existing@.take(existing@.len() as int) =~= existing@);
    remaining
}

/// Logical block `l` is stored in physical block `p` according to extent `e`.
pub open spec fn ext_maps(e: Extent, l: int, p: int) -> bool {
    e.logical_start <= l < ext_end(e) && p == e.physical_start + (l - e.logical_start)
}

#[verifier::spinoff_prover]
proof fn lemma_maps_to_concat(a: Seq<Extent>, b: Seq<Extent>, l: int, p: int)
    ensures
        maps_to(a + b, l, p) == (maps_to(a, l, p) || maps_to(b, l, p)),
{
    let c = a + b;
    if maps_to(c, l, p) {
        let j = choose|j: int|
            0 <= j < c.len() && #[trigger] c[j].logical_start <= l < ext_end(c[j]) && p
                == c[j].physical_start + (l - c[j].logical_start);
        if j < a.len() {
            assert(a[j] == c[j]);
        } else {
            assert(b[j - a.len()] == c[j]);
        }
    }
    if maps_to(a, l, p) {
        let j = choose|j: int|
            0 <= j < a.len() && #[trigger] a[j].logical_start <= l < ext_end(a[j]) && p
                == a[j].physical_start + (l - a[j].logical_start);
        assert(c[j] == a[j]);
    }
    if maps_to(b, l, p) {
        let j = choose|j: int|
            0 <= j < b.len() && #[trigger] b[j].logical_start <= l < ext_end(b[j]) && p
                == b[j].physical_start + (l - b[j].logical_start);
        assert(c[a.len() + j] == b[j]);
    }
}

proof fn lemma_maps_to_single(e: Extent, l: int, p: int)
    ensures
        maps_to(seq![e], l, p) == ext_maps(e, l, p),
{
    if ext_maps(e, l, p) {
        assert(seq![e][0] == e);
    }
}

proof fn lemma_maps_to_empty(l: int, p: int)
    ensures
        !maps_to(Seq::<Extent>::empty(), l, p),
{
}

#[verifier::spinoff_prover]
proof fn lemma_pieces_maps(e: Extent, s: int, t: int, l: int, p: int)
    requires
        extent_fits(e),
        s <= t,
        0 <= s,
        t <= u32::MAX,
    ensures
        maps_to(kept_pieces(e, s, t), l, p) == (ext_maps(e, l, p) && !(s <= l < t)),
        meets(e, s, t) ==> (ext_maps(cut_piece(e, s, t), l, p) == (ext_maps(e, l, p) && s <= l
            < t)),
        !meets(e, s, t) ==> !(ext_maps(e, l, p) && s <= l < t),
{
    lemma_maps_to_empty(l, p);
    if !meets(e, s, t) {
        lemma_maps_to_single(e, l, p);
    } else {
        let left = Extent {
            logical_start: e.logical_start,
            physical_start: e.physical_start,
            length: (s - e.logical_start) as u32,
        };
        let right = Extent {
            logical_start: t as u32,
            physical_start: (e.physical_start + (t - e.logical_start)) as u32,
            length: (ext_end(e) - t) as u32,
        };
        lemma_maps_to_single(left, l, p);
        lemma_maps_to_single(right, l, p);
        let a = if e.logical_start < s { seq![left] } else { Seq::empty() };
        let b = if ext_end(e) > t { seq![right] } else { Seq::empty() };
        lemma_maps_to_concat(a, b, l, p);
    }
}

#[verifier::spinoff_prover]
proof fn lemma_clip_maps(exts: Seq<Extent>, s: int, t: int, l: int, p: int)
    requires
        all_fit(exts),
        0 <= s <= t <= u32::MAX,
    ensures
        maps_to(clip_kept(exts, s, t), l, p) == (maps_to(exts, l, p) && !(s <= l < t)),
        maps_to(clip_cut(exts, s, t), l, p) == (maps_to(exts, l, p) && s <= l < t),
    decreases exts.len(),
{
    lemma_maps_to_empty(l, p);
    if exts.len() > 0 {
        let front = exts.drop_last();
        let e = exts.last();
        assert(exts =~= front.push(e));
        assert(extent_fits(exts[exts.len() - 1]));
        lemma_clip_maps(front, s, t, l, p);
        lemma_pieces_maps(e, s, t, l, p);
        lemma_maps_to_concat(front, seq![e], l, p);
        lemma_maps_to_single(e, l, p);
        lemma_maps_to_concat(clip_kept(front, s, t), kept_pieces(e, s, t), l, p);
        let cut = if meets(e, s, t) { seq![cut_piece(e, s, t)] } else { Seq::empty() };
        lemma_maps_to_concat(clip_cut(front, s, t), cut, l, p);
        lemma_maps_to_single(cut_piece(e, s, t), l, p);
    }
}

/// Cutting `[s, t)` out of a list of extents keeps exactly the mappings of
/// logical blocks outside the range, and the cut pieces hold exactly the
/// mappings of the logical blocks inside it.
pub proof fn law_clip_splits_mappings(exts: Seq<Extent>, s: u32, t: u32, l: int, p: int)
    requires
        all_fit(exts),
        s <= t,
    ensures
        maps_to(clip_kept(exts, s as int, t as int), l, p) == (maps_to(exts, l, p) && !(s <= l
            < t)),
        maps_to(clip_cut(exts, s as int, t as int), l, p) == (maps_to(exts, l, p) && s <= l < t),
{
    lemma_clip_maps(exts, s as int, t as int, l, p);
}

/// Extents ordered by logical start, none overlapping the next.
pub open spec fn sorted_extents(exts: Seq<Extent>) -> bool {
    forall|j: int, k: int|
        0 <= j < k < exts.len() ==> ext_end(#[trigger] exts[j]) <= #[trigger] exts[k].logical_start
}

/// A well-formed leaf: nonempty, representable extents in logical order with
/// no overlap.
pub open spec fn leaf_wf(exts: Seq<Extent>) -> bool {
    &&& all_fit(exts)
    &&& forall|j: int| 0 <= j < exts.len() ==> #[trigger] exts[j].length > 0
    &&& sorted_extents(exts)
}

/// No extent of `exts` meets `[s, t)`.
pub open spec fn avoids(exts: Seq<Extent>, s: int, t: int) -> bool {
    forall|j: int| 0 <= j < exts.len() ==> !#[trigger] meets(exts[j], s, t)
}

/// Every extent of `exts` lies in the logical range `[lo, hi)`.
pub open spec fn within(exts: Seq<Extent>, lo: int, hi: int) -> bool {
    forall|j: int| 0 <= j < exts.len() ==> lo <= #[trigger] exts[j].logical_start && ext_end(exts[j]) <= hi
}

/// Index of the first extent of `c` that does not start before `s`.
pub open spec fn first_not_before(c: Seq<Extent>, s: int) -> int
    decreases c.len(),
{
    if c.len() == 0 {
        0
    } else if c[0].logical_start < s {
        1 + first_not_before(c.drop_first(), s)
    } else {
        0
    }
}

/// `prev` followed by `n`, as one extent.
pub open spec fn joined(prev: Extent, n: Extent) -> Extent {
    Extent {
        logical_start: prev.logical_start,
        physical_start: prev.physical_start,
        length: (prev.length + n.length) as u32,
    }
}

/// `prev` continues into `n` both logically and physically.
pub open spec fn continues(prev: Extent, n: Extent) -> bool {
    ext_end(prev) == n.logical_start && prev.physical_start + prev.length == n.physical_start
}

/// Adds `n` to the ordered extents `c` at its place, joining it with the
/// extent before it and the one after it where they continue into each other.
pub open spec fn merge_insert(c: Seq<Extent>, n: Extent) -> Seq<Extent> {
    let pos = first_not_before(c, n.logical_start as int);
    let with_prev = pos > 0 && continues(c[pos - 1], n);
    let with_next = pos < c.len() && continues(n, c[pos]);
    if with_prev && with_next {
        c.take(pos - 1) + seq![joined(joined(c[pos - 1], n), c[pos])] + c.skip(pos + 1)
    } else if with_prev {
        c.take(pos - 1) + seq![joined(c[pos - 1], n)] + c.skip(pos)
    } else if with_next {
        c.take(pos) + seq![joined(n, c[pos])] + c.skip(pos + 1)
    } else {
        c.take(pos) + seq![n] + c.skip(pos)
    }
}

/// Joining `n` with its neighbours in `c` does not overflow a length.
pub open spec fn merge_fits(c: Seq<Extent>, n: Extent) -> bool {
    let pos = first_not_before(c, n.logical_start as int);
    let with_prev = pos > 0 && continues(c[pos - 1], n);
    let with_next = pos < c.len() && continues(n, c[pos]);
    &&& with_prev && with_next ==> c[pos - 1].length + n.length + c[pos].length <= u32::MAX
    &&& with_prev ==> c[pos - 1].length + n.length <= u32::MAX
    &&& with_next ==> n.length + c[pos].length <= u32::MAX
}

/// The extents of a leaf after inserting `n`: `n`'s logical range is cut out
/// of `exts` and `n` is merged in.
pub open spec fn leaf_after_insert(exts: Seq<Extent>, n: Extent) -> Seq<Extent> {
    merge_insert(clip_kept(exts, n.logical_start as int, ext_end(n)), n)
}

proof fn lemma_first_not_before(c: Seq<Extent>, s: int, k: int)
    requires
        0 <= k <= c.len(),
        forall|j: int| 0 <= j < k ==> #[trigger] c[j].logical_start < s,
        k < c.len() ==> c[k].logical_start >= s,
    ensures
        first_not_before(c, s) == k,
    decreases k,
{
    if k > 0 {
        assert(c[0].logical_start < s);
        assert forall|j: int| 0 <= j < k - 1 implies #[trigger] c.drop_first()[j].logical_start
            < s by {
            assert(c.drop_first()[j] == c[j + 1]);
        }
        lemma_first_not_before(c.drop_first(), s, k - 1);
    }
}

/// Adds `new_ext` to the ordered extents, merging it with its neighbours
/// where they continue into each other.
fn merge_into(extents: Vec<Extent>, new_ext: Extent) -> (r: Vec<Extent>)
    requires
        all_fit(extents@),
        extent_fits(new_ext),
        merge_fits(extents@, new_ext),
    ensures
        r@ == merge_insert(extents@, new_ext),
{
    let mut extents = extents;
    let new_start = new_ext.logical_start;
    let new_end = new_ext.logical_start + new_ext.length;
    let mut pos: usize = 0;
    while pos < extents.len() && extents[pos].logical_start < new_start
        invariant
            pos <= extents@.len(),
            forall|j: int| 0 <= j < pos ==> #[trigger] extents@[j].logical_start < new_start,
        decreases extents@.len() - pos,
    {
        pos = pos + 1;
    }
    proof {
        lemma_first_not_before(extents@, new_start as int, pos as int);
    }
    let ghost c = extents@;
    let merges_with_prev = pos > 0 && {
        assert(extent_fits(extents@[pos - 1]));
        let prev = &extents[pos - 1];
        prev.logical_start + prev.length == new_start && prev.physical_start + prev.length
            == new_ext.physical_start
    };
    let merges_with_next = pos < extents.len() && {
        assert(extent_fits(extents@[pos as int]));
        let next = &extents[pos];
        new_end == next.logical_start && new_ext.physical_start + new_ext.length
            == next.physical_start
    };
    if merges_with_prev && merges_with_next {
        let next = extents.remove(pos);
        let prev = extents[pos - 1];
        extents[pos - 1] = Extent {
            logical_start: prev.logical_start,
            physical_start: prev.physical_start,
            length: prev.length + (new_ext.length + next.length),
        };
        assert(extents@ =~= merge_insert(c, new_ext));
    } else if merges_with_prev {
        let prev = extents[pos - 1];
        extents[pos - 1] = Extent {
            logical_start: prev.logical_start,
            physical_start: prev.physical_start,
            length: prev.length + new_ext.length,
        };
        assert(extents@ =~= merge_insert(c, new_ext));
    } else if merges_with_next {
        let next = extents[pos];
        extents[pos] = Extent {
            logical_start: new_start,
            physical_start: new_ext.physical_start,
            length: next.length + new_ext.length,
        };
        assert(extents@ =~= merge_insert(c, new_ext));
    } else {
        extents.insert(pos, new_ext);
        assert(extents@ =~= merge_insert(c, new_ext));
    }
    extents
}

#[verifier::spinoff_prover]
proof fn lemma_wf_concat(a: Seq<Extent>, b: Seq<Extent>, m: int)
    requires
        leaf_wf(a),
        leaf_wf(b),
        forall|j: int| 0 <= j < a.len() ==> ext_end(#[trigger] a[j]) <= m,
        forall|j: int| 0 <= j < b.len() ==> #[trigger] b[j].logical_start >= m,
    ensures
        leaf_wf(a + b),
{
    let c = a + b;
    assert forall|j: int| 0 <= j < c.len() implies #[trigger] extent_fits(c[j]) && c[j].length > 0 by {
        if j < a.len() {
            assert(c[j] == a[j]);
        } else {
            assert(c[j] == b[j - a.len()]);
        }
    }
    assert forall|j: int, k: int| 0 <= j < k < c.len() implies ext_end(#[trigger] c[j])
        <= #[trigger] c[k].logical_start by {
        if k < a.len() {
            assert(c[j] == a[j] && c[k] == a[k]);
        } else if j >= a.len() {
            assert(c[j] == b[j - a.len()] && c[k] == b[k - a.len()]);
        } else {
            assert(c[j] == a[j] && c[k] == b[k - a.len()]);
        }
    }
}

proof fn lemma_within_concat(a: Seq<Extent>, b: Seq<Extent>, lo: int, hi: int)
    requires
        within(a, lo, hi),
        within(b, lo, hi),
    ensures
        within(a + b, lo, hi),
{
    let c = a + b;
    assert forall|j: int| 0 <= j < c.len() implies lo <= #[trigger] c[j].logical_start && ext_end(
        c[j],
    ) <= hi by {
        if j < a.len() {
            assert(c[j] == a[j]);
        } else {
            assert(c[j] == b[j - a.len()]);
        }
    }
}

proof fn lemma_avoids_concat(a: Seq<Extent>, b: Seq<Extent>, s: int, t: int)
    requires
        avoids(a, s, t),
        avoids(b, s, t),
    ensures
        avoids(a + b, s, t),
{
    let c = a + b;
    assert forall|j: int| 0 <= j < c.len() implies !#[trigger] meets(c[j], s, t) by {
        if j < a.len() {
            assert(c[j] == a[j]);
        } else {
            assert(c[j] == b[j - a.len()]);
        }
    }
}

#[verifier::spinoff_prover]
proof fn lemma_pieces_wf(e: Extent, s: int, t: int)
    requires
        extent_fits(e),
        e.length > 0,
        0 <= s <= t <= u32::MAX,
    ensures
        leaf_wf(kept_pieces(e, s, t)),
        avoids(kept_pieces(e, s, t), s, t),
        within(kept_pieces(e, s, t), e.logical_start as int, ext_end(e)),
{
    let k = kept_pieces(e, s, t);
    if meets(e, s, t) {
        let left = Extent {
            logical_start: e.logical_start,
            physical_start: e.physical_start,
            length: (s - e.logical_start) as u32,
        };
        let right = Extent {
            logical_start: t as u32,
            physical_start: (e.physical_start + (t - e.logical_start)) as u32,
            length: (ext_end(e) - t) as u32,
        };
        let a = if e.logical_start < s { seq![left] } else { Seq::empty() };
        let b = if ext_end(e) > t { seq![right] } else { Seq::empty() };
        assert(k == a + b);
        assert(leaf_wf(a));
        assert(leaf_wf(b));
        lemma_wf_concat(a, b, s);
        lemma_avoids_concat(a, b, s, t);
        lemma_within_concat(a, b, e.logical_start as int, ext_end(e));
    }
}

#[verifier::spinoff_prover]
proof fn lemma_clip_within(exts: Seq<Extent>, s: int, t: int, lo: int, hi: int)
    requires
        leaf_wf(exts),
        0 <= s <= t <= u32::MAX,
        within(exts, lo, hi),
    ensures
        within(clip_kept(exts, s, t), lo, hi),
    decreases exts.len(),
{
    if exts.len() > 0 {
        let front = exts.drop_last();
        let e = exts.last();
        assert(extent_fits(exts[exts.len() - 1]) && exts[exts.len() - 1].length > 0);
        assert(leaf_wf(front));
        lemma_clip_within(front, s, t, lo, hi);
        lemma_pieces_wf(e, s, t);
        let k = kept_pieces(e, s, t);
        assert forall|j: int| 0 <= j < k.len() implies lo <= #[trigger] k[j].logical_start
            && ext_end(k[j]) <= hi by {
            assert(e == exts[exts.len() - 1]);
        }
        lemma_within_concat(clip_kept(front, s, t), k, lo, hi);
    }
}

#[verifier::spinoff_prover]
proof fn lemma_clip_wf(exts: Seq<Extent>, s: int, t: int)
    requires
        leaf_wf(exts),
        0 <= s <= t <= u32::MAX,
    ensures
        leaf_wf(clip_kept(exts, s, t)),
        avoids(clip_kept(exts, s, t), s, t),
    decreases exts.len(),
{
    if exts.len() > 0 {
        let front = exts.drop_last();
        let e = exts.last();
        assert(extent_fits(exts[exts.len() - 1]) && exts[exts.len() - 1].length > 0);
        assert(leaf_wf(front));
        lemma_clip_wf(front, s, t);
        lemma_pieces_wf(e, s, t);
        assert(within(front, 0, e.logical_start as int)) by {
            assert forall|j: int| 0 <= j < front.len() implies 0 <= #[trigger] front[j].logical_start
                && ext_end(front[j]) <= e.logical_start by {
                assert(front[j] == exts[j]);
                assert(exts[exts.len() - 1] == e);
            }
        }
        lemma_clip_within(front, s, t, 0, e.logical_start as int);
        let cf = clip_kept(front, s, t);
        let k = kept_pieces(e, s, t);
        assert forall|j: int| 0 <= j < k.len() implies #[trigger] k[j].logical_start
            >= e.logical_start by {
        }
        assert forall|j: int| 0 <= j < cf.len() implies ext_end(#[trigger] cf[j])
            <= e.logical_start by {
        }
        lemma_wf_concat(cf, k, e.logical_start as int);
        lemma_avoids_concat(cf, k, s, t);
    }
}

proof fn lemma_first_not_before_props(c: Seq<Extent>, s: int)
    ensures
        0 <= first_not_before(c, s) <= c.len(),
        forall|j: int| 0 <= j < first_not_before(c, s) ==> #[trigger] c[j].logical_start < s,
        first_not_before(c, s) < c.len() ==> c[first_not_before(c, s)].logical_start >= s,
    decreases c.len(),
{
    if c.len() > 0 && c[0].logical_start < s {
        lemma_first_not_before_props(c.drop_first(), s);
        assert forall|j: int| 0 <= j < first_not_before(c, s) implies #[trigger] c[j].logical_start
            < s by {
            if j > 0 {
                assert(c[j] == c.drop_first()[j - 1]);
            }
        }
    }
}

proof fn lemma_joined_maps(a: Extent, b: Extent, l: int, p: int)
    requires
        continues(a, b),
        a.length + b.length <= u32::MAX,
    ensures
        ext_maps(joined(a, b), l, p) == (ext_maps(a, l, p) || ext_maps(b, l, p)),
        ext_end(joined(a, b)) == ext_end(b),
        joined(a, b).logical_start == a.logical_start,
        joined(a, b).physical_start + joined(a, b).length == b.physical_start + b.length,
        joined(a, b).length > 0 <== a.length > 0,
{
}

proof fn lemma_wf_single(e: Extent)
    requires
        extent_fits(e),
        e.length > 0,
    ensures
        leaf_wf(seq![e]),
{
}

proof fn lemma_wf_take_skip(c: Seq<Extent>, i: int)
    requires
        leaf_wf(c),
        0 <= i <= c.len(),
    ensures
        leaf_wf(c.take(i)),
        leaf_wf(c.skip(i)),
{
    assert forall|j: int, k: int| 0 <= j < k < c.skip(i).len() implies ext_end(
        #[trigger] c.skip(i)[j],
    ) <= #[trigger] c.skip(i)[k].logical_start by {
        assert(c.skip(i)[j] == c[j + i] && c.skip(i)[k] == c[k + i]);
    }
    assert forall|j: int| 0 <= j < c.skip(i).len() implies #[trigger] extent_fits(c.skip(i)[j])
        && c.skip(i)[j].length > 0 by {
        assert(c.skip(i)[j] == c[j + i]);
    }
}

/// Replacing `c[lo..hi]` by `x`, where `x` fits between the extents around it.
#[verifier::spinoff_prover]
proof fn lemma_replace_middle(c: Seq<Extent>, lo: int, hi: int, x: Extent, l: int, p: int)
    requires
        leaf_wf(c),
        0 <= lo <= hi <= c.len(),
        extent_fits(x),
        x.length > 0,
        forall|j: int| 0 <= j < lo ==> ext_end(#[trigger] c[j]) <= x.logical_start,
        forall|j: int| hi <= j < c.len() ==> #[trigger] c[j].logical_start >= ext_end(x),
    ensures
        leaf_wf(c.take(lo) + seq![x] + c.skip(hi)),
        maps_to(c.take(lo) + seq![x] + c.skip(hi), l, p) == (maps_to(c.take(lo), l, p)
            || ext_maps(x, l, p) || maps_to(c.skip(hi), l, p)),
        maps_to(c, l, p) == (maps_to(c.take(lo), l, p) || maps_to(c.subrange(lo, hi), l, p)
            || maps_to(c.skip(hi), l, p)),
{
    let a = c.take(lo);
    let b = c.skip(hi);
    lemma_wf_take_skip(c, lo);
    lemma_wf_take_skip(c, hi);
    lemma_wf_single(x);
    assert forall|j: int| 0 <= j < a.len() implies ext_end(#[trigger] a[j]) <= x.logical_start by {
        assert(a[j] == c[j]);
    }
    lemma_wf_concat(a, seq![x], x.logical_start as int);
    let ax = a + seq![x];
    assert forall|j: int| 0 <= j < ax.len() implies ext_end(#[trigger] ax[j]) <= ext_end(x) by {
        if j < a.len() {
            assert(ax[j] == a[j]);
        } else {
            assert(ax[j] == x);
        }
    }
    assert forall|j: int| 0 <= j < b.len() implies #[trigger] b[j].logical_start >= ext_end(x) by {
        assert(b[j] == c[j + hi]);
    }
    lemma_wf_concat(ax, b, ext_end(x));
    lemma_maps_to_concat(a, seq![x], l, p);
    lemma_maps_to_concat(ax, b, l, p);
    lemma_maps_to_single(x, l, p);
    let mid = c.subrange(lo, hi);
    assert(c =~= a + mid + b);
    lemma_maps_to_concat(a + mid, b, l, p);
    lemma_maps_to_concat(a, mid, l, p);
}

proof fn lemma_merge_bounds(c: Seq<Extent>, n: Extent)
    requires
        leaf_wf(c),
        avoids(c, n.logical_start as int, ext_end(n)),
        n.length > 0,
    ensures
        ({
            let pos = first_not_before(c, n.logical_start as int);
            &&& 0 <= pos <= c.len()
            &&& forall|j: int| 0 <= j < pos ==> ext_end(#[trigger] c[j]) <= n.logical_start
            &&& forall|j: int| pos <= j < c.len() ==> #[trigger] c[j].logical_start >= ext_end(n)
        }),
{
    let s = n.logical_start as int;
    let t = ext_end(n);
    let pos = first_not_before(c, s);
    lemma_first_not_before_props(c, s);
    assert forall|j: int| 0 <= j < pos implies ext_end(#[trigger] c[j]) <= s by {
        assert(!meets(c[j], s, t));
    }
    assert forall|j: int| pos <= j < c.len() implies #[trigger] c[j].logical_start >= t by {
        assert(!meets(c[j], s, t));
        assert(c[j].length > 0);
    }
}

#[verifier::spinoff_prover]
proof fn lemma_merge_insert(c: Seq<Extent>, n: Extent, l: int, p: int)
    requires
        leaf_wf(c),
        avoids(c, n.logical_start as int, ext_end(n)),
        extent_fits(n),
        n.length > 0,
    ensures
        merge_fits(c, n),
        leaf_wf(merge_insert(c, n)),
        maps_to(merge_insert(c, n), l, p) == (maps_to(c, l, p) || ext_maps(n, l, p)),
{
    let pos = first_not_before(c, n.logical_start as int);
    lemma_merge_bounds(c, n);
    let with_prev = pos > 0 && continues(c[pos - 1], n);
    let with_next = pos < c.len() && continues(n, c[pos]);
    if pos > 0 {
        assert(extent_fits(c[pos - 1]) && c[pos - 1].length > 0);
    }
    if pos < c.len() {
        assert(extent_fits(c[pos]) && c[pos].length > 0);
    }
    if with_prev && with_next {
        let prev = c[pos - 1];
        let next = c[pos];
        let x = joined(joined(prev, n), next);
        lemma_joined_maps(prev, n, l, p);
        lemma_joined_maps(joined(prev, n), next, l, p);
        assert forall|j: int| 0 <= j < pos - 1 implies ext_end(#[trigger] c[j]) <= x.logical_start by {
            assert(ext_end(c[j]) <= c[pos - 1].logical_start);
        }
        assert forall|j: int| pos + 1 <= j < c.len() implies #[trigger] c[j].logical_start >= ext_end(x) by {
            assert(ext_end(c[pos]) <= c[j].logical_start);
        }
        lemma_replace_middle(c, pos - 1, pos + 1, x, l, p);
        assert(c.subrange(pos - 1, pos + 1) =~= seq![prev] + seq![next]);
        lemma_maps_to_concat(seq![prev], seq![next], l, p);
        lemma_maps_to_single(prev, l, p);
        lemma_maps_to_single(next, l, p);
    } else if with_prev {
        let prev = c[pos - 1];
        let x = joined(prev, n);
        lemma_joined_maps(prev, n, l, p);
        assert forall|j: int| 0 <= j < pos - 1 implies ext_end(#[trigger] c[j]) <= x.logical_start by {
            assert(ext_end(c[j]) <= c[pos - 1].logical_start);
        }
        lemma_replace_middle(c, pos - 1, pos, x, l, p);
        assert(c.subrange(pos - 1, pos) =~= seq![prev]);
        lemma_maps_to_single(prev, l, p);
    } else if with_next {
        let next = c[pos];
        let x = joined(n, next);
        lemma_joined_maps(n, next, l, p);
        assert forall|j: int| pos + 1 <= j < c.len() implies #[trigger] c[j].logical_start >= ext_end(x) by {
            assert(ext_end(c[pos]) <= c[j].logical_start);
        }
        lemma_replace_middle(c, pos, pos + 1, x, l, p);
        assert(c.subrange(pos, pos + 1) =~= seq![next]);
        lemma_maps_to_single(next, l, p);
    } else {
        lemma_replace_middle(c, pos, pos, n, l, p);
        assert(c.subrange(pos, pos) =~= Seq::<Extent>::empty());
        lemma_maps_to_empty(l, p);
    }
}

/// Inserting an extent into a well-formed leaf gives a well-formed leaf in
/// which the new extent's logical blocks map to its physical blocks and every
/// other logical block keeps its mapping.
pub proof fn law_leaf_insert(exts: Seq<Extent>, n: Extent, l: int, p: int)
    requires
        leaf_wf(exts),
        extent_fits(n),
        n.length > 0,
    ensures
        merge_fits(clip_kept(exts, n.logical_start as int, ext_end(n)), n),
        leaf_wf(leaf_after_insert(exts, n)),
        maps_to(leaf_after_insert(exts, n), l, p) == if n.logical_start <= l < ext_end(n) {
            p == n.physical_start + (l - n.logical_start)
        } else {
            maps_to(exts, l, p)
        },
{
    let s = n.logical_start as int;
    let t = ext_end(n);
    lemma_clip_wf(exts, s, t);
    lemma_clip_maps(exts, s, t, l, p);
    lemma_merge_insert(clip_kept(exts, s, t), n, l, p);
}

/// A node of an extent tree. A leaf (`depth == 0`) holds extents; an
/// internal node holds index entries pointing at its children.
pub struct ExtentTreeNode {
    pub magic: u16,
    pub depth: u16,
    pub entry_count: u16,
    pub max_entries: u16,
    pub entries: Vec<[u8; ENTRY_SIZE]>,
}

/// The contents of a tree node.
pub struct NodeData {
    pub magic: u16,
    pub depth: u16,
    pub entry_count: u16,
    pub max_entries: u16,
    pub entries: Seq<[u8; ENTRY_SIZE]>,
}

impl NodeData {
    /// The entries read as extents.
    pub open spec fn extents(self) -> Seq<Extent> {
        entries_extents(self.entries)
    }

    /// The entries read as index entries.
    pub open spec fn indices(self) -> Seq<IndexEntry> {
        entries_indices(self.entries)
    }
}

impl View for ExtentTreeNode {
    type V = NodeData;

    open spec fn view(&self) -> NodeData {
        NodeData {
            magic: self.magic,
            depth: self.depth,
            entry_count: self.entry_count,
            max_entries: self.max_entries,
            entries: self.entries@,
        }
    }
}

/// The entries' bytes, one after the other.
pub open spec fn entries_bytes(es: Seq<[u8; ENTRY_SIZE]>) -> Seq<u8>
    decreases es.len(),
{
    if es.len() == 0 {
        Seq::empty()
    } else {
        entries_bytes(es.drop_last()) + es.last()@
    }
}

/// The entries read as extents.
pub open spec fn entries_extents(es: Seq<[u8; ENTRY_SIZE]>) -> Seq<Extent> {
    es.map_values(|b: [u8; ENTRY_SIZE]| extent_of_bytes(b@))
}

/// The entries read as index entries.
pub open spec fn entries_indices(es: Seq<[u8; ENTRY_SIZE]>) -> Seq<IndexEntry> {
    es.map_values(|b: [u8; ENTRY_SIZE]| index_of_bytes(b@))
}

/// The bytes a node is stored as: its header, then its entries.
pub open spec fn node_bytes(n: &ExtentTreeNode) -> Seq<u8> {
    spec_u16_to_le_bytes(n.magic) + spec_u16_to_le_bytes(n.depth) + spec_u16_to_le_bytes(
        n.entry_count,
    ) + spec_u16_to_le_bytes(n.max_entries) + entries_bytes(n.entries@)
}

/// The `k`-th 12-byte entry stored from offset `off` of `b`.
pub open spec fn stored_entry(b: Seq<u8>, off: int, k: int) -> Seq<u8> {
    b.subrange(off + 12 * k, off + 12 * k + 12)
}

/// Where the node stored in a block keeps its fields.
pub open spec fn node_header_ok(b: Seq<u8>) -> bool {
    let base = BLOCK_HEADER_SIZE as int;
    &&& le_u16_at(b, base) == TREE_MAGIC
    &&& le_u16_at(b, base + 4) <= le_u16_at(b, base + 6)
    &&& le_u16_at(b, base + 6) <= BLOCK_MAX_ENTRIES
}

/// `n` is the node stored in the block with bytes `b`.
pub open spec fn is_stored_node(b: Seq<u8>, n: &ExtentTreeNode) -> bool {
    let base = BLOCK_HEADER_SIZE as int;
    &&& n.magic == le_u16_at(b, base)
    &&& n.depth == le_u16_at(b, base + 2)
    &&& n.entry_count == le_u16_at(b, base + 4)
    &&& n.max_entries == le_u16_at(b, base + 6)
    &&& n.entries@.len() == n.entry_count
    &&& forall|k: int|
        0 <= k < n.entries@.len() ==> (#[trigger] n.entries@[k])@ == stored_entry(
            b,
            base + 8,
            k,
        )
}

fn decode_extents(entries: &Vec<[u8; ENTRY_SIZE]>) -> (r: Vec<Extent>)
    ensures
        r@ == entries_extents(entries@),
{
    let mut r: Vec<Extent> = Vec::new();
    let mut i: usize = 0;
    while i < entries.len()
        invariant
            i <= entries@.len(),
            r@ == entries_extents(entries@.take(i as int)),
        decreases entries@.len() - i,
    {
        r.push(Extent::from_bytes(&entries[i]));
        i = i + 1;
        assert(r@ =~= entries_extents(entries@.take(i as int)));
    }
    assert(entries@.take(entries@.len() as int) =~= entries@);
    r
}

fn decode_indices(entries: &Vec<[u8; ENTRY_SIZE]>) -> (r: Vec<IndexEntry>)
    ensures
        r@ == entries_indices(entries@),
{
    let mut r: Vec<IndexEntry> = Vec::new();
    let mut i: usize = 0;
    while i < entries.len()
        invariant
            i <= entries@.len(),
            r@ == entries_indices(entries@.take(i as int)),
        decreases entries@.len() - i,
    {
        r.push(IndexEntry::from_bytes(&entries[i]));
        i = i + 1;
        assert(r@ =~= entries_indices(entries@.take(i as int)));
    }
    assert(entries@.take(entries@.len() as int) =~= entries@);
    r
}

fn encode_extents(exts: &Vec<Extent>) -> (r: Vec<[u8; ENTRY_SIZE]>)
    ensures
        r@.len() == exts@.len(),
        forall|k: int| 0 <= k < exts@.len() ==> (#[trigger] r@[k])@ == extent_bytes(exts@[k]),
        entries_extents(r@) == exts@,
{
    let mut r: Vec<[u8; ENTRY_SIZE]> = Vec::new();
    let mut i: usize = 0;
    while i < exts.len()
        invariant
            i <= exts@.len(),
            r@.len() == i,
            forall|k: int| 0 <= k < i ==> (#[trigger] r@[k])@ == extent_bytes(exts@[k]),
        decreases exts@.len() - i,
    {
        r.push(exts[i].to_bytes());
        i = i + 1;
    }
    assert forall|k: int| 0 <= k < exts@.len() implies #[trigger] entries_extents(r@)[k] == exts@[k] by {
        law_extent_round_trip(exts@[k]);
    }
    assert(entries_extents(r@) =~= exts@);
    r
}

fn encode_indices(idxs: &Vec<IndexEntry>) -> (r: Vec<[u8; ENTRY_SIZE]>)
    ensures
        r@.len() == idxs@.len(),
        forall|k: int| 0 <= k < idxs@.len() ==> (#[trigger] r@[k])@ == index_bytes(idxs@[k]),
        entries_indices(r@) == idxs@,
{
    let mut r: Vec<[u8; ENTRY_SIZE]> = Vec::new();
    let mut i: usize = 0;
    while i < idxs.len()
        invariant
            i <= idxs@.len(),
            r@.len() == i,
            forall|k: int| 0 <= k < i ==> (#[trigger] r@[k])@ == index_bytes(idxs@[k]),
        decreases idxs@.len() - i,
    {
        r.push(idxs[i].to_bytes());
        i = i + 1;
    }
    assert forall|k: int| 0 <= k < idxs@.len() implies #[trigger] entries_indices(r@)[k] == idxs@[k] by {
        law_index_round_trip(idxs@[k]);
    }
    assert(entries_indices(r@) =~= idxs@);
    r
}

proof fn lemma_entries_bytes_len(es: Seq<[u8; ENTRY_SIZE]>)
    ensures
        entries_bytes(es).len() == 12 * es.len(),
    decreases es.len(),
{
    if es.len() > 0 {
        lemma_entries_bytes_len(es.drop_last());
    }
}

impl ExtentTreeNode {
    /// The node's entries read as extents.
    pub open spec fn extents(&self) -> Seq<Extent> {
        entries_extents(self.entries@)
    }

    /// The node's entries read as index entries.
    pub open spec fn indices(&self) -> Seq<IndexEntry> {
        entries_indices(self.entries@)
    }

    /// The bytes the node is stored as: header, then its entries.
    pub fn serialise(&self) -> (r: Vec<u8>)
        ensures
            r@ == node_bytes(self),
            r@.len() == NODE_HEADER_SIZE + 12 * self.entries@.len(),
    {
        proof {
            lemma_auto_spec_u16_to_from_le_bytes();
        }
        let mut buf = u16_to_le_bytes(self.magic);
        append_bytes(&mut buf, u16_to_le_bytes(self.depth));
        append_bytes(&mut buf, u16_to_le_bytes(self.entry_count));
        append_bytes(&mut buf, u16_to_le_bytes(self.max_entries));
        let ghost head = buf@;
        let mut i: usize = 0;
        while i < self.entries.len()
            invariant
                i <= self.entries@.len(),
                head.len() == 8,
                buf@ == head + entries_bytes(self.entries@.take(i as int)),
            decreases self.entries@.len() - i,
        {
            let ghost before = buf@;
            let mut e: Vec<u8> = Vec::new();
            let mut k: usize = 0;
            while k < ENTRY_SIZE
                invariant
                    k <= ENTRY_SIZE,
                    i < self.entries@.len(),
                    e@ == self.entries@[i as int]@.take(k as int),
                decreases ENTRY_SIZE - k,
            {
                e.push(self.entries[i][k]);
                k = k + 1;
                assert(e@ =~= self.entries@[i as int]@.take(k as int));
            }
            append_bytes(&mut buf, e);
            assert(self.entries@[i as int]@.take(12) =~= self.entries@[i as int]@);
            assert(self.entries@.take(i + 1).drop_last() =~= self.entries@.take(i as int));
            i = i + 1;
            assert(buf@ =~= head + entries_bytes(self.entries@.take(i as int)));
        }
        assert(self.entries@.take(self.entries@.len() as int) =~= self.entries@);
        proof {
            lemma_entries_bytes_len(self.entries@);
            assert(buf@ =~= node_bytes(self));
        }
        buf
    }

    /// Whether the node is a leaf.
    pub fn is_leaf(&self) -> (r: bool)
        ensures
            r == (self.depth == 0),
    {
        self.depth == 0
    }

    /// Entry `i` read as an extent.
    pub fn get_extent(&self, i: usize) -> (r: Extent)
        requires
            i < self.entries@.len(),
        ensures
            r == self.extents()[i as int],
    {
        Extent::from_bytes(&self.entries[i])
    }

    /// Entry `i` read as an index entry.
    pub fn get_index(&self, i: usize) -> (r: IndexEntry)
        requires
            i < self.entries@.len(),
        ensures
            r == self.indices()[i as int],
    {
        IndexEntry::from_bytes(&self.entries[i])
    }
}

/// Position of the child of an internal node whose subtree should hold
/// logical block `logical`: the last entry whose key is at most `logical`,
/// or 0 when there is none.
pub open spec fn child_for(idxs: Seq<IndexEntry>, logical: int) -> int
    decreases idxs.len(),
{
    if idxs.len() == 0 {
        0
    } else if idxs.last().logical_start <= logical {
        idxs.len() - 1
    } else {
        child_for(idxs.drop_last(), logical)
    }
}

#[verifier::spinoff_prover]
proof fn lemma_child_for(idxs: Seq<IndexEntry>, logical: int)
    ensures
        0 <= child_for(idxs, logical) < idxs.len() || (idxs.len() == 0 && child_for(idxs, logical)
            == 0),
        forall|j: int|
            child_for(idxs, logical) < j < idxs.len() ==> #[trigger] idxs[j].logical_start
                > logical,
        child_for(idxs, logical) > 0 ==> idxs[child_for(idxs, logical)].logical_start <= logical,
        (exists|j: int| 0 <= j < idxs.len() && #[trigger] idxs[j].logical_start <= logical) ==> idxs[child_for(
            idxs,
            logical,
        )].logical_start <= logical,
    decreases idxs.len(),
{
    if idxs.len() > 0 && idxs.last().logical_start > logical {
        let front = idxs.drop_last();
        lemma_child_for(front, logical);
        assert forall|j: int| child_for(idxs, logical) < j < idxs.len() implies #[trigger] idxs[j].logical_start
            > logical by {
            if j < idxs.len() - 1 {
                assert(front[j] == idxs[j]);
            }
        }
        if exists|j: int| 0 <= j < idxs.len() && #[trigger] idxs[j].logical_start <= logical {
            let j = choose|j: int| 0 <= j < idxs.len() && #[trigger] idxs[j].logical_start <= logical;
            assert(front[j].logical_start <= logical);
        }
    }
}

/// Finds the child of `node` whose subtree should hold logical block
/// `logical_start`: the last index entry whose key is at most it, or the
/// first entry when none is.
pub fn find_child(node: &ExtentTreeNode, logical_start: u32) -> (r: usize)
    ensures
        r == child_for(node.indices(), logical_start as int),
{
    let mut i: usize = node.entries.len();
    while i > 0
        invariant
            i <= node.entries@.len(),
            child_for(node.indices(), logical_start as int) == child_for(
                node.indices().take(i as int),
                logical_start as int,
            ),
        decreases i,
    {
        let e = node.get_index(i - 1);
        if e.logical_start <= logical_start {
            assert(node.indices().take(i as int).last() == e);
            return i - 1;
        }
        assert(node.indices().take(i as int).drop_last() =~= node.indices().take(i - 1));
        i = i - 1;
    }
    0
}

/// Fewest entries a node whose capacity is `max_entries` keeps without
/// underflowing.
pub fn min_entries(max_entries: u16) -> (r: u16)
    ensures
        r == max_entries / 2,
{
    max_entries / 2
}

/// Cuts `[start, end)` out of a leaf: its extents become what is left,
/// the pieces cut out are appended to `freed`, and the leaf reports an
/// underflow when it keeps fewer than half of its capacity.
pub fn delete_leaf(node: &mut ExtentTreeNode, start: u32, end: u32, freed: &mut Vec<Extent>) -> (r:
    DeleteResult)
    requires
        all_fit(old(node).extents()),
        clip_ok(old(node).extents(), start as int, end as int),
    ensures
        final(node).extents() == clip_kept(old(node).extents(), start as int, end as int),
        final(node).entries@.len() == final(node).extents().len(),
        final(freed)@ == old(freed)@ + clip_cut(old(node).extents(), start as int, end as int),
        final(node).entry_count == final(node).entries@.len() as u16,
        final(node).magic == old(node).magic,
        final(node).depth == old(node).depth,
        final(node).max_entries == old(node).max_entries,
        r == if final(node).entry_count < old(node).max_entries / 2 {
            DeleteResult::Underflow
        } else {
            DeleteResult::Done
        },
{
    let existing = decode_extents(&node.entries);
    let remaining = clip_extents(&existing, start, end, freed);
    node.entries = encode_extents(&remaining);
    node.entry_count = remaining.len() as u16;
    if node.entry_count < min_entries(node.max_entries) {
        DeleteResult::Underflow
    } else {
        DeleteResult::Done
    }
}

/// Writes `ext_block` into the payload of `block` and stamps the block's
/// header; the bytes after the node are left as they were.
pub fn write_external_block(block: &mut Block, ext_block: &ExtentTreeNode)
    requires
        BLOCK_HEADER_SIZE + NODE_HEADER_SIZE + 12 * ext_block.entries@.len() <= old(block).buf@.len(),
    ensures
        final(block).id == old(block).id,
        final(block).header == old(block).header,
        final(block).buf@ == header_bytes(old(block).header) + node_bytes(ext_block) + old(
            block,
        ).buf@.subrange(
            BLOCK_HEADER_SIZE + NODE_HEADER_SIZE + 12 * ext_block.entries@.len(),
            old(block).buf@.len() as int,
        ),
{
    let serialised = ext_block.serialise();
    write_bytes(&mut block.buf, BLOCK_HEADER_SIZE, serialised.as_slice());
    let ghost mid = block.buf@;
    block.serialise();
    assert(block.buf@ =~= header_bytes(old(block).header) + node_bytes(ext_block) + old(
        block,
    ).buf@.subrange(
        BLOCK_HEADER_SIZE + NODE_HEADER_SIZE + 12 * ext_block.entries@.len(),
        old(block).buf@.len() as int,
    ));
}

impl ExtentTreeNode {
    /// Reads the tree node stored in the payload of `block`, returning the
    /// block with it so that the node can be written back in place. A wrong
    /// magic number, or more entries than the capacity or a block allow, is
    /// corruption.
    pub fn read_node_with_block(block: Block) -> (r: Result<(Block, Self), FileError>)
        requires
            BLOCK_SIZE <= block.buf@.len(),
        ensures
            match r {
                Ok((b, n)) => {
                    &&& node_header_ok(block.buf@)
                    &&& b.id == block.id
                    &&& b.header == block.header
                    &&& b.buf@ == block.buf@
                    &&& is_stored_node(block.buf@, &n)
                },
                Err(e) => !node_header_ok(block.buf@) && e == FileError::CorruptedBlock,
            },
    {
        let buf = block.buf.as_slice();
        let mut offset = BLOCK_HEADER_SIZE;
        let magic = u16_from_le_bytes(slice_subrange(buf, offset, offset + 2));
        offset += 2;
        if magic != TREE_MAGIC {
            return Err(FileError::CorruptedBlock);
        }
        let depth = u16_from_le_bytes(slice_subrange(buf, offset, offset + 2));
        offset += 2;
        let entry_count = u16_from_le_bytes(slice_subrange(buf, offset, offset + 2));
        offset += 2;
        let max_entries = u16_from_le_bytes(slice_subrange(buf, offset, offset + 2));
        offset += 2;
        if entry_count > max_entries || max_entries as usize > BLOCK_MAX_ENTRIES {
            return Err(FileError::CorruptedBlock);
        }
        let mut entries: Vec<[u8; ENTRY_SIZE]> = Vec::new();
        let mut k: usize = 0;
        while k < entry_count as usize
            invariant
                buf@ == block.buf@,
                BLOCK_SIZE <= buf@.len(),
                entry_count <= BLOCK_MAX_ENTRIES,
                k <= entry_count,
                offset == BLOCK_HEADER_SIZE + 8 + 12 * k,
                entries@.len() == k,
                forall|j: int|
                    0 <= j < k ==> (#[trigger] entries@[j])@ == stored_entry(
                        block.buf@,
                        BLOCK_HEADER_SIZE + 8,
                        j,
                    ),
            decreases entry_count - k,
        {
            let e = [
                buf[offset],
                buf[offset + 1],
                buf[offset + 2],
                buf[offset + 3],
                buf[offset + 4],
                buf[offset + 5],
                buf[offset + 6],
                buf[offset + 7],
                buf[offset + 8],
                buf[offset + 9],
                buf[offset + 10],
                buf[offset + 11],
            ];
            assert(e@ =~= stored_entry(block.buf@, BLOCK_HEADER_SIZE + 8, k as int));
            entries.push(e);
            offset += ENTRY_SIZE;
            k = k + 1;
        }
        let node = Self { magic, depth, entry_count, max_entries, entries };
        Ok((block, node))
    }

    /// Reads the tree node stored in the payload of `block`.
    pub fn read_node(block: Block) -> (r: Result<Self, FileError>)
        requires
            BLOCK_SIZE <= block.buf@.len(),
        ensures
            match r {
                Ok(n) => node_header_ok(block.buf@) && is_stored_node(block.buf@, &n),
                Err(e) => !node_header_ok(block.buf@) && e == FileError::CorruptedBlock,
            },
    {
        match Self::read_node_with_block(block) {
            Ok((_, node)) => Ok(node),
            Err(e) => Err(e),
        }
    }
}

impl ExtentTreeNode {
    /// A copy of the node.
    pub fn copy_node(&self) -> (r: Self)
        ensures
            same_node(r, *self),
    {
        let mut entries: Vec<[u8; ENTRY_SIZE]> = Vec::new();
        let mut i: usize = 0;
        while i < self.entries.len()
            invariant
                i <= self.entries@.len(),
                entries@ == self.entries@.take(i as int),
            decreases self.entries@.len() - i,
        {
            entries.push(self.entries[i]);
            i = i + 1;
            assert(entries@ =~= self.entries@.take(i as int));
        }
        assert(self.entries@.take(self.entries@.len() as int) =~= self.entries@);
        ExtentTreeNode {
            magic: self.magic,
            depth: self.depth,
            entry_count: self.entry_count,
            max_entries: self.max_entries,
            entries,
        }
    }
}

/// The two nodes have the same fields and entries.
pub open spec fn same_node(a: ExtentTreeNode, b: ExtentTreeNode) -> bool {
    a@ == b@
}

/// The tree nodes stored outside inodes, by block number, as read from the
/// disk for an operation on one file's extent tree.
pub struct NodeStore {
    pub ids: Vec<u32>,
    pub nodes: Vec<ExtentTreeNode>,
}

impl NodeStore {
    /// Every block number is stored once, beside its node.
    pub open spec fn wf(&self) -> bool {
        &&& self.ids@.len() == self.nodes@.len()
        &&& self.ids@.no_duplicates()
    }

    /// The store holds the node of block `id`.
    pub open spec fn has(&self, id: u32) -> bool {
        self.ids@.contains(id)
    }

    /// The node of block `id`.
    pub open spec fn node(&self, id: u32) -> ExtentTreeNode {
        self.nodes@[self.ids@.index_of(id)]
    }

    /// An empty store.
    pub fn new() -> (r: Self)
        ensures
            r.wf(),
            forall|id: u32| !r.has(id),
    {
        NodeStore { ids: Vec::new(), nodes: Vec::new() }
    }

    /// A copy of the node of block `id`, if the store holds it.
    pub fn get(&self, id: u32) -> (r: Option<ExtentTreeNode>)
        requires
            self.wf(),
        ensures
            match r {
                Some(n) => self.has(id) && same_node(n, self.node(id)),
                None => !self.has(id),
            },
    {
        let mut i: usize = 0;
        while i < self.ids.len()
            invariant
                self.wf(),
                i <= self.ids@.len(),
                forall|j: int| 0 <= j < i ==> self.ids@[j] != id,
            decreases self.ids@.len() - i,
        {
            if self.ids[i] == id {
                assert(self.ids@[i as int] == id);
                assert(self.ids@.index_of(id) == i) by {
                    let k = self.ids@.index_of(id);
                    assert(self.ids@[k] == id);
                }
                return Some(self.nodes[i].copy_node());
            }
            i = i + 1;
        }
        None
    }

    /// Stores `node` as the node of block `id`, replacing any node it held.
    pub fn put(&mut self, id: u32, node: ExtentTreeNode)
        requires
            old(self).wf(),
        ensures
            final(self).wf(),
            final(self).has(id),
            same_node(final(self).node(id), node),
            forall|other: u32| #![auto] other != id ==> (final(self).has(other) == old(self).has(other)),
            forall|other: u32| #![auto] other != id && old(self).has(other) ==> same_node(final(self).node(other), old(self).node(other)),
    {
        let mut i: usize = 0;
        while i < self.ids.len()
            invariant
                self.wf(),
                self == old(self),
                i <= self.ids@.len(),
                forall|j: int| 0 <= j < i ==> self.ids@[j] != id,
            decreases self.ids@.len() - i,
        {
            if self.ids[i] == id {
                let ghost old_ids = self.ids@;
                self.nodes.remove(i);
                self.nodes.insert(i, node);
                proof {
                    assert forall|other: u32| #![auto] old_ids.contains(other) implies self.ids@.index_of(other) == old_ids.index_of(other) by {
                    }
                    assert forall|other: u32| #![auto] other != id && old(self).has(other) implies same_node(self.node(other), old(self).node(other)) by {
                        let k = old_ids.index_of(other);
                        assert(old_ids[k] == other);
                        assert(k != i);
                        assert(self.nodes@[k] == old(self).nodes@[k]);
                    }
                    let k = self.ids@.index_of(id);
                    assert(self.ids@[i as int] == id);
                    assert(k == i);
                }
                return;
            }
            i = i + 1;
        }
        let ghost old_ids = self.ids@;
        self.ids.push(id);
        self.nodes.push(node);
        proof {
            assert(self.ids@.no_duplicates()) by {
                assert forall|a: int, b: int| 0 <= a < b < self.ids@.len() implies self.ids@[a] != self.ids@[b] by {
                    if b == old_ids.len() {
                        assert(old_ids[a] != id);
                    } else {
                        assert(old_ids[a] != old_ids[b]);
                    }
                }
            }
            assert(self.ids@[old_ids.len() as int] == id);
            let k = self.ids@.index_of(id);
            assert(k == old_ids.len());
            assert forall|other: u32| #![auto] other != id implies (self.has(other) == old(self).has(other)) by {
                if self.has(other) {
                    let k = self.ids@.index_of(other);
                    assert(self.ids@[k] == other);
                    assert(old_ids[k] == other);
                }
                if old(self).has(other) {
                    let k = old_ids.index_of(other);
                    assert(self.ids@[k] == other);
                }
            }
            assert forall|other: u32| #![auto] other != id && old(self).has(other) implies same_node(self.node(other), old(self).node(other)) by {
                let k = old_ids.index_of(other);
                assert(old_ids[k] == other);
                assert(self.ids@[k] == other);
                assert(self.ids@.index_of(other) == k);
            }
        }
    }
}

/// Every child reachable from `node` is in the store, with a smaller depth,
/// and every leaf reachable from it holds representable extents.
pub open spec fn tree_ok(store: &NodeStore, node: NodeData) -> bool
    decreases node.depth,
{
    if node.depth == 0 {
        all_fit(node.extents())
    } else {
        node.entries.len() > 0 && forall|i: int|
            0 <= i < node.entries.len() ==> {
                let c = (#[trigger] node.indices()[i]).child_block;
                &&& store.has(c)
                &&& store.node(c)@.depth < node.depth
                &&& store.node(c)@.entries.len() == store.node(c)@.entry_count
                &&& store.node(c)@.max_entries <= BLOCK_MAX_ENTRIES
                &&& tree_ok(store, store.node(c)@)
            }
    }
}

/// The extent meets the logical range `[start, end)`.
pub open spec fn overlaps(e: Extent, start: int, end: int) -> bool {
    e.logical_start < end && ext_end(e) > start
}

/// The extents that a range lookup from `node` collects: in a leaf, those
/// that meet `[start, end)`; in an internal node, those collected from the
/// child that should hold `start` and from the children after it, up to the
/// first one whose key is at or after `end`.
pub open spec fn collected(store: &NodeStore, node: NodeData, start: int, end: int) -> Seq<Extent>
    decreases node.depth, node.entries.len() + 1,
{
    if node.depth == 0 {
        node.extents().filter(|e: Extent| overlaps(e, start, end))
    } else {
        let first = child_for(node.indices(), start);
        if 0 <= first <= node.entries.len() {
            collected_from(store, node, first, first, start, end)
        } else {
            Seq::empty()
        }
    }
}

/// What the range lookup collects from children `i..` of `node`.
pub open spec fn collected_from(
    store: &NodeStore,
    node: NodeData,
    first: int,
    i: int,
    start: int,
    end: int,
) -> Seq<Extent>
    decreases node.depth, node.entries.len() - i,
{
    if i < 0 || i >= node.entries.len() || node.depth == 0 {
        Seq::empty()
    } else if i > first && node.indices()[i].logical_start >= end {
        Seq::empty()
    } else {
        let c = store.node(node.indices()[i].child_block)@;
        if c.depth < node.depth {
            collected(store, c, start, end) + collected_from(store, node, first, i + 1, start, end)
        } else {
            Seq::empty()
        }
    }
}

fn collect_range(
    store: &NodeStore,
    node: &ExtentTreeNode,
    start: u32,
    end: u32,
    out: &mut Vec<Extent>,
)
    requires
        store.wf(),
        tree_ok(store, node@),
    ensures
        final(out)@ == old(out)@ + collected(store, node@, start as int, end as int),
    decreases node.depth, 1int,
{
    if node.is_leaf() {
        let ghost exts = node.extents();
        let mut i: usize = 0;
        while i < node.entries.len()
            invariant
                i <= node.entries@.len(),
                exts == node.extents(),
                all_fit(exts),
                out@ == old(out)@ + exts.take(i as int).filter(|e: Extent| overlaps(e, start as int, end as int)),
            decreases node.entries@.len() - i,
        {
            let e = node.get_extent(i);
            assert(extent_fits(exts[i as int]));
            proof {
                reveal(Seq::filter);
                assert(exts.take(i + 1).drop_last() =~= exts.take(i as int));
                assert(exts.take(i + 1).last() == e);
            }
            if e.logical_start < end && e.logical_start + e.length > start {
                out.push(e);
            }
            i = i + 1;
        }
        assert(exts.take(exts.len() as int) =~= exts);
        return;
    }
    let first = find_child(node, start);
    proof {
        lemma_child_for(node.indices(), start as int);
    }
    let mut i = first;
    while i < node.entries.len()
        invariant
            store.wf(),
            tree_ok(store, node@),
            node.depth > 0,
            first == child_for(node.indices(), start as int),
            first <= i,
            old(out)@ + collected(store, node@, start as int, end as int) == out@ + collected_from(
                store,
                node@,
                first as int,
                i as int,
                start as int,
                end as int,
            ),
        ensures
            old(out)@ + collected(store, node@, start as int, end as int) == out@,
        decreases node.entries@.len() - i,
    {
        let idx = node.get_index(i);
        if i > first && idx.logical_start >= end {
            assert(out@ + collected_from(store, node@, first as int, i as int, start as int, end as int) =~= out@);
            break;
        }
        let child = store.get(idx.child_block).unwrap();
        proof {
            assert(node@.indices()[i as int] == idx);
            assert(tree_ok(store, store.node(idx.child_block)@));
        }
        let ghost before = out@;
        collect_range(store, &child, start, end, out);
        i = i + 1;
        assert(before + collected(store, child@, start as int, end as int) + collected_from(
            store,
            node@,
            first as int,
            i as int,
            start as int,
            end as int,
        ) =~= out@ + collected_from(store, node@, first as int, i as int, start as int, end as int));
    }
}

/// The extents of the tree under `node` that meet the logical range
/// `[start, end)`, in tree order.
pub fn range_lookup(store: &NodeStore, node: &ExtentTreeNode, start: u32, end: u32) -> (r: Vec<
    Extent,
>)
    requires
        store.wf(),
        tree_ok(store, node@),
    ensures
        r@ == collected(store, node@, start as int, end as int),
{
    let mut out: Vec<Extent> = Vec::new();
    collect_range(store, node, start, end, &mut out);
    assert(out@ =~= collected(store, node@, start as int, end as int));
    out
}

/// The extent holds logical block `l`.
pub open spec fn holds(e: Extent, l: int) -> bool {
    e.logical_start <= l < ext_end(e)
}

/// The first of `exts` that holds logical block `l`.
pub open spec fn first_holding(exts: Seq<Extent>, l: int) -> Option<Extent>
    decreases exts.len(),
{
    if exts.len() == 0 {
        None
    } else if holds(exts[0], l) {
        Some(exts[0])
    } else {
        first_holding(exts.drop_first(), l)
    }
}

/// The extent a point lookup from `node` finds for logical block `l`: in a
/// leaf, the first extent that holds it; in an internal node, the one found
/// from the child that should hold it.
pub open spec fn looked_up(store: &NodeStore, node: NodeData, l: int) -> Option<Extent>
    decreases node.depth,
{
    if node.depth == 0 {
        first_holding(node.extents(), l)
    } else {
        let c = store.node(node.indices()[child_for(node.indices(), l)].child_block)@;
        if c.depth < node.depth {
            looked_up(store, c, l)
        } else {
            None
        }
    }
}

/// Finds the extent that maps logical block `logical`, descending from
/// `node` into the child that should hold it.
pub fn lookup_extent(store: &NodeStore, node: &ExtentTreeNode, logical: u32) -> (r: Option<Extent>)
    requires
        store.wf(),
        tree_ok(store, node@),
    ensures
        r == looked_up(store, node@, logical as int),
    decreases node.depth,
{
    if node.is_leaf() {
        let ghost exts = node.extents();
        let mut i: usize = 0;
        while i < node.entries.len()
            invariant
                i <= node.entries@.len(),
                exts == node.extents(),
                all_fit(exts),
                node.depth == 0,
                first_holding(exts, logical as int) == first_holding(exts.skip(i as int), logical as int),
            decreases node.entries@.len() - i,
        {
            let e = node.get_extent(i);
            assert(extent_fits(exts[i as int]));
            assert(exts.skip(i as int)[0] == e);
            if e.logical_start <= logical && logical < e.logical_start + e.length {
                assert(holds(exts.skip(i as int)[0], logical as int));
                assert(exts.skip(i as int).len() > 0);
                assert(first_holding(exts.skip(i as int), logical as int) == Some(e));
                return Some(e);
            }
            assert(exts.skip(i as int).drop_first() =~= exts.skip(i + 1));
            i = i + 1;
        }
        None
    } else {
        let i = find_child(node, logical);
        proof {
            lemma_child_for(node.indices(), logical as int);
        }
        let idx = node.get_index(i);
        let child = store.get(idx.child_block).unwrap();
        proof {
            assert(node@.indices()[i as int] == idx);
        }
        lookup_extent(store, &child, logical)
    }
}

#[verifier::spinoff_prover]
proof fn lemma_clip_fits(exts: Seq<Extent>, s: int, t: int)
    requires
        all_fit(exts),
        0 <= s <= t <= u32::MAX,
    ensures
        all_fit(clip_kept(exts, s, t)),
    decreases exts.len(),
{
    if exts.len() > 0 {
        let front = exts.drop_last();
        let e = exts.last();
        assert(extent_fits(exts[exts.len() - 1]));
        assert(all_fit(front));
        lemma_clip_fits(front, s, t);
        let a = clip_kept(front, s, t);
        let k = kept_pieces(e, s, t);
        assert(all_fit(k));
        assert forall|j: int| 0 <= j < (a + k).len() implies #[trigger] extent_fits((a + k)[j]) by {
            if j < a.len() {
                assert((a + k)[j] == a[j]);
            } else {
                assert((a + k)[j] == k[j - a.len()]);
            }
        }
    }
}

#[verifier::spinoff_prover]
proof fn lemma_merge_fits(c: Seq<Extent>, n: Extent)
    requires
        all_fit(c),
        extent_fits(n),
    ensures
        merge_fits(c, n),
        merge_insert(c, n).len() >= 1,
{
    let pos = first_not_before(c, n.logical_start as int);
    lemma_first_not_before_props(c, n.logical_start as int);
    lemma_merge_shape(c, n);
    let with_prev = pos > 0 && continues(c[pos - 1], n);
    let with_next = pos < c.len() && continues(n, c[pos]);
    if with_prev {
        assert(extent_fits(c[pos - 1]));
        assert(c[pos - 1].length + n.length <= ext_end(n));
    }
    if with_next {
        assert(extent_fits(c[pos]));
        assert(n.length + c[pos].length <= ext_end(c[pos]));
    }
    if with_prev && with_next {
        assert(c[pos - 1].length + n.length + c[pos].length <= ext_end(c[pos]));
    }
}

/// Inserts `new_ext` into a leaf: its logical range is cut out of the
/// leaf's extents (the pieces cut out are appended to `freed`) and it is
/// merged in. When the leaf then holds more than `max_entries` extents, its
/// upper half moves to a new node in the first free block of the block
/// bitmap, stored in `store`, and the split is reported.
#[verifier::spinoff_prover]
pub fn insert_leaf(
    store: &mut NodeStore,
    node: &mut ExtentTreeNode,
    new_ext: Extent,
    max_entries: u16,
    bitmap: &mut Vec<u8>,
    freed: &mut Vec<Extent>,
) -> (r: Result<InsertResult, FileError>)
    requires
        old(store).wf(),
        all_fit(old(node).extents()),
        extent_fits(new_ext),
        bit_count(old(bitmap)@) <= u32::MAX,
        max_entries >= 1,
    ensures
        ({
            let exts = leaf_after_insert(old(node).extents(), new_ext);
            let mid = (exts.len() / 2) as int;
            &&& final(freed)@ == old(freed)@ + clip_cut(
                old(node).extents(),
                new_ext.logical_start as int,
                ext_end(new_ext),
            )
            &&& final(store).wf()
            &&& final(node).magic == old(node).magic
            &&& final(node).depth == old(node).depth
            &&& final(node).max_entries == old(node).max_entries
            &&& final(node).entries@.len() == final(node).extents().len()
            &&& final(node).entry_count == final(node).entries@.len() as u16
            &&& final(bitmap)@.len() == old(bitmap)@.len()
            &&& if exts.len() <= max_entries {
                &&& final(node).extents() == exts
                &&& r == Ok::<InsertResult, FileError>(InsertResult::Done { new_min: exts[0].logical_start })
                &&& *final(store) == *old(store)
                &&& final(bitmap)@ == old(bitmap)@
            } else {
                &&& final(node).extents() == exts.take(mid)
                &&& if free_entries(old(bitmap)@).len() == 0 {
                    &&& r == Err::<InsertResult, FileError>(FileError::NoMoreBlocks)
                    &&& *final(store) == *old(store)
                    &&& final(bitmap)@ == old(bitmap)@
                } else {
                    let b = free_entries(old(bitmap)@)[0];
                    &&& r == Ok::<InsertResult, FileError>(InsertResult::Split {
                        key: exts[mid].logical_start,
                        new_block: b as u32,
                        new_min: exts[0].logical_start,
                    })
                    &&& bits(final(bitmap)@) == bits(old(bitmap)@).update(b, true)
                    &&& free_entries(final(bitmap)@).len() + 1 == free_entries(old(bitmap)@).len()
                    &&& final(store).has(b as u32)
                    &&& final(store).node(b as u32)@.magic == TREE_MAGIC
                    &&& final(store).node(b as u32)@.depth == old(node).depth
                    &&& final(store).node(b as u32)@.max_entries == BLOCK_MAX_ENTRIES
                    &&& final(store).node(b as u32)@.extents() == exts.skip(mid)
                    &&& final(store).node(b as u32)@.entries.len() == exts.len() - mid
                    &&& final(store).node(b as u32)@.entry_count == (exts.len() - mid) as u16
                    &&& forall|other: u32| #![auto] other != b ==> final(store).has(other) == old(store).has(other)
                    &&& forall|other: u32| #![auto] other != b && old(store).has(other) ==> final(store).node(other)@ == old(store).node(other)@
                }
            }
        }),
        store_in_bitmap(old(store), old(bitmap)@) ==> kept_outside(old(store), final(store), old(node)@)
            && store_in_bitmap(final(store), final(bitmap)@),
        forall|lo: int, hi: int|
            #![trigger insert_ready(old(store), old(node)@, lo, hi, old(bitmap)@, new_ext)]
            old(node).depth == 0 && insert_ready(old(store), old(node)@, lo, hi, old(bitmap)@, new_ext)
                ==> match r {
                Ok(res) => insert_done(old(store), old(node)@, final(store), final(node)@, res, lo, hi, new_ext),
                Err(_) => true,
            },
{
    proof {
        reveal(insert_ready);
        reveal(insert_done);
        reveal(kept_outside);
    }
    let existing = decode_extents(&node.entries);
    let new_start = new_ext.logical_start;
    let new_end = new_ext.logical_start + new_ext.length;
    proof {
        lemma_clip_fits(existing@, new_start as int, new_end as int);
        lemma_merge_fits(clip_kept(existing@, new_start as int, new_end as int), new_ext);
    }
    let clipped = clip_extents(&existing, new_start, new_end, freed);
    let mut extents = merge_into(clipped, new_ext);
    if extents.len() <= max_entries as usize {
        node.entries = encode_extents(&extents);
        node.entry_count = extents.len() as u16;
        proof {
            assert forall|lo: int, hi: int|
                old(node).depth == 0 && insert_ready(old(store), old(node)@, lo, hi, old(bitmap)@, new_ext)
                implies insert_done(old(store), old(node)@, store, node@, InsertResult::Done { new_min: extents@[0].logical_start }, lo, hi, new_ext) by {
                lemma_leaf_after_insert(existing@, new_ext, lo, hi);
                lemma_leaf_from_first(extents@, lo, hi);
            }
        }
        Ok(InsertResult::Done { new_min: extents[0].logical_start })
    } else {
        let ghost all = extents@;
        let mid = extents.len() / 2;
        let right = extents.split_off(mid);
        let key = right[0].logical_start;
        node.entries = encode_extents(&extents);
        node.entry_count = extents.len() as u16;
        let right_block = allocate_block(bitmap.as_mut_slice())?;
        let right_node = ExtentTreeNode {
            magic: TREE_MAGIC,
            depth: node.depth,
            entry_count: right.len() as u16,
            max_entries: BLOCK_MAX_ENTRIES as u16,
            entries: encode_extents(&right),
        };
        let ghost store1 = *store;
        store.put(right_block, right_node);
        proof {
            lemma_free_entry_facts(old(bitmap)@, 0);
            let b = right_block;
            if store_in_bitmap(old(store), old(bitmap)@) {
                assert(!old(store).has(b)) by {
                    if old(store).has(b) {
                        assert(bits(old(bitmap)@)[b as int]);
                    }
                }
                assert forall|id: u32| #[trigger] old(store).has(id) implies store.has(id) && (!in_tree(old(store), old(node)@, id)
                    ==> store.node(id)@ == old(store).node(id)@) by {
                    assert(id != b);
                }
                assert forall|id: u32| #![trigger store.has(id)] store.has(id) implies id < bit_count(bitmap@) && bits(bitmap@)[id as int] by {
                    if id != b {
                        assert(old(store).has(id));
                    }
                }
            }
            let r = InsertResult::Split { key, new_block: right_block, new_min: extents@[0].logical_start };
            assert forall|lo: int, hi: int|
                old(node).depth == 0 && insert_ready(old(store), old(node)@, lo, hi, old(bitmap)@, new_ext)
                implies insert_done(old(store), old(node)@, store, node@, r, lo, hi, new_ext) by {
                lemma_leaf_after_insert(existing@, new_ext, lo, hi);
                lemma_leaf_split(all, lo, hi, mid as int);
                assert(!old(store).has(b)) by {
                    if old(store).has(b) {
                        assert(bits(old(bitmap)@)[b as int]);
                    }
                }
                let sib = store.node(b)@;
                assert(sib.extents() == all.skip(mid as int));
                assert(node@.extents() == all.take(mid as int));
                assert(result_extents(store, node@, r) == all);
            }
        }
        Ok(InsertResult::Split { key, new_block: right_block, new_min: extents[0].logical_start })
    }
}

/// The leaf that a descent from `node` towards logical block `l` reaches.
pub open spec fn reached_leaf(store: &NodeStore, node: NodeData, l: int) -> NodeData
    decreases node.depth,
{
    if node.depth == 0 {
        node
    } else {
        let c = store.node(node.indices()[child_for(node.indices(), l)].child_block)@;
        if c.depth < node.depth {
            reached_leaf(store, c, l)
        } else {
            node
        }
    }
}

/// Index of the first entry of `idxs` whose key is not below `key`.
pub open spec fn index_position(idxs: Seq<IndexEntry>, key: int) -> int
    decreases idxs.len(),
{
    if idxs.len() == 0 {
        0
    } else if idxs[0].logical_start < key {
        1 + index_position(idxs.drop_first(), key)
    } else {
        0
    }
}

proof fn lemma_index_position(idxs: Seq<IndexEntry>, key: int)
    ensures
        0 <= index_position(idxs, key) <= idxs.len(),
        forall|j: int| 0 <= j < index_position(idxs, key) ==> #[trigger] idxs[j].logical_start < key,
        index_position(idxs, key) < idxs.len() ==> idxs[index_position(idxs, key)].logical_start >= key,
    decreases idxs.len(),
{
    if idxs.len() > 0 && idxs[0].logical_start < key {
        lemma_index_position(idxs.drop_first(), key);
        assert forall|j: int| 0 <= j < index_position(idxs, key) implies #[trigger] idxs[j].logical_start
            < key by {
            if j > 0 {
                assert(idxs[j] == idxs.drop_first()[j - 1]);
            }
        }
    }
}

/// The index entries of an internal node after an insert below it went
/// into child `i`: that child's key becomes `new_min`, and when the child
/// split, the entry `(key, block)` of its new sibling joins at its place in
/// key order.
pub open spec fn keys_after_child(
    ks: Seq<IndexEntry>,
    i: int,
    new_min: u32,
    split: Option<(u32, u32)>,
) -> Seq<IndexEntry> {
    let upd = ks.update(
        i,
        IndexEntry { logical_start: new_min, child_block: ks[i].child_block, _reserved: ks[i]._reserved },
    );
    match split {
        None => upd,
        Some((key, b)) => upd.insert(
            index_position(upd, key as int),
            IndexEntry { logical_start: key, child_block: b, _reserved: 0 },
        ),
    }
}

/// An internal node `n0` became `n1`, reporting `r`, after the insert into
/// its child (the one that should hold `start`) gave `new_min` and `split`:
/// with no split, or when the new entry still fits within `cap` entries,
/// the node holds the updated keys; otherwise it keeps their first half and
/// the second half goes to the new block it reports, a node of its depth
/// with room for a block's entries.
pub open spec fn placed_with(
    s: &NodeStore,
    n0: NodeData,
    n1: NodeData,
    r: InsertResult,
    cap: int,
    start: int,
    new_min: u32,
    split: Option<(u32, u32)>,
) -> bool {
    let full = keys_after_child(n0.indices(), child_for(n0.indices(), start), new_min, split);
    let mid = (full.len() / 2) as int;
    if split is None || full.len() <= cap {
        &&& n1.indices() == full
        &&& r == InsertResult::Done { new_min: full[0].logical_start }
    } else {
        &&& n1.indices() == full.take(mid)
        &&& r matches InsertResult::Split { key, new_block, new_min: m } && key == full[mid].logical_start
            && m == full[0].logical_start && s.has(new_block) && s.node(new_block)@.indices() == full.skip(mid)
            && s.node(new_block)@.depth == n0.depth && s.node(new_block)@.max_entries == BLOCK_MAX_ENTRIES
    }
}

/// How an insert leaves an internal node: as `placed_with` says, for what
/// the insert into its child reported.
pub open spec fn placed_after_insert(s: &NodeStore, n0: NodeData, n1: NodeData, r: InsertResult, cap: int, start: int) -> bool {
    n0.depth == 0 || exists|new_min: u32, split: Option<(u32, u32)>|
        #[trigger] placed_with(s, n0, n1, r, cap, start, new_min, split)
}

fn find_index_position(indices: &Vec<IndexEntry>, key: u32) -> (r: usize)
    ensures
        r == index_position(indices@, key as int),
{
    let mut pos: usize = 0;
    while pos < indices.len() && indices[pos].logical_start < key
        invariant
            pos <= indices@.len(),
            forall|j: int| 0 <= j < pos ==> #[trigger] indices@[j].logical_start < key,
        decreases indices@.len() - pos,
    {
        pos = pos + 1;
    }
    proof {
        lemma_index_position_is(indices@, key as int, pos as int);
    }
    pos
}

proof fn lemma_index_position_is(idxs: Seq<IndexEntry>, key: int, k: int)
    requires
        0 <= k <= idxs.len(),
        forall|j: int| 0 <= j < k ==> #[trigger] idxs[j].logical_start < key,
        k < idxs.len() ==> idxs[k].logical_start >= key,
    ensures
        index_position(idxs, key) == k,
    decreases k,
{
    if k > 0 {
        assert(idxs[0].logical_start < key);
        assert forall|j: int| 0 <= j < k - 1 implies #[trigger] idxs.drop_first()[j].logical_start
            < key by {
            assert(idxs.drop_first()[j] == idxs[j + 1]);
        }
        lemma_index_position_is(idxs.drop_first(), key, k - 1);
    }
}

/// The block numbers of the store are used blocks of the bitmap.
pub open spec fn store_in_bitmap(store: &NodeStore, bitmap: Seq<u8>) -> bool {
    forall|id: u32|
        #![trigger store.has(id)]
        store.has(id) ==> id < bit_count(bitmap) && bits(bitmap)[id as int]
}

/// Stores `indices` as the entries of `node`.
fn set_indices(node: &mut ExtentTreeNode, indices: &Vec<IndexEntry>)
    ensures
        final(node).magic == old(node).magic,
        final(node).depth == old(node).depth,
        final(node).max_entries == old(node).max_entries,
        final(node).indices() == indices@,
        final(node).entries@.len() == indices@.len(),
        final(node).entry_count == indices@.len() as u16,
{
    node.entries = encode_indices(indices);
    node.entry_count = indices.len() as u16;
}

/// Inserts `new_ext` below `node`, an inode's root (`node_block` is `None`,
/// room for 15 entries) or the node of block `node_block` (room for a
/// block's entries). A leaf takes the extent itself; an internal node
/// passes it to the child that should hold its start, updates that child's
/// key and adds the entry of a new sibling the child split off, splitting
/// itself at the midpoint when it then has too many entries.
#[verifier::spinoff_prover]
#[verifier::rlimit(100)]
fn insert_into_node(
    store: &mut NodeStore,
    node: &mut ExtentTreeNode,
    node_block: Option<u32>,
    new_ext: Extent,
    bitmap: &mut Vec<u8>,
    freed: &mut Vec<Extent>,
) -> (r: Result<InsertResult, FileError>)
    requires
        old(store).wf(),
        tree_ok(old(store), old(node)@),
        extent_fits(new_ext),
        bit_count(old(bitmap)@) <= u32::MAX,
    ensures
        final(store).wf(),
        final(bitmap)@.len() == old(bitmap)@.len(),
        final(node).depth == old(node).depth,
        r matches Ok(InsertResult::Split { .. }) ==> final(node).entries@.len() >= 1,
        free_entries(final(bitmap)@).len() + old(node).depth + 1 >= free_entries(old(bitmap)@).len(),
        free_entries(old(bitmap)@).len() > old(node).depth ==> r is Ok,
        r matches Err(e) ==> e == FileError::NoMoreBlocks && free_entries(final(bitmap)@).len() == 0,
        old(node).depth == 0 ==> (r matches Ok(InsertResult::Split { key, new_block, .. }) ==> {
            let exts = leaf_after_insert(old(node).extents(), new_ext);
            let mid = (exts.len() / 2) as int;
            &&& final(node).extents() == exts.take(mid)
            &&& key == exts[mid].logical_start
            &&& final(store).has(new_block)
            &&& final(store).node(new_block)@.extents() == exts.skip(mid)
            &&& bits(final(bitmap)@)[new_block as int]
            &&& new_block < bit_count(final(bitmap)@)
        }),
        r matches Ok(res) ==> placed_after_insert(
            final(store),
            old(node)@,
            final(node)@,
            res,
            if node_block is Some { BLOCK_MAX_ENTRIES as int } else { ROOT_MAX_ENTRIES as int },
            new_ext.logical_start as int,
        ),
        final(freed)@ == old(freed)@ + clip_cut(
            reached_leaf(old(store), old(node)@, new_ext.logical_start as int).extents(),
            new_ext.logical_start as int,
            ext_end(new_ext),
        ),
        store_in_bitmap(old(store), old(bitmap)@) ==> kept_outside(old(store), final(store), old(node)@)
            && store_in_bitmap(final(store), final(bitmap)@),
        forall|lo: int, hi: int|
            #![trigger insert_ready(old(store), old(node)@, lo, hi, old(bitmap)@, new_ext)]
            insert_ready(old(store), old(node)@, lo, hi, old(bitmap)@, new_ext) ==> match r {
                Ok(res) => insert_done(old(store), old(node)@, final(store), final(node)@, res, lo, hi, new_ext),
                Err(_) => true,
            },
    decreases old(node).depth,
{
    let max_entries: u16 = if node_block.is_some() {
        BLOCK_MAX_ENTRIES as u16
    } else {
        ROOT_MAX_ENTRIES as u16
    };
    if node.is_leaf() {
        let ghost bm0 = bitmap@;
        let r = insert_leaf(store, node, new_ext, max_entries, bitmap, freed);
        proof {
            if free_entries(bm0).len() > 0 {
                lemma_free_entry_facts(bm0, 0);
            }
        }
        return r;
    }
    let i = find_child(node, new_ext.logical_start);
    proof {
        lemma_child_for(node.indices(), new_ext.logical_start as int);
    }
    let idx = node.get_index(i);
    proof {
        assert(node@.indices()[i as int] == idx);
        assert(store.has(idx.child_block));
    }
    let mut child = store.get(idx.child_block).unwrap();
    let mut indices = decode_indices(&node.entries);
    let ghost s0 = *store;
    let ghost b0 = bitmap@;
    let ghost n0 = node@;
    let ghost k = i as int;
    let child_result = match insert_into_node(store, &mut child, Some(idx.child_block), new_ext, bitmap, freed) {
        Ok(res) => res,
        Err(e) => {
            proof {
                if store_in_bitmap(&s0, b0) {
                    lemma_kept_widen(&s0, &*store, n0, k);
                }
            }
            return Err(e);
        },
    };
    let ghost s1 = *store;
    let ghost c2 = child@;
    let ghost rc = child_result;
    store.put(idx.child_block, child);
    let ghost s2 = *store;
    proof {
        assert(put_of(&s1, &s2, idx.child_block, c2));
        assert(store_in_bitmap(&s0, b0) ==> kept_outside(&s0, &s2, n0) && store_in_bitmap(&s2, bitmap@)) by {
        if store_in_bitmap(&s0, b0) {
            lemma_kept_after_put(&s0, n0, k, &s1, &s2, c2);
            assert forall|id: u32| #![trigger s2.has(id)] s2.has(id) implies id < bit_count(bitmap@) && bits(bitmap@)[id as int] by {
                if id != idx.child_block {
                    assert(s1.has(id));
                } else {
                    assert(s0.has(id));
                    assert(s1.has(id)) by {
                        reveal(kept_outside);
                    }
                }
            }
        }
        }
    }
    let e = indices[i];
    match child_result {
        InsertResult::Done { new_min } => {
            indices.set(i, IndexEntry { logical_start: new_min, child_block: e.child_block, _reserved: e._reserved });
            set_indices(node, &indices);
            proof {
                assert forall|lo: int, hi: int| insert_ready(&s0, n0, lo, hi, b0, new_ext) implies insert_done(
                    &s0, n0, &s2, node@, InsertResult::Done { new_min: indices@[0].logical_start }, lo, hi, new_ext,
                ) by {
                    lemma_descend_ready(&s0, n0, lo, hi, b0, new_ext);
                    assert(child_step(&s0, n0, lo, hi, b0, new_ext, &s1, c2, rc, &s2)) by {
                        reveal(child_step);
                        reveal(insert_ready);
                    }
                    lemma_updated_indices(n0.indices(), k, rc);
                    assert(indices@ == updated_indices(n0.indices(), k, rc));
                    assert(n0.entries.len() == n0.entry_count) by {
                        reveal(insert_ready);
                    }
                    lemma_internal_done(&s0, n0, lo, hi, b0, new_ext, &s1, c2, rc, &s2, node@);
                }
            }
            proof {
                assert(child_for(n0.indices(), new_ext.logical_start as int) == k);
                assert(indices@ == keys_after_child(n0.indices(), k, new_min, None));
                assert(placed_with(
                    store,
                    n0,
                    node@,
                    InsertResult::Done { new_min: indices@[0].logical_start },
                    if node_block is Some { BLOCK_MAX_ENTRIES as int } else { ROOT_MAX_ENTRIES as int },
                    new_ext.logical_start as int,
                    new_min,
                    None,
                ));
            }
            Ok(InsertResult::Done { new_min: indices[0].logical_start })
        },
        InsertResult::Split { key, new_block, new_min } => {
            indices.set(i, IndexEntry { logical_start: new_min, child_block: e.child_block, _reserved: e._reserved });
            let ghost upd = indices@;
            let pos = find_index_position(&indices, key);
            proof {
                lemma_index_position(indices@, key as int);
            }
            indices.insert(pos, IndexEntry { logical_start: key, child_block: new_block, _reserved: 0 });
            let ghost full = indices@;
            proof {
                assert forall|lo: int, hi: int| insert_ready(&s0, n0, lo, hi, b0, new_ext) implies full == updated_indices(n0.indices(), k, rc)
                    && child_step(&s0, n0, lo, hi, b0, new_ext, &s1, c2, rc, &s2) by {
                    lemma_descend_ready(&s0, n0, lo, hi, b0, new_ext);
                    assert(child_step(&s0, n0, lo, hi, b0, new_ext, &s1, c2, rc, &s2)) by {
                        reveal(child_step);
                        reveal(insert_ready);
                    }
                    lemma_split_position(&s0, n0, lo, hi, b0, new_ext, &s1, c2, rc, &s2);
                    assert(upd == n0.indices().update(k, IndexEntry { logical_start: result_min(rc) as u32, child_block: n0.indices()[k].child_block, _reserved: n0.indices()[k]._reserved }));
                }
            }
            if indices.len() <= max_entries as usize {
                set_indices(node, &indices);
                proof {
                    assert forall|lo: int, hi: int| insert_ready(&s0, n0, lo, hi, b0, new_ext) implies insert_done(
                        &s0, n0, &s2, node@, InsertResult::Done { new_min: indices@[0].logical_start }, lo, hi, new_ext,
                    ) by {
                        assert(n0.entries.len() == n0.entry_count) by {
                            reveal(insert_ready);
                        }
                        lemma_internal_done(&s0, n0, lo, hi, b0, new_ext, &s1, c2, rc, &s2, node@);
                    }
                }
                proof {
                    assert(child_for(n0.indices(), new_ext.logical_start as int) == k);
                    assert(full == keys_after_child(n0.indices(), k, new_min, Some((key, new_block))));
                    assert(placed_with(
                        store,
                        n0,
                        node@,
                        InsertResult::Done { new_min: indices@[0].logical_start },
                        if node_block is Some { BLOCK_MAX_ENTRIES as int } else { ROOT_MAX_ENTRIES as int },
                        new_ext.logical_start as int,
                        new_min,
                        Some((key, new_block)),
                    ));
                }
                Ok(InsertResult::Done { new_min: indices[0].logical_start })
            } else {
                let mid = indices.len() / 2;
                let right = indices.split_off(mid);
                let split_key = right[0].logical_start;
                let ghost b2 = bitmap@;
                let right_block = match allocate_block(bitmap.as_mut_slice()) {
                    Ok(b) => b,
                    Err(e) => {
                        return Err(e);
                    },
                };
                let right_node = ExtentTreeNode {
                    magic: TREE_MAGIC,
                    depth: node.depth,
                    entry_count: right.len() as u16,
                    max_entries: BLOCK_MAX_ENTRIES as u16,
                    entries: encode_indices(&right),
                };
                let ghost rn = right_node@;
                store.put(right_block, right_node);
                set_indices(node, &indices);
                proof {
                    let s3 = *store;
                    assert(put_of(&s2, &s3, right_block, rn));
                    lemma_free_entry_facts(b2, 0);
                    assert(store_in_bitmap(&s0, b0) ==> !s2.has(right_block) && kept_outside(&s0, &s3, n0)
                        && store_in_bitmap(&s3, bitmap@)) by {
                    if store_in_bitmap(&s0, b0) {
                        assert(!s2.has(right_block)) by {
                            if s2.has(right_block) {
                                assert(bits(b2)[right_block as int]);
                            }
                        }
                        lemma_kept_put_fresh(&s0, n0, &s2, &s3, right_block, rn);
                        assert forall|id: u32| #![trigger s3.has(id)] s3.has(id) implies id < bit_count(bitmap@) && bits(bitmap@)[id as int] by {
                            if id != right_block {
                                assert(s2.has(id));
                            }
                        }
                    }
                    }
                    assert forall|lo: int, hi: int| insert_ready(&s0, n0, lo, hi, b0, new_ext) implies insert_done(
                        &s0,
                        n0,
                        &s3,
                        node@,
                        InsertResult::Split { key: split_key, new_block: right_block, new_min: indices@[0].logical_start },
                        lo,
                        hi,
                        new_ext,
                    ) by {
                        let v = NodeData {
                            magic: n0.magic,
                            depth: n0.depth,
                            entry_count: 0,
                            max_entries: n0.max_entries,
                            entries: node.entries@ + rn.entries,
                        };
                        assert(full =~= indices@ + right@);
                        assert(v.indices() =~= node.indices() + rn.indices());
                        assert(v.indices() =~= full);
                        assert(n0.entries.len() == n0.entry_count) by {
                            reveal(insert_ready);
                        }
                        assert(full[mid as int] == right@[0]);
                        assert(store_in_bitmap(&s0, b0)) by {
                            reveal(insert_ready);
                        }
                        lemma_internal_split(&s0, n0, lo, hi, b0, new_ext, &s1, c2, rc, &s2, v, mid as int, &s3, node@, rn, right_block);
                    }
                }
                proof {
                    assert(child_for(n0.indices(), new_ext.logical_start as int) == k);
                    assert(full == keys_after_child(n0.indices(), k, new_min, Some((key, new_block))));
                    assert(indices@ =~= full.take(mid as int));
                    assert(right@ =~= full.skip(mid as int));
                    assert(store.node(right_block)@ == rn);
                    assert(rn.indices() == right@);
                    assert(placed_with(
                        store,
                        n0,
                        node@,
                        InsertResult::Split { key: split_key, new_block: right_block, new_min: indices@[0].logical_start },
                        if node_block is Some { BLOCK_MAX_ENTRIES as int } else { ROOT_MAX_ENTRIES as int },
                        new_ext.logical_start as int,
                        new_min,
                        Some((key, new_block)),
                    ));
                }
                Ok(InsertResult::Split { key: split_key, new_block: right_block, new_min: indices[0].logical_start })
            }
        },
    }
}

/// Inserts `new_ext` into the leaf that its start reaches, in the extent
/// tree whose root is `root` (kept in an inode, with room for 15 entries).
/// Nodes of the tree below the root are read from and written to `store`;
/// new nodes take the first free blocks of the block bitmap. Returns the
/// mappings of that leaf that the insert replaced. When the root splits,
/// what it would hold moves to a new node and it becomes an internal node
/// one level higher with two children: that node, and the sibling split
/// off below it. An insert takes at
/// most one new block per level of the tree and one more for the root; it
/// fails, with `NoMoreBlocks`, only when a split finds the bitmap full.
#[verifier::spinoff_prover]
pub fn insert_in_leaf(
    store: &mut NodeStore,
    root: &mut ExtentTreeNode,
    new_ext: Extent,
    bitmap: &mut Vec<u8>,
) -> (r: Result<Vec<Extent>, FileError>)
    requires
        old(store).wf(),
        tree_ok(old(store), old(root)@),
        extent_fits(new_ext),
        bit_count(old(bitmap)@) <= u32::MAX,
        old(root).depth < u16::MAX,
    ensures
        final(store).wf(),
        final(bitmap)@.len() == old(bitmap)@.len(),
        free_entries(final(bitmap)@).len() + old(root).depth + 2 >= free_entries(old(bitmap)@).len(),
        free_entries(old(bitmap)@).len() > old(root).depth + 1 ==> r is Ok,
        r matches Err(e) ==> e == FileError::NoMoreBlocks && free_entries(final(bitmap)@).len() == 0,
        final(root).depth == old(root).depth || final(root).depth == old(root).depth + 1,
        final(root).depth != old(root).depth ==> {
            let ks = final(root)@.indices();
            let left = final(store).node(ks[0].child_block)@;
            &&& r is Ok
            &&& final(root).entry_count == 2
            &&& final(root).entries@.len() == 2
            &&& final(root).max_entries == ROOT_MAX_ENTRIES
            &&& final(store).has(ks[0].child_block)
            &&& left.depth == old(root).depth
            &&& left.max_entries == BLOCK_MAX_ENTRIES
            &&& left.entries.len() >= 1
            &&& ks[0].logical_start == first_key_of(left)
            &&& ks[1]._reserved == 0
            &&& old(root).depth > 0 && store_in_bitmap(old(store), old(bitmap)@) ==> placed_after_insert(
                final(store),
                old(root)@,
                left,
                InsertResult::Split {
                    key: ks[1].logical_start,
                    new_block: ks[1].child_block,
                    new_min: ks[0].logical_start,
                },
                ROOT_MAX_ENTRIES as int,
                new_ext.logical_start as int,
            )
            &&& old(root).depth == 0 && store_in_bitmap(old(store), old(bitmap)@) ==> {
                let exts = leaf_after_insert(old(root).extents(), new_ext);
                let mid = (exts.len() / 2) as int;
                &&& left.extents() == exts.take(mid)
                &&& ks[1].logical_start == exts[mid].logical_start
                &&& final(store).has(ks[1].child_block)
                &&& final(store).node(ks[1].child_block)@.extents() == exts.skip(mid)
            }
        },
        r matches Ok(freed) ==> freed@ == clip_cut(
            reached_leaf(old(store), old(root)@, new_ext.logical_start as int).extents(),
            new_ext.logical_start as int,
            ext_end(new_ext),
        ),
        store_in_bitmap(old(store), old(bitmap)@) ==> kept_outside(old(store), final(store), old(root)@)
            && store_in_bitmap(final(store), final(bitmap)@),
        tree_sound(old(store), old(root)@) && store_in_bitmap(old(store), old(bitmap)@) && insert_fits(
            old(store),
            old(root)@,
            new_ext,
        ) && r is Ok ==> {
            &&& tree_sound(final(store), final(root)@)
            &&& maps_after_insert(
                tree_extents(old(store), old(root)@),
                tree_extents(final(store), final(root)@),
                new_ext,
            )
        },
{
    let ghost s0 = *store;
    let ghost b0 = bitmap@;
    let ghost root0 = root@;
    let mut freed: Vec<Extent> = Vec::new();
    let res = match insert_into_node(store, root, None, new_ext, bitmap, &mut freed) {
        Ok(res) => res,
        Err(e) => {
            return Err(e);
        },
    };
    let ghost ready = tree_sound(&s0, root0) && store_in_bitmap(&s0, b0) && insert_fits(&s0, root0, new_ext);
    proof {
        if ready {
            assert(insert_ready(&s0, root0, 0, u32::MAX as int, b0, new_ext)) by {
                reveal(insert_ready);
            }
        }
    }
    match res {
        InsertResult::Done { .. } => {
            proof {
                assert(root.depth == root0.depth);
                if ready {
                    reveal(insert_done);
                    lemma_wf_mono(store, root@, result_min(res), u32::MAX as int, 0, u32::MAX as int);
                }
            }
            Ok(freed)
        },
        InsertResult::Split { key, new_block, .. } => {
            let ghost s1 = *store;
            let ghost b1 = bitmap@;
            let ghost root1 = root@;
            let left_block = match allocate_block(bitmap.as_mut_slice()) {
                Ok(b) => b,
                Err(e) => {
                    return Err(e);
                },
            };
            let left_node = ExtentTreeNode {
                magic: TREE_MAGIC,
                depth: root.depth,
                entry_count: root.entry_count,
                max_entries: BLOCK_MAX_ENTRIES as u16,
                entries: root.copy_node().entries,
            };
            let left_key = if root.is_leaf() {
                left_node.get_extent(0).logical_start
            } else {
                left_node.get_index(0).logical_start
            };
            let ghost left = left_node@;
            store.put(left_block, left_node);
            let left_idx = IndexEntry { logical_start: left_key, child_block: left_block, _reserved: 0 };
            let right_idx = IndexEntry { logical_start: key, child_block: new_block, _reserved: 0 };
            root.depth = root.depth + 1;
            root.max_entries = ROOT_MAX_ENTRIES as u16;
            root.entry_count = 2;
            let mut entries: Vec<[u8; ENTRY_SIZE]> = Vec::new();
            entries.push(left_idx.to_bytes());
            entries.push(right_idx.to_bytes());
            root.entries = entries;
            proof {
                law_index_round_trip(left_idx);
                law_index_round_trip(right_idx);
                assert(root.indices() =~= seq![left_idx, right_idx]);
                lemma_free_entry_facts(b1, 0);
                assert(put_of(&s1, store, left_block, left));
                if store_in_bitmap(&s0, b0) {
                    assert(!s1.has(left_block)) by {
                        if s1.has(left_block) {
                            assert(bits(b1)[left_block as int]);
                        }
                    }
                    lemma_kept_put_fresh(&s0, root0, &s1, store, left_block, left);
                    assert forall|id: u32| #![trigger store.has(id)] store.has(id) implies id < bit_count(bitmap@) && bits(bitmap@)[id as int] by {
                        if id != left_block {
                            assert(s1.has(id));
                        }
                    }
                }
                if ready {
                    law_index_round_trip(left_idx);
                    law_index_round_trip(right_idx);
                    assert(root.indices() =~= seq![left_idx, right_idx]);
                    assert(left_key == first_key_of(root1));
                    lemma_root_split(&s0, root0, b0, new_ext, &s1, root1, res, b1, store, left, left_block, root@);
                }
                if root0.depth > 0 && store_in_bitmap(&s0, b0) {
                    let start = new_ext.logical_start as int;
                    assert(placed_after_insert(&s1, root0, root1, res, ROOT_MAX_ENTRIES as int, start));
                    let (a, sp) = choose|a: u32, sp: Option<(u32, u32)>|
                        #[trigger] placed_with(&s1, root0, root1, res, ROOT_MAX_ENTRIES as int, start, a, sp);
                    assert(placed_with(&s1, root0, root1, res, ROOT_MAX_ENTRIES as int, start, a, sp));
                    assert(s1.has(new_block));
                    assert(bits(b1)[new_block as int]);
                    assert(left_block != new_block);
                    assert(left.indices() == root1.indices());
                    assert(placed_with(
                        store,
                        root0,
                        left,
                        InsertResult::Split { key: key, new_block: new_block, new_min: left_key },
                        ROOT_MAX_ENTRIES as int,
                        start,
                        a,
                        sp,
                    ));
                }
            }
            Ok(freed)
        },
    }
}

/// The fewest entries a node below the root keeps before a delete
/// reports it underfull: half of a leaf's capacity, or half of a block's.
pub open spec fn keep_min(n: NodeData) -> int {
    if n.depth == 0 {
        (n.max_entries / 2) as int
    } else {
        (BLOCK_MAX_ENTRIES / 2) as int
    }
}

/// How an internal node stands after a delete went down from `n0` (nodes
/// before in `s0`) into its child `i` and came back as `n1` (nodes after in
/// `s1`, blocks freed so far `fb`). Either its entries are unchanged, and
/// the child is not underfull (or kept its number of entries, or has no
/// sibling); or the
/// left sibling, which had more than half a block, lent its last entry to
/// the front of the child, whose key becomes its new first key; or else
/// the right sibling, which had more than half a block, lent its first
/// entry to the end of the child, and the right sibling's key becomes its
/// new first key; or else, neither sibling able to lend, the child was
/// merged at the end of its left sibling, or the right sibling at the end
/// of the child, that entry is removed and its block is the last freed.
pub open spec fn rebalanced(
    s0: &NodeStore,
    n0: NodeData,
    s1: &NodeStore,
    n1: NodeData,
    fb: Seq<u32>,
    start: int,
) -> bool {
    n0.depth == 0 || {
        let ks = n0.indices();
        let ks1 = n1.indices();
        let i = child_for(ks, start);
        let c0 = s0.node(ks[i].child_block)@;
        let c1 = s1.node(ks[i].child_block)@;
        let min = (BLOCK_MAX_ENTRIES / 2) as int;
        let left_lends = i > 0 && s0.node(ks[i - 1].child_block)@.entry_count > min;
        let right_lends = i + 1 < ks.len() && s0.node(ks[i + 1].child_block)@.entry_count > min;
        ||| ks1 == ks && (ks.len() < 2 || c1.entry_count >= keep_min(c1) || c1.entries.len() == c0.entries.len())
        ||| left_lends && {
            let l0 = s0.node(ks[i - 1].child_block)@;
            &&& s1.node(ks[i - 1].child_block)@.entries == l0.entries.drop_last()
            &&& c1.entries.len() > 0
            &&& c1.entries[0] == l0.entries.last()
            &&& ks1 == ks.update(
                i,
                IndexEntry {
                    logical_start: first_key_of(c1) as u32,
                    child_block: ks[i].child_block,
                    _reserved: ks[i]._reserved,
                },
            )
        }
        ||| !left_lends && right_lends && {
            let r0 = s0.node(ks[i + 1].child_block)@;
            let r1 = s1.node(ks[i + 1].child_block)@;
            &&& r1.entries == r0.entries.drop_first()
            &&& c1.entries.len() > 0
            &&& c1.entries.last() == r0.entries[0]
            &&& ks1 == ks.update(
                i + 1,
                IndexEntry {
                    logical_start: first_key_of(r1) as u32,
                    child_block: ks[i + 1].child_block,
                    _reserved: ks[i + 1]._reserved,
                },
            )
        }
        ||| !left_lends && !right_lends && i > 0 && {
            let l0 = s0.node(ks[i - 1].child_block)@;
            &&& s1.node(ks[i - 1].child_block)@.entries.take(l0.entries.len() as int) == l0.entries
            &&& ks1 == ks.remove(i)
            &&& fb.len() > 0
            &&& fb.last() == ks[i].child_block
        }
        ||| !left_lends && !right_lends && i == 0 && ks.len() > 1 && {
            let r0 = s0.node(ks[1].child_block)@;
            &&& c1.entries.len() >= r0.entries.len()
            &&& c1.entries.skip(c1.entries.len() - r0.entries.len()) == r0.entries
            &&& ks1 == ks.remove(1)
            &&& fb.len() > 0
            &&& fb.last() == ks[1].child_block
        }
    }
}

/// A node holds at least as many entries as it counts.
pub open spec fn node_ok(n: NodeData) -> bool {
    n.entries.len() >= n.entry_count
}

/// Every node of the store holds at least as many entries as it counts.
pub open spec fn store_ok(store: &NodeStore) -> bool {
    forall|id: u32| #![trigger store.has(id)] store.has(id) ==> node_ok(store.node(id)@)
}

/// The first key of a node: the start of its first extent or entry.
fn first_key(node: &ExtentTreeNode) -> (r: u32)
    requires
        node.entries@.len() > 0,
    ensures
        r == if node.depth == 0 {
            node.extents()[0].logical_start
        } else {
            node.indices()[0].logical_start
        },
{
    if node.is_leaf() {
        node.get_extent(0).logical_start
    } else {
        node.get_index(0).logical_start
    }
}

/// Deletes `[start, end)` below `node`, an inode's root or the node of block
/// `node_block`. A leaf cuts the range out of its extents; an internal node
/// passes the delete to the child that should hold `start` and, when that
/// child reports an underflow, borrows an entry from its left sibling or
/// else its right one, when that sibling has more than half a block, or
/// else merges it with a sibling and frees the emptied block. A node with a
/// single child has no sibling to turn to and leaves the child as it is.
#[verifier::spinoff_prover]
#[verifier::rlimit(100)]
fn delete_from_node(
    store: &mut NodeStore,
    node: &mut ExtentTreeNode,
    node_block: Option<u32>,
    start: u32,
    end: u32,
    freed_blocks: &mut Vec<u32>,
    freed: &mut Vec<Extent>,
) -> (r: DeleteResult)
    requires
        old(store).wf(),
        tree_ok(old(store), old(node)@),
        start <= end,
        store_ok(old(store)),
    ensures
        final(store).wf(),
        store_ok(final(store)),
        forall|id: u32| #![trigger final(store).has(id)] old(store).has(id) ==> final(store).has(id),
        node_ok(old(node)@) ==> node_ok(final(node)@),
        final(node).depth == old(node).depth,
        final(freed)@ == old(freed)@ + clip_cut(
            reached_leaf(old(store), old(node)@, start as int).extents(),
            start as int,
            end as int,
        ),
        final(node).magic == old(node).magic,
        final(node).max_entries == old(node).max_entries,
        r is Underflow ==> final(node).entry_count < (if old(node).depth == 0 {
            (old(node).max_entries / 2) as int
        } else if node_block is Some {
            (BLOCK_MAX_ENTRIES / 2) as int
        } else {
            (ROOT_MAX_ENTRIES / 2) as int
        }),
        final(node).entry_count == final(node).entries@.len() as u16 || (final(node).entry_count
            == old(node).entry_count && final(node).entries@.len() == old(node).entries@.len()),
        r is Done ==> final(node).entry_count >= (if old(node).depth == 0 {
            (old(node).max_entries / 2) as int
        } else if node_block is Some {
            (BLOCK_MAX_ENTRIES / 2) as int
        } else {
            (ROOT_MAX_ENTRIES / 2) as int
        }) || final(node)@.entries.len() == old(node)@.entries.len(),
        old(freed_blocks)@.len() <= final(freed_blocks)@.len(),
        final(freed_blocks)@.subrange(0, old(freed_blocks)@.len() as int) == old(freed_blocks)@,
        forall|lo: int, hi: int|
            #![trigger delete_ready(old(store), old(node)@, lo, hi, start as int, end as int)]
            delete_ready(old(store), old(node)@, lo, hi, start as int, end as int) ==> rebalanced(
                old(store),
                old(node)@,
                final(store),
                final(node)@,
                final(freed_blocks)@,
                start as int,
            ),
        forall|lo: int, hi: int|
            #![trigger delete_ready(old(store), old(node)@, lo, hi, start as int, end as int)]
            delete_ready(old(store), old(node)@, lo, hi, start as int, end as int) ==> {
                &&& delete_done(old(store), old(node)@, final(store), final(node)@, lo, hi, start as int, end as int)
                &&& kept_outside(old(store), final(store), old(node)@)
                &&& freed_from(
                    old(store),
                    old(node)@,
                    final(store),
                    final(node)@,
                    final(freed_blocks)@,
                    old(freed_blocks)@.len() as int,
                )
            },
    decreases old(node).depth,
{
    let max_entries: u16 = if node_block.is_some() {
        BLOCK_MAX_ENTRIES as u16
    } else {
        ROOT_MAX_ENTRIES as u16
    };
    if node.is_leaf() {
        let ghost exts = node.extents();
        let r = delete_leaf(node, start, end, freed);
        proof {
            assert(freed_blocks@.subrange(0, freed_blocks@.len() as int) =~= freed_blocks@);
            assert forall|lo: int, hi: int| delete_ready(old(store), old(node)@, lo, hi, start as int, end as int) implies {
                &&& delete_done(old(store), old(node)@, store, node@, lo, hi, start as int, end as int)
                &&& kept_outside(old(store), store, old(node)@)
                &&& freed_from(old(store), old(node)@, store, node@, freed_blocks@, old(freed_blocks)@.len() as int)
            } by {
                reveal(delete_ready);
                reveal(delete_done);
                reveal(kept_outside);
                lemma_clip_wf(exts, start as int, end as int);
                lemma_clip_within(exts, start as int, end as int, lo, hi);
                lemma_clip_len(exts, start as int, end as int);
                assert forall|l: int, p: int| #[trigger] maps_to(tree_extents(store, node@), l, p) == (maps_to(
                    tree_extents(old(store), old(node)@),
                    l,
                    p,
                ) && !(start <= l < end)) by {
                    law_clip_splits_mappings(exts, start, end, l, p);
                }
            }
        }
        return r;
    }
    let i = find_child(node, start);
    proof {
        lemma_child_for(node.indices(), start as int);
    }
    let idx = node.get_index(i);
    proof {
        assert(node@.indices()[i as int] == idx);
        assert(store.has(idx.child_block));
    }
    let mut child = store.get(idx.child_block).unwrap();
    let ghost s0 = *store;
    let ghost n0 = node@;
    let ghost fb0 = freed_blocks@;
    let ghost k = i as int;
    let ghost cb = idx.child_block;
    let child_result = delete_from_node(
        store,
        &mut child,
        Some(idx.child_block),
        start,
        end,
        freed_blocks,
        freed,
    );
    let ghost s1 = *store;
    let ghost c2 = child@;
    let ghost fb1 = freed_blocks@;
    proof {
        assert forall|lo: int, hi: int| delete_ready(&s0, n0, lo, hi, start as int, end as int) implies
            del_step(&s0, n0, lo, hi, start as int, end as int, &s1, c2) && freed_from(
                &s0,
                s0.node(cb)@,
                &s1,
                c2,
                fb1,
                fb0.len() as int,
            ) by {
            lemma_del_descend(&s0, n0, lo, hi, start as int, end as int);
            reveal(del_step);
        }
    }
    match child_result {
        DeleteResult::Done => {
            store.put(idx.child_block, child);
            proof {
                let s2 = *store;
                assert(put_of(&s1, &s2, cb, c2));
                assert forall|lo: int, hi: int| delete_ready(&s0, n0, lo, hi, start as int, end as int) implies {
                    &&& delete_done(&s0, n0, &s2, node@, lo, hi, start as int, end as int)
                    &&& kept_outside(&s0, &s2, n0)
                    &&& freed_from(&s0, n0, &s2, node@, freed_blocks@, fb0.len() as int)
                } by {
                    lemma_del_child_done(&s0, n0, lo, hi, start as int, end as int, &s1, c2, &s2);
                }
                assert(c2.entry_count >= keep_min(c2) || c2.entries.len() == s0.node(cb)@.entries.len());
                assert forall|lo: int, hi: int| delete_ready(&s0, n0, lo, hi, start as int, end as int) implies
                    rebalanced(&s0, n0, &s2, node@, freed_blocks@, start as int) by {
                    assert(n0.indices()[k].child_block == cb);
                    assert(s2.node(cb)@ == c2);
                }
            }
            DeleteResult::Done
        },
        DeleteResult::Underflow if node.entries.len() < 2 => {
            // With no sibling to borrow from or merge with, the child stays
            // as it is and the node reports its own count.
            store.put(idx.child_block, child);
            proof {
                let s2 = *store;
                assert(put_of(&s1, &s2, cb, c2));
                assert forall|lo: int, hi: int| delete_ready(&s0, n0, lo, hi, start as int, end as int) implies {
                    &&& delete_done(&s0, n0, &s2, node@, lo, hi, start as int, end as int)
                    &&& kept_outside(&s0, &s2, n0)
                    &&& freed_from(&s0, n0, &s2, node@, freed_blocks@, fb0.len() as int)
                } by {
                    lemma_del_child_done(&s0, n0, lo, hi, start as int, end as int, &s1, c2, &s2);
                }
                assert(n0.indices().len() == n0.entries.len());
                assert forall|lo: int, hi: int| delete_ready(&s0, n0, lo, hi, start as int, end as int) implies
                    rebalanced(&s0, n0, &s2, node@, freed_blocks@, start as int) by {
                    assert(n0.indices().len() < 2);
                }
            }
            if node.entry_count < min_entries(max_entries) {
                DeleteResult::Underflow
            } else {
                DeleteResult::Done
            }
        },
        DeleteResult::Underflow => {
            let mut indices = decode_indices(&node.entries);
            assert(i < indices@.len());
            let sibling_min = min_entries(BLOCK_MAX_ENTRIES as u16);
            if i > 0 {
                let left_id = indices[i - 1].child_block;
                proof {
                    assert(node@.indices()[i - 1] == indices@[i - 1]);
                    assert(store.has(left_id));
                }
                let mut left = store.get(left_id).unwrap();
                if left.entry_count > sibling_min {
                    let ghost pc = left@;
                    let borrowed = left.entries.pop().unwrap();
                    left.entry_count = left.entry_count - 1;
                    child.entries.insert(0, borrowed);
                    child.entry_count = child.entry_count + 1;
                    let e = indices[i];
                    indices.set(
                        i,
                        IndexEntry {
                            logical_start: first_key(&child),
                            child_block: e.child_block,
                            _reserved: e._reserved,
                        },
                    );
                    node.entries = encode_indices(&indices);
                    let ghost pn = left@;
                    let ghost qn = child@;
                    store.put(left_id, left);
                    store.put(idx.child_block, child);
                    proof {
                        let s3 = *store;
                        assert forall|lo: int, hi: int| delete_ready(&s0, n0, lo, hi, start as int, end as int) implies {
                            &&& delete_done(&s0, n0, &s3, node@, lo, hi, start as int, end as int)
                            &&& kept_outside(&s0, &s3, n0)
                            &&& freed_from(&s0, n0, &s3, node@, freed_blocks@, fb0.len() as int)
                        } by {
                            reveal(delete_ready);
                            lemma_del_step_facts(&s0, n0, lo, hi, start as int, end as int, &s1, c2);
                            lemma_children_apart(&s0, n0, lo, hi, k - 1, k);
                            lemma_children_apart(&s0, n0, lo, hi, k, k - 1);
                            assert(pc == s0.node(left_id)@);
                            assert(tree_ok(&s0, n0));
                            let je = pc.entries + c2.entries;
                            assert(pn.entries =~= je.take(pc.entries.len() - 1));
                            assert(qn.entries =~= je.skip(pc.entries.len() - 1));
                            assert(node@.indices() =~= indices@);
                            assert(window_of(n0, node@, k - 1, 2, 2));
                            assert(pair_step(&s0, n0, lo, hi, start as int, end as int, &s1, c2, k - 1, false, pc, c2, 2, pc.entries.len() - 1, pn, qn, &s3, node@));
                            lemma_pair_done(&s0, n0, lo, hi, start as int, end as int, &s1, c2, k - 1, false, pc, c2, 2, pc.entries.len() - 1, pn, qn, &s3, node@);
                        }
                        assert forall|lo: int, hi: int| delete_ready(&s0, n0, lo, hi, start as int, end as int) implies
                            rebalanced(&s0, n0, &s3, node@, freed_blocks@, start as int) by {
                            reveal(delete_ready);
                            lemma_del_step_facts(&s0, n0, lo, hi, start as int, end as int, &s1, c2);
                            lemma_children_apart(&s0, n0, lo, hi, k - 1, k);
                            assert(pc == s0.node(left_id)@);
                            assert(pn.entries =~= pc.entries.drop_last());
                            assert(s3.node(left_id)@ == pn);
                            assert(s3.node(cb)@ == qn);
                            assert(qn.entries[0] == pc.entries.last());
                            assert(n0.indices()[k - 1].child_block == left_id);
                            assert(n0.indices()[k].child_block == cb);
                            assert(first_key_of(qn) as u32 == indices@[k].logical_start);
                            assert(node@.indices() =~= n0.indices().update(
                                k,
                                IndexEntry {
                                    logical_start: first_key_of(qn) as u32,
                                    child_block: n0.indices()[k].child_block,
                                    _reserved: n0.indices()[k]._reserved,
                                },
                            ));
                        }
                    }
                    return DeleteResult::Done;
                }
            }
            assert(i < indices@.len());
            if i < indices.len() - 1 {
                let right_id = indices[i + 1].child_block;
                proof {
                    assert(node@.indices()[i + 1] == indices@[i + 1]);
                    assert(store.has(right_id));
                }
                let mut right = store.get(right_id).unwrap();
                if right.entry_count > sibling_min {
                    let ghost qc = right@;
                    let borrowed = right.entries.remove(0);
                    right.entry_count = right.entry_count - 1;
                    child.entries.push(borrowed);
                    child.entry_count = child.entry_count + 1;
                    let e = indices[i + 1];
                    indices.set(
                        i + 1,
                        IndexEntry {
                            logical_start: first_key(&right),
                            child_block: e.child_block,
                            _reserved: e._reserved,
                        },
                    );
                    node.entries = encode_indices(&indices);
                    let ghost pn = child@;
                    let ghost qn = right@;
                    store.put(right_id, right);
                    store.put(idx.child_block, child);
                    proof {
                        let s3 = *store;
                        assert forall|lo: int, hi: int| delete_ready(&s0, n0, lo, hi, start as int, end as int) implies {
                            &&& delete_done(&s0, n0, &s3, node@, lo, hi, start as int, end as int)
                            &&& kept_outside(&s0, &s3, n0)
                            &&& freed_from(&s0, n0, &s3, node@, freed_blocks@, fb0.len() as int)
                        } by {
                            reveal(delete_ready);
                            lemma_del_step_facts(&s0, n0, lo, hi, start as int, end as int, &s1, c2);
                            lemma_children_apart(&s0, n0, lo, hi, k + 1, k);
                            lemma_children_apart(&s0, n0, lo, hi, k, k + 1);
                            assert(qc == s0.node(right_id)@);
                            assert(tree_ok(&s0, n0));
                            let je = c2.entries + qc.entries;
                            assert(pn.entries =~= je.take(c2.entries.len() + 1int));
                            assert(qn.entries =~= je.skip(c2.entries.len() + 1int));
                            assert(node@.indices() =~= indices@);
                            assert(window_of(n0, node@, k, 2, 2));
                            assert(pair_step(&s0, n0, lo, hi, start as int, end as int, &s1, c2, k, true, c2, qc, 2, c2.entries.len() + 1int, pn, qn, &s3, node@));
                            lemma_pair_done(&s0, n0, lo, hi, start as int, end as int, &s1, c2, k, true, c2, qc, 2, c2.entries.len() + 1int, pn, qn, &s3, node@);
                        }
                        assert forall|lo: int, hi: int| delete_ready(&s0, n0, lo, hi, start as int, end as int) implies
                            rebalanced(&s0, n0, &s3, node@, freed_blocks@, start as int) by {
                            reveal(delete_ready);
                            lemma_del_step_facts(&s0, n0, lo, hi, start as int, end as int, &s1, c2);
                            lemma_children_apart(&s0, n0, lo, hi, k + 1, k);
                            assert(qc == s0.node(right_id)@);
                            assert(qn.entries =~= qc.entries.drop_first());
                            assert(s3.node(right_id)@ == qn);
                            assert(s3.node(cb)@ == pn);
                            assert(pn.entries.last() == qc.entries[0]);
                            assert(n0.indices()[k + 1].child_block == right_id);
                            assert(n0.indices()[k].child_block == cb);
                            if k > 0 {
                                lemma_children_apart(&s0, n0, lo, hi, k - 1, k);
                                assert(s1.node(n0.indices()[k - 1].child_block)@ == s0.node(n0.indices()[k - 1].child_block)@);
                            }
                            assert(first_key_of(qn) as u32 == indices@[k + 1].logical_start);
                            assert(node@.indices() =~= n0.indices().update(
                                k + 1,
                                IndexEntry {
                                    logical_start: first_key_of(qn) as u32,
                                    child_block: n0.indices()[k + 1].child_block,
                                    _reserved: n0.indices()[k + 1]._reserved,
                                },
                            ));
                        }
                    }
                    return DeleteResult::Done;
                }
            }
            let ghost merged_left = i > 0;
            let ghost pc: NodeData;
            let ghost qc: NodeData;
            let ghost pn: NodeData;
            if i > 0 {
                let left_id = indices[i - 1].child_block;
                proof {
                    assert(node@.indices()[i - 1] == indices@[i - 1]);
                    assert(store.has(left_id));
                }
                let mut left = store.get(left_id).unwrap();
                proof {
                    pc = left@;
                    qc = c2;
                }
                let mut moved = child.copy_node().entries;
                left.entries.append(&mut moved);
                left.entry_count = left.entries.len() as u16;
                proof {
                    pn = left@;
                }
                store.put(left_id, left);
                freed_blocks.push(idx.child_block);
                indices.remove(i);
            } else {
                let right_id = indices[i + 1].child_block;
                proof {
                    assert(node@.indices()[i + 1] == indices@[i + 1]);
                    assert(store.has(right_id));
                }
                let right = store.get(right_id).unwrap();
                proof {
                    pc = c2;
                    qc = right@;
                }
                let mut moved = right.entries;
                child.entries.append(&mut moved);
                child.entry_count = child.entries.len() as u16;
                proof {
                    pn = child@;
                }
                store.put(idx.child_block, child);
                freed_blocks.push(right_id);
                indices.remove(i + 1);
            }
            node.entries = encode_indices(&indices);
            node.entry_count = indices.len() as u16;
            proof {
                let s3 = *store;
                let a = if merged_left { k - 1 } else { k };
                assert forall|lo: int, hi: int| delete_ready(&s0, n0, lo, hi, start as int, end as int) implies {
                    &&& delete_done(&s0, n0, &s3, node@, lo, hi, start as int, end as int)
                    &&& kept_outside(&s0, &s3, n0)
                    &&& freed_from(&s0, n0, &s3, node@, freed_blocks@, fb0.len() as int)
                } by {
                    reveal(delete_ready);
                    lemma_del_step_facts(&s0, n0, lo, hi, start as int, end as int, &s1, c2);
                    lemma_children_apart(&s0, n0, lo, hi, a, a + 1);
                    lemma_children_apart(&s0, n0, lo, hi, a + 1, a);
                    assert(tree_ok(&s0, n0));
                    assert(node@.indices() =~= indices@);
                    assert(window_of(n0, node@, a, 2, 1));
                    assert(pn.entries =~= pc.entries + qc.entries);
                    assert(pair_step(&s0, n0, lo, hi, start as int, end as int, &s1, c2, a, !merged_left, pc, qc, 1, 0, pn, pn, &s3, node@));
                    lemma_pair_done(&s0, n0, lo, hi, start as int, end as int, &s1, c2, a, !merged_left, pc, qc, 1, 0, pn, pn, &s3, node@);
                    assert(freed_blocks@ =~= fb1.push(n0.indices()[a + 1].child_block));
                }
                assert forall|lo: int, hi: int| delete_ready(&s0, n0, lo, hi, start as int, end as int) implies
                    rebalanced(&s0, n0, &s3, node@, freed_blocks@, start as int) by {
                    reveal(delete_ready);
                    lemma_del_step_facts(&s0, n0, lo, hi, start as int, end as int, &s1, c2);
                    let ks = n0.indices();
                    assert(ks[k].child_block == cb);
                    if k > 0 {
                        lemma_children_apart(&s0, n0, lo, hi, k - 1, k);
                        assert(s1.node(ks[k - 1].child_block)@ == s0.node(ks[k - 1].child_block)@);
                    }
                    if k + 1 < ks.len() {
                        lemma_children_apart(&s0, n0, lo, hi, k + 1, k);
                        assert(s1.node(ks[k + 1].child_block)@ == s0.node(ks[k + 1].child_block)@);
                    }
                    assert(node@.indices() =~= indices@);
                    assert(pn.entries =~= pc.entries + qc.entries);
                    assert(freed_blocks@.last() == ks[a + 1].child_block);
                    if merged_left {
                        assert(indices@ =~= ks.remove(k));
                        assert(s3.node(ks[k - 1].child_block)@ == pn);
                        assert(pn.entries.take(pc.entries.len() as int) =~= pc.entries);
                    } else {
                        assert(indices@ =~= ks.remove(1));
                        assert(s3.node(cb)@ == pn);
                        assert(pn.entries.skip(pn.entries.len() - qc.entries.len()) =~= qc.entries);
                    }
                }
            }
            if node.entry_count < min_entries(max_entries) {
                DeleteResult::Underflow
            } else {
                DeleteResult::Done
            }
        },
    }
}

/// Deletes the logical range `[start, end)` from the leaf that `start`
/// reaches, in the extent tree whose root is `root`, reading and writing the
/// nodes below it in `store`. Returns the mappings removed from that leaf; the blocks of nodes merged away are appended to
/// `freed_blocks`. When the root is left with a single child whose entries
/// fit in the root, the child's contents move up into the root and its
/// block is freed. It fails, with `ReadError`, only when that child is not
/// in the store, which a sound tree rules out.
#[verifier::spinoff_prover]
pub fn delete_in_leaf(
    store: &mut NodeStore,
    root: &mut ExtentTreeNode,
    start: u32,
    end: u32,
    freed_blocks: &mut Vec<u32>,
) -> (r: Result<Vec<Extent>, FileError>)
    requires
        old(store).wf(),
        tree_ok(old(store), old(root)@),
        start <= end,
        store_ok(old(store)),
        node_ok(old(root)@),
    ensures
        final(store).wf(),
        store_ok(final(store)),
        node_ok(final(root)@),
        r matches Err(e) ==> e == FileError::ReadError,
        old(freed_blocks)@.len() <= final(freed_blocks)@.len(),
        final(freed_blocks)@.subrange(0, old(freed_blocks)@.len() as int) == old(freed_blocks)@,
        r matches Ok(freed) ==> freed@ == clip_cut(
            reached_leaf(old(store), old(root)@, start as int).extents(),
            start as int,
            end as int,
        ),
        final(root).depth != old(root).depth ==> {
            let b = final(freed_blocks)@.last();
            &&& r is Ok
            &&& final(freed_blocks)@.len() > old(freed_blocks)@.len()
            &&& final(store).has(b)
            &&& final(root).depth == final(store).node(b)@.depth
            &&& final(root)@.entries == final(store).node(b)@.entries
            &&& final(root).entry_count == final(store).node(b)@.entry_count
            &&& final(root).entry_count <= ROOT_MAX_ENTRIES
            &&& final(root).max_entries == ROOT_MAX_ENTRIES
        },
        tree_sound(old(store), old(root)@) && delete_fits(old(store), old(root)@, start as int, end as int)
            && final(root).depth == old(root).depth && final(root).depth > 0 && final(root).entry_count == 1
            && final(store).node(final(root)@.indices()[0].child_block)@.entry_count <= ROOT_MAX_ENTRIES
            ==> old(root).entries@.len() == 1,
        tree_sound(old(store), old(root)@) && delete_fits(old(store), old(root)@, start as int, end as int)
            && final(root).depth == old(root).depth ==> rebalanced(
            old(store),
            old(root)@,
            final(store),
            final(root)@,
            final(freed_blocks)@,
            start as int,
        ),
        tree_sound(old(store), old(root)@) && delete_fits(old(store), old(root)@, start as int, end as int)
            ==> {
            &&& r is Ok
            &&& tree_sound(final(store), final(root)@)
            &&& maps_after_delete(
                tree_extents(old(store), old(root)@),
                tree_extents(final(store), final(root)@),
                start as int,
                end as int,
            )
            &&& kept_outside(old(store), final(store), old(root)@)
            &&& final(freed_blocks)@.subrange(0, old(freed_blocks)@.len() as int) == old(freed_blocks)@
            &&& freed_from(
                old(store),
                old(root)@,
                final(store),
                final(root)@,
                final(freed_blocks)@,
                old(freed_blocks)@.len() as int,
            )
        },
{
    let ghost s0 = *store;
    let ghost root0 = root@;
    let ghost fb0 = freed_blocks@;
    let ghost ready = tree_sound(&s0, root0) && delete_fits(&s0, root0, start as int, end as int);
    proof {
        if ready {
            assert(delete_ready(&s0, root0, 0, u32::MAX as int, start as int, end as int)) by {
                reveal(delete_ready);
            }
        }
    }
    let mut freed: Vec<Extent> = Vec::new();
    if let DeleteResult::Underflow = delete_from_node(store, root, None, start, end, freed_blocks, &mut freed) {
        if !root.is_leaf() && root.entry_count == 1 {
            let ghost root1 = root@;
            let ghost fb1 = freed_blocks@;
            let only_child_block = root.get_index(0).child_block;
            let child = match store.get(only_child_block) {
                Some(child) => child,
                None => {
                    proof {
                        if ready {
                            reveal(delete_done);
                            assert(tree_ok(store, root1));
                            assert(root1.indices()[0].child_block == only_child_block);
                            assert(store.has(only_child_block));
                        }
                    }
                    return Err(FileError::ReadError);
                },
            };
            if child.entry_count as usize <= ROOT_MAX_ENTRIES {
                root.depth = child.depth;
                root.entries = child.entries;
                root.entry_count = child.entry_count;
                root.max_entries = ROOT_MAX_ENTRIES as u16;
                freed_blocks.push(only_child_block);
                proof {
                    if ready {
                        assert(root1.entries.len() == 1) by {
                            reveal(delete_done);
                        }
                        lemma_root_collapse(&s0, root0, store, root1, root@, start as int, end as int, fb0, fb1);
                    }
                    assert(freed_blocks@ =~= fb1.push(only_child_block));
                    assert(freed_blocks@.subrange(0, fb0.len() as int) =~= fb1.subrange(0, fb0.len() as int));
                }
            }
        }
    }
    proof {
        if ready {
            reveal(delete_done);
        }
    }
    Ok(freed)
}

/// Whether every extent's logical and physical ranges are representable.
pub fn extents_fit(exts: &Vec<Extent>) -> (r: bool)
    ensures
        r == all_fit(exts@),
{
    let mut i: usize = 0;
    while i < exts.len()
        invariant
            i <= exts@.len(),
            forall|j: int| 0 <= j < i ==> #[trigger] extent_fits(exts@[j]),
        decreases exts@.len() - i,
    {
        let e = exts[i];
        if e.logical_start as u64 + e.length as u64 > u32::MAX as u64 || e.physical_start as u64
            + e.length as u64 > u32::MAX as u64 {
            assert(!extent_fits(exts@[i as int]));
            return false;
        }
        i = i + 1;
    }
    true
}

/// Whether the tree under `node` is complete in the store, with depths
/// decreasing downwards and representable extents in its leaves.
pub fn tree_is_ok(store: &NodeStore, node: &ExtentTreeNode) -> (r: bool)
    requires
        store.wf(),
    ensures
        r == tree_ok(store, node@),
    decreases node.depth,
{
    if node.is_leaf() {
        let exts = decode_extents(&node.entries);
        return extents_fit(&exts);
    }
    if node.entries.len() == 0 {
        return false;
    }
    let mut i: usize = 0;
    while i < node.entries.len()
        invariant
            store.wf(),
            node.depth > 0,
            node.entries@.len() > 0,
            i <= node.entries@.len(),
            forall|j: int|
                0 <= j < i ==> {
                    let c = (#[trigger] node@.indices()[j]).child_block;
                    &&& store.has(c)
                    &&& store.node(c)@.depth < node.depth
                    &&& store.node(c)@.entries.len() == store.node(c)@.entry_count
                    &&& store.node(c)@.max_entries <= BLOCK_MAX_ENTRIES
                    &&& tree_ok(store, store.node(c)@)
                },
        decreases node.entries@.len() - i,
    {
        let idx = node.get_index(i);
        assert(node@.indices()[i as int] == idx);
        let child = match store.get(idx.child_block) {
            Some(c) => c,
            None => return false,
        };
        if child.depth >= node.depth || child.entries.len() != child.entry_count as usize
            || child.max_entries as usize > BLOCK_MAX_ENTRIES {
            return false;
        }
        if !tree_is_ok(store, &child) {
            return false;
        }
        i = i + 1;
    }
    true
}

/// Whether every node of the store holds at least as many entries as it counts.
pub fn store_is_ok(store: &NodeStore) -> (r: bool)
    requires
        store.wf(),
    ensures
        r == store_ok(store),
{
    let mut i: usize = 0;
    while i < store.nodes.len()
        invariant
            store.wf(),
            i <= store.nodes@.len(),
            forall|j: int| 0 <= j < i ==> node_ok(#[trigger] store.nodes@[j]@),
        decreases store.nodes@.len() - i,
    {
        if store.nodes[i].entries.len() < store.nodes[i].entry_count as usize {
            proof {
                let id = store.ids@[i as int];
                assert(store.has(id));
                assert(store.ids@.index_of(id) == i) by {
                    let k = store.ids@.index_of(id);
                    assert(store.ids@[k] == id);
                }
            }
            return false;
        }
        i = i + 1;
    }
    proof {
        assert forall|id: u32| #![trigger store.has(id)] store.has(id) implies node_ok(store.node(id)@) by {
            let k = store.ids@.index_of(id);
            assert(0 <= k < store.nodes@.len());
        }
    }
    true
}

/// The extents of the tree under `node`, leaf after leaf, in index order.
pub open spec fn tree_extents(store: &NodeStore, node: NodeData) -> Seq<Extent>
    decreases node.depth, node.entries.len() + 1,
{
    if node.depth == 0 {
        node.extents()
    } else {
        children_extents(store, node, 0, node.entries.len() as int)
    }
}

/// The extents of the subtrees of children `a..b` of `node`, in order.
pub open spec fn children_extents(store: &NodeStore, node: NodeData, a: int, b: int) -> Seq<Extent>
    decreases node.depth, b - a,
{
    if a >= b || a < 0 || b > node.entries.len() || node.depth == 0 {
        Seq::empty()
    } else {
        let c = store.node(node.indices()[b - 1].child_block)@;
        children_extents(store, node, a, b - 1) + if c.depth < node.depth {
            tree_extents(store, c)
        } else {
            Seq::empty()
        }
    }
}

/// A search tree: leaves are well formed, keys increase and lie in
/// `[lo, hi)`, every child is one level down, and the subtree of each child
/// lies between its key and the next key (or `hi` for the last child).
pub open spec fn tree_wf(store: &NodeStore, node: NodeData, lo: int, hi: int) -> bool
    decreases node.depth,
{
    if node.depth == 0 {
        leaf_wf(node.extents()) && within(node.extents(), lo, hi)
    } else {
        let idx = node.indices();
        &&& idx.len() > 0
        &&& forall|i: int, j: int| 0 <= i < j < idx.len() ==> #[trigger] idx[i].logical_start < #[trigger] idx[j].logical_start
        &&& forall|i: int| 0 <= i < idx.len() ==> lo <= #[trigger] idx[i].logical_start < hi
        &&& forall|i: int|
            0 <= i < idx.len() ==> {
                let c = store.node((#[trigger] idx[i]).child_block);
                &&& store.has(idx[i].child_block)
                &&& c@.depth + 1 == node.depth
                &&& tree_wf(store, c@, idx[i].logical_start as int, child_hi(idx, i, hi))
            }
    }
}

/// Upper bound of the subtree of child `i`.
pub open spec fn child_hi(idx: Seq<IndexEntry>, i: int, hi: int) -> int {
    if i + 1 < idx.len() {
        idx[i + 1].logical_start as int
    } else {
        hi
    }
}

proof fn lemma_first_holding_concat(a: Seq<Extent>, b: Seq<Extent>, l: int)
    ensures
        first_holding(a + b, l) == if first_holding(a, l) is Some {
            first_holding(a, l)
        } else {
            first_holding(b, l)
        },
    decreases a.len(),
{
    if a.len() > 0 {
        assert((a + b)[0] == a[0]);
        assert((a + b).drop_first() =~= a.drop_first() + b);
        lemma_first_holding_concat(a.drop_first(), b, l);
    } else {
        assert(a + b =~= b);
    }
}

proof fn lemma_first_holding_none(a: Seq<Extent>, l: int)
    requires
        forall|j: int| 0 <= j < a.len() ==> !holds(#[trigger] a[j], l),
    ensures
        first_holding(a, l) is None,
    decreases a.len(),
{
    if a.len() > 0 {
        assert forall|j: int| 0 <= j < a.drop_first().len() implies !holds(#[trigger] a.drop_first()[j], l) by {
            assert(a.drop_first()[j] == a[j + 1]);
        }
        lemma_first_holding_none(a.drop_first(), l);
    }
}

proof fn lemma_within_mono(exts: Seq<Extent>, lo: int, hi: int, lo2: int, hi2: int)
    requires
        within(exts, lo, hi),
        lo2 <= lo,
        hi <= hi2,
    ensures
        within(exts, lo2, hi2),
{
}

#[verifier::spinoff_prover]
proof fn lemma_children_within(store: &NodeStore, node: NodeData, lo: int, hi: int, a: int, b: int)
    requires
        node.depth > 0,
        tree_wf(store, node, lo, hi),
        0 <= a <= b <= node.entries.len(),
    ensures
        b > a ==> within(
            children_extents(store, node, a, b),
            node.indices()[a].logical_start as int,
            child_hi(node.indices(), b - 1, hi),
        ),
    decreases node.depth, b - a,
{
    let idx = node.indices();
    if b > a {
        let c = store.node(idx[b - 1].child_block)@;
        assert(tree_wf(store, c, idx[b - 1].logical_start as int, child_hi(idx, b - 1, hi)));
        lemma_tree_within(store, c, idx[b - 1].logical_start as int, child_hi(idx, b - 1, hi));
        if b - 1 > a {
            lemma_children_within(store, node, lo, hi, a, b - 1);
            // Bounds of consecutive children meet at the key between them.
            assert(child_hi(idx, b - 2, hi) == idx[b - 1].logical_start as int);
            assert(idx[a].logical_start < idx[b - 1].logical_start);
            assert(child_hi(idx, b - 2, hi) <= child_hi(idx, b - 1, hi)) by {
                if b < idx.len() {
                    assert(idx[b - 1].logical_start < idx[b].logical_start);
                }
            }
            lemma_within_mono(tree_extents(store, c), idx[b - 1].logical_start as int, child_hi(idx, b - 1, hi), idx[a].logical_start as int, child_hi(idx, b - 1, hi));
            lemma_within_mono(children_extents(store, node, a, b - 1), idx[a].logical_start as int, child_hi(idx, b - 2, hi), idx[a].logical_start as int, child_hi(idx, b - 1, hi));
            lemma_within_concat(children_extents(store, node, a, b - 1), tree_extents(store, c), idx[a].logical_start as int, child_hi(idx, b - 1, hi));
        } else {
            assert(children_extents(store, node, a, b - 1) =~= Seq::<Extent>::empty());
            assert(children_extents(store, node, a, b) =~= tree_extents(store, c));
        }
    }
}

proof fn lemma_tree_within(store: &NodeStore, node: NodeData, lo: int, hi: int)
    requires
        tree_wf(store, node, lo, hi),
    ensures
        within(tree_extents(store, node), lo, hi),
    decreases node.depth, node.entries.len() + 1,
{
    if node.depth > 0 {
        let idx = node.indices();
        let n = node.entries.len() as int;
        lemma_children_within(store, node, lo, hi, 0, n);
        lemma_within_mono(tree_extents(store, node), idx[0].logical_start as int, hi, lo, hi);
    }
}

proof fn lemma_children_split(store: &NodeStore, node: NodeData, a: int, m: int, b: int)
    requires
        node.depth > 0,
        0 <= a <= m <= b <= node.entries.len(),
    ensures
        children_extents(store, node, a, b) == children_extents(store, node, a, m)
            + children_extents(store, node, m, b),
    decreases b - m,
{
    if m < b {
        lemma_children_split(store, node, a, m, b - 1);
        assert(children_extents(store, node, a, m) + children_extents(store, node, m, b) =~= (
        children_extents(store, node, a, m) + children_extents(store, node, m, b - 1))
            + (children_extents(store, node, m, b).subrange(
            children_extents(store, node, m, b - 1).len() as int,
            children_extents(store, node, m, b).len() as int,
        )));
    } else {
        assert(children_extents(store, node, m, b) =~= Seq::<Extent>::empty());
        assert(children_extents(store, node, a, m) + Seq::<Extent>::empty() =~= children_extents(store, node, a, m));
    }
}

proof fn lemma_within_none_hold(exts: Seq<Extent>, lo: int, hi: int, l: int)
    requires
        within(exts, lo, hi),
        hi <= l || l < lo,
    ensures
        first_holding(exts, l) is None,
{
    assert forall|j: int| 0 <= j < exts.len() implies !holds(#[trigger] exts[j], l) by {
    }
    lemma_first_holding_none(exts, l);
}

/// In a search tree, a point lookup finds the first extent of the tree,
/// leaf after leaf, that holds the logical block.
#[verifier::spinoff_prover]
pub proof fn law_lookup_finds_holder(store: &NodeStore, node: NodeData, lo: int, hi: int, l: int)
    requires
        tree_wf(store, node, lo, hi),
    ensures
        looked_up(store, node, l) == first_holding(tree_extents(store, node), l),
    decreases node.depth,
{
    if node.depth > 0 {
        let idx = node.indices();
        let n = idx.len() as int;
        let k = child_for(idx, l);
        lemma_child_for(idx, l);
        let c = store.node(idx[k].child_block)@;
        assert(tree_wf(store, c, idx[k].logical_start as int, child_hi(idx, k, hi)));
        law_lookup_finds_holder(store, c, idx[k].logical_start as int, child_hi(idx, k, hi), l);
        lemma_children_split(store, node, 0, k, n);
        lemma_children_split(store, node, k, k + 1, n);
        assert(children_extents(store, node, k, k) =~= Seq::<Extent>::empty());
        assert(children_extents(store, node, k, k + 1) =~= tree_extents(store, c));
        let before = children_extents(store, node, 0, k);
        let after = children_extents(store, node, k + 1, n);
        if k > 0 {
            lemma_children_within(store, node, lo, hi, 0, k);
            lemma_within_none_hold(before, idx[0].logical_start as int, child_hi(idx, k - 1, hi), l);
        } else {
            assert(before =~= Seq::<Extent>::empty());
        }
        if k + 1 < n {
            lemma_children_within(store, node, lo, hi, k + 1, n);
            lemma_within_none_hold(after, idx[k + 1].logical_start as int, child_hi(idx, n - 1, hi), l);
        } else {
            assert(after =~= Seq::<Extent>::empty());
        }
        lemma_first_holding_concat(before, tree_extents(store, c) + after, l);
        lemma_first_holding_concat(tree_extents(store, c), after, l);
        assert(tree_extents(store, node) =~= before + (tree_extents(store, c) + after));
    }
}

proof fn lemma_filter_none(exts: Seq<Extent>, lo: int, hi: int, start: int, end: int)
    requires
        within(exts, lo, hi),
        hi <= start || end <= lo,
    ensures
        exts.filter(|e: Extent| overlaps(e, start, end)) == Seq::<Extent>::empty(),
    decreases exts.len(),
{
    reveal(Seq::filter);
    if exts.len() > 0 {
        lemma_filter_none(exts.drop_last(), lo, hi, start, end);
        assert(!overlaps(exts[exts.len() - 1], start, end));
    }
}

#[verifier::spinoff_prover]
proof fn lemma_collected_from(
    store: &NodeStore,
    node: NodeData,
    lo: int,
    hi: int,
    first: int,
    i: int,
    start: int,
    end: int,
)
    requires
        node.depth > 0,
        tree_wf(store, node, lo, hi),
        0 <= first <= i <= node.entries.len(),
    ensures
        collected_from(store, node, first, i, start, end) == children_extents(
            store,
            node,
            i,
            node.entries.len() as int,
        ).filter(|e: Extent| overlaps(e, start, end)),
    decreases node.depth, node.entries.len() - i,
{
    let idx = node.indices();
    let n = node.entries.len() as int;
    let pred = |e: Extent| overlaps(e, start, end);
    if i == n {
        assert(children_extents(store, node, i, n) =~= Seq::<Extent>::empty());
        reveal(Seq::filter);
    } else if i > first && idx[i].logical_start >= end {
        lemma_children_within(store, node, lo, hi, i, n);
        lemma_filter_none(children_extents(store, node, i, n), idx[i].logical_start as int, child_hi(idx, n - 1, hi), start, end);
    } else {
        let c = store.node(idx[i].child_block)@;
        assert(tree_wf(store, c, idx[i].logical_start as int, child_hi(idx, i, hi)));
        law_range_collects(store, c, idx[i].logical_start as int, child_hi(idx, i, hi), start, end);
        lemma_collected_from(store, node, lo, hi, first, i + 1, start, end);
        lemma_children_split(store, node, i, i + 1, n);
        assert(children_extents(store, node, i, i) =~= Seq::<Extent>::empty());
        assert(children_extents(store, node, i, i + 1) =~= tree_extents(store, c));
        Seq::filter_distributes_over_add(tree_extents(store, c), children_extents(store, node, i + 1, n), pred);
    }
}

/// In a search tree, a range lookup collects exactly the extents of the
/// tree, leaf after leaf, that meet the range.
#[verifier::spinoff_prover]
pub proof fn law_range_collects(
    store: &NodeStore,
    node: NodeData,
    lo: int,
    hi: int,
    start: int,
    end: int,
)
    requires
        tree_wf(store, node, lo, hi),
    ensures
        collected(store, node, start, end) == tree_extents(store, node).filter(
            |e: Extent| overlaps(e, start, end),
        ),
    decreases node.depth, node.entries.len() + 1,
{
    if node.depth > 0 {
        let idx = node.indices();
        let n = node.entries.len() as int;
        let first = child_for(idx, start);
        lemma_child_for(idx, start);
        let pred = |e: Extent| overlaps(e, start, end);
        lemma_collected_from(store, node, lo, hi, first, first, start, end);
        lemma_children_split(store, node, 0, first, n);
        Seq::filter_distributes_over_add(children_extents(store, node, 0, first), children_extents(store, node, first, n), pred);
        if first > 0 {
            lemma_children_within(store, node, lo, hi, 0, first);
            lemma_filter_none(children_extents(store, node, 0, first), idx[0].logical_start as int, child_hi(idx, first - 1, hi), start, end);
        } else {
            assert(children_extents(store, node, 0, first) =~= Seq::<Extent>::empty());
            reveal(Seq::filter);
        }
        assert(Seq::<Extent>::empty() + children_extents(store, node, first, n).filter(pred) =~= children_extents(store, node, first, n).filter(pred));
    }
}

#[verifier::spinoff_prover]
proof fn lemma_children_wf(store: &NodeStore, node: NodeData, lo: int, hi: int, a: int, b: int)
    requires
        node.depth > 0,
        tree_wf(store, node, lo, hi),
        0 <= a <= b <= node.entries.len(),
    ensures
        leaf_wf(children_extents(store, node, a, b)),
    decreases node.depth, b - a,
{
    let idx = node.indices();
    if b > a {
        let c = store.node(idx[b - 1].child_block)@;
        assert(tree_wf(store, c, idx[b - 1].logical_start as int, child_hi(idx, b - 1, hi)));
        lemma_tree_sorted(store, c, idx[b - 1].logical_start as int, child_hi(idx, b - 1, hi));
        lemma_tree_within(store, c, idx[b - 1].logical_start as int, child_hi(idx, b - 1, hi));
        lemma_children_wf(store, node, lo, hi, a, b - 1);
        let front = children_extents(store, node, a, b - 1);
        let m = idx[b - 1].logical_start as int;
        if b - 1 > a {
            lemma_children_within(store, node, lo, hi, a, b - 1);
            assert(child_hi(idx, b - 2, hi) == m);
        } else {
            assert(front =~= Seq::<Extent>::empty());
        }
        assert forall|j: int| 0 <= j < front.len() implies ext_end(#[trigger] front[j]) <= m by {
        }
        let t = tree_extents(store, c);
        assert forall|j: int| 0 <= j < t.len() implies #[trigger] t[j].logical_start >= m by {
        }
        lemma_wf_concat(front, t, m);
    } else {
        assert(children_extents(store, node, a, b) =~= Seq::<Extent>::empty());
    }
}

/// In a search tree, the extents leaf after leaf form a well-formed list:
/// ordered and without overlaps.
pub proof fn lemma_tree_sorted(store: &NodeStore, node: NodeData, lo: int, hi: int)
    requires
        tree_wf(store, node, lo, hi),
    ensures
        leaf_wf(tree_extents(store, node)),
    decreases node.depth, node.entries.len() + 1,
{
    if node.depth > 0 {
        lemma_children_wf(store, node, lo, hi, 0, node.entries.len() as int);
    }
}

#[verifier::spinoff_prover]
proof fn lemma_first_holding_maps(exts: Seq<Extent>, l: int, p: int)
    requires
        sorted_extents(exts),
    ensures
        maps_to(exts, l, p) == (first_holding(exts, l) matches Some(e) && ext_maps(e, l, p)),
        first_holding(exts, l) matches Some(e) ==> exts.contains(e) && holds(e, l),
    decreases exts.len(),
{
    if exts.len() > 0 {
        let rest = exts.drop_first();
        assert(sorted_extents(rest)) by {
            assert forall|j: int, k: int| 0 <= j < k < rest.len() implies ext_end(#[trigger] rest[j])
                <= #[trigger] rest[k].logical_start by {
                assert(rest[j] == exts[j + 1] && rest[k] == exts[k + 1]);
            }
        }
        lemma_first_holding_maps(rest, l, p);
        assert(exts =~= seq![exts[0]] + rest);
        lemma_maps_to_concat(seq![exts[0]], rest, l, p);
        lemma_maps_to_single(exts[0], l, p);
        if holds(exts[0], l) {
            // No later extent holds `l`: they start at or after the end of the first.
            if maps_to(rest, l, p) {
                let j = choose|j: int|
                    0 <= j < rest.len() && #[trigger] rest[j].logical_start <= l < ext_end(rest[j]) && p
                        == rest[j].physical_start + (l - rest[j].logical_start);
                assert(rest[j] == exts[j + 1]);
                assert(ext_end(exts[0]) <= exts[j + 1].logical_start);
            }
            assert(exts.contains(exts[0]));
        } else {
            if let Some(e) = first_holding(rest, l) {
                let j = choose|j: int| 0 <= j < rest.len() && rest[j] == e;
                assert(exts[j + 1] == e);
            }
        }
    }
}

/// In a search tree, logical block `l` is stored in physical block `p`
/// exactly when a point lookup finds an extent that maps `l` to `p`.
pub proof fn law_lookup_agrees_with_mapping(
    store: &NodeStore,
    node: NodeData,
    lo: int,
    hi: int,
    l: int,
    p: int,
)
    requires
        tree_wf(store, node, lo, hi),
    ensures
        maps_to(tree_extents(store, node), l, p) == (looked_up(store, node, l) matches Some(e)
            && ext_maps(e, l, p)),
{
    law_lookup_finds_holder(store, node, lo, hi, l);
    lemma_tree_sorted(store, node, lo, hi);
    lemma_first_holding_maps(tree_extents(store, node), l, p);
}

/// Block `id` holds a node below `node`.
pub open spec fn in_tree(store: &NodeStore, node: NodeData, id: u32) -> bool
    decreases node.depth,
{
    node.depth > 0 && exists|i: int|
        0 <= i < node.entries.len() && {
            let cb = (#[trigger] node.indices()[i]).child_block;
            cb == id || (store.node(cb)@.depth < node.depth && in_tree(store, store.node(cb)@, id))
        }
}

/// Block `id` holds child `i` of `node` or a node below that child.
pub open spec fn in_child(store: &NodeStore, node: NodeData, i: int, id: u32) -> bool {
    let cb = node.indices()[i].child_block;
    node.depth > 0 && (cb == id || (store.node(cb)@.depth < node.depth && in_tree(
        store,
        store.node(cb)@,
        id,
    )))
}

#[verifier::spinoff_prover]
proof fn lemma_in_tree(store: &NodeStore, node: NodeData, id: u32)
    ensures
        in_tree(store, node, id) == exists|i: int|
            0 <= i < node.entries.len() && #[trigger] in_child(store, node, i, id),
{
    if in_tree(store, node, id) {
        let i = choose|i: int|
            0 <= i < node.entries.len() && {
                let cb = (#[trigger] node.indices()[i]).child_block;
                cb == id || (store.node(cb)@.depth < node.depth && in_tree(
                    store,
                    store.node(cb)@,
                    id,
                ))
            };
        assert(in_child(store, node, i, id));
    }
    if exists|i: int| 0 <= i < node.entries.len() && #[trigger] in_child(store, node, i, id) {
        let i = choose|i: int| 0 <= i < node.entries.len() && #[trigger] in_child(store, node, i, id);
        assert(node.indices()[i] == node.indices()[i]);
    }
}

/// No block holds two nodes of the tree under `node`: the blocks below
/// different children are different.
pub open spec fn tree_disjoint(store: &NodeStore, node: NodeData) -> bool
    decreases node.depth,
{
    node.depth > 0 ==> {
        &&& forall|i: int, j: int, id: u32|
            0 <= i < j < node.entries.len() && #[trigger] in_child(store, node, i, id)
                ==> !#[trigger] in_child(store, node, j, id)
        &&& forall|i: int|
            0 <= i < node.entries.len() ==> {
                let c = store.node((#[trigger] node.indices()[i]).child_block)@;
                c.depth < node.depth ==> tree_disjoint(store, c)
            }
    }
}

/// The two stores hold the same nodes in every block below `node` in `s1`.
pub open spec fn agrees_below(s1: &NodeStore, s2: &NodeStore, node: NodeData) -> bool {
    forall|id: u32|
        #[trigger] in_tree(s1, node, id) ==> s1.has(id) && s2.has(id) && s2.node(id)@ == s1.node(
            id,
        )@
}

proof fn lemma_children_extents_eq(
    s1: &NodeStore,
    n1: NodeData,
    a1: int,
    s2: &NodeStore,
    n2: NodeData,
    a2: int,
    len: int,
)
    requires
        n1.depth == n2.depth > 0,
        0 <= a1,
        a1 + len <= n1.entries.len(),
        0 <= a2,
        a2 + len <= n2.entries.len(),
        0 <= len,
        forall|j: int|
            0 <= j < len ==> {
                let c1 = s1.node((#[trigger] n1.indices()[a1 + j]).child_block)@;
                let c2 = s2.node(n2.indices()[a2 + j].child_block)@;
                &&& (c1.depth < n1.depth) == (c2.depth < n1.depth)
                &&& c1.depth < n1.depth ==> tree_extents(s1, c1) == tree_extents(s2, c2)
            },
    ensures
        children_extents(s1, n1, a1, a1 + len) == children_extents(s2, n2, a2, a2 + len),
    decreases len,
{
    if len > 0 {
        assert(n1.indices()[a1 + (len - 1)] == n1.indices()[a1 + len - 1]);
        lemma_children_extents_eq(s1, n1, a1, s2, n2, a2, len - 1);
    }
}

/// A store that agrees with another below `node` gives the same tree under
/// `node`: the same blocks, extents, and invariants.
#[verifier::spinoff_prover]
proof fn lemma_frame(s1: &NodeStore, s2: &NodeStore, node: NodeData)
    requires
        agrees_below(s1, s2, node),
    ensures
        forall|id: u32| #[trigger] in_tree(s2, node, id) == in_tree(s1, node, id),
        forall|i: int, id: u32|
            0 <= i < node.entries.len() ==> #[trigger] in_child(s2, node, i, id) == in_child(
                s1,
                node,
                i,
                id,
            ),
        tree_extents(s2, node) == tree_extents(s1, node),
        forall|lo: int, hi: int| #[trigger] tree_wf(s2, node, lo, hi) == tree_wf(s1, node, lo, hi),
        tree_ok(s2, node) == tree_ok(s1, node),
        tree_disjoint(s2, node) == tree_disjoint(s1, node),
    decreases node.depth,
{
    if node.depth > 0 {
        let idx = node.indices();
        let n = node.entries.len() as int;
        assert forall|i: int| 0 <= i < n implies {
            let cb = (#[trigger] idx[i]).child_block;
            let c = s1.node(cb)@;
            &&& s1.has(cb) && s2.has(cb) && s2.node(cb)@ == c
            &&& c.depth < node.depth ==> {
                &&& forall|id: u32| #[trigger] in_tree(s2, c, id) == in_tree(s1, c, id)
                &&& tree_extents(s2, c) == tree_extents(s1, c)
                &&& forall|lo: int, hi: int| #[trigger] tree_wf(s2, c, lo, hi) == tree_wf(s1, c, lo, hi)
                &&& tree_ok(s2, c) == tree_ok(s1, c)
                &&& tree_disjoint(s2, c) == tree_disjoint(s1, c)
            }
        } by {
            let cb = idx[i].child_block;
            let c = s1.node(cb)@;
            assert(in_child(s1, node, i, cb));
            lemma_in_tree(s1, node, cb);
            if c.depth < node.depth {
                assert forall|id: u32| #[trigger] in_tree(s1, c, id) implies s1.has(id) && s2.has(id)
                    && s2.node(id)@ == s1.node(id)@ by {
                    assert(in_child(s1, node, i, id));
                    lemma_in_tree(s1, node, id);
                }
                lemma_frame(s1, s2, c);
            }
        }
        assert forall|i: int, id: u32| 0 <= i < n implies #[trigger] in_child(s2, node, i, id)
            == in_child(s1, node, i, id) by {
            assert(idx[i] == node.indices()[i]);
        }
        assert forall|id: u32| #[trigger] in_tree(s2, node, id) == in_tree(s1, node, id) by {
            lemma_in_tree(s1, node, id);
            lemma_in_tree(s2, node, id);
            if in_tree(s2, node, id) {
                let i = choose|i: int| 0 <= i < n && #[trigger] in_child(s2, node, i, id);
                assert(in_child(s1, node, i, id));
            }
            if in_tree(s1, node, id) {
                let i = choose|i: int| 0 <= i < n && #[trigger] in_child(s1, node, i, id);
                assert(in_child(s2, node, i, id));
            }
        }
        assert forall|j: int| 0 <= j < n implies {
            let c1 = s2.node((#[trigger] node.indices()[0 + j]).child_block)@;
            let c2 = s1.node(node.indices()[0 + j].child_block)@;
            &&& (c1.depth < node.depth) == (c2.depth < node.depth)
            &&& c1.depth < node.depth ==> tree_extents(s2, c1) == tree_extents(s1, c2)
        } by {
            assert(idx[j] == node.indices()[0 + j]);
        }
        lemma_children_extents_eq(s2, node, 0, s1, node, 0, n);
        assert forall|lo: int, hi: int| #[trigger] tree_wf(s2, node, lo, hi) == tree_wf(s1, node, lo, hi) by {
            if tree_wf(s1, node, lo, hi) {
                assert forall|i: int| 0 <= i < idx.len() implies {
                    let c = s2.node((#[trigger] idx[i]).child_block);
                    &&& s2.has(idx[i].child_block)
                    &&& c@.depth + 1 == node.depth
                    &&& tree_wf(s2, c@, idx[i].logical_start as int, child_hi(idx, i, hi))
                } by {}
            }
            if tree_wf(s2, node, lo, hi) {
                assert forall|i: int| 0 <= i < idx.len() implies {
                    let c = s1.node((#[trigger] idx[i]).child_block);
                    &&& s1.has(idx[i].child_block)
                    &&& c@.depth + 1 == node.depth
                    &&& tree_wf(s1, c@, idx[i].logical_start as int, child_hi(idx, i, hi))
                } by {
                    assert(tree_wf(s2, s2.node(idx[i].child_block)@, idx[i].logical_start as int, child_hi(idx, i, hi)));
                }
            }
        }
        if tree_ok(s1, node) {
            assert forall|i: int| 0 <= i < node.entries.len() implies {
                let c = (#[trigger] node.indices()[i]).child_block;
                &&& s2.has(c)
                &&& s2.node(c)@.depth < node.depth
                &&& s2.node(c)@.entries.len() == s2.node(c)@.entry_count
                &&& s2.node(c)@.max_entries <= BLOCK_MAX_ENTRIES
                &&& tree_ok(s2, s2.node(c)@)
            } by {
                assert(idx[i] == node.indices()[i]);
            }
        }
        if tree_ok(s2, node) {
            assert forall|i: int| 0 <= i < node.entries.len() implies {
                let c = (#[trigger] node.indices()[i]).child_block;
                &&& s1.has(c)
                &&& s1.node(c)@.depth < node.depth
                &&& s1.node(c)@.entries.len() == s1.node(c)@.entry_count
                &&& s1.node(c)@.max_entries <= BLOCK_MAX_ENTRIES
                &&& tree_ok(s1, s1.node(c)@)
            } by {
                assert(idx[i] == node.indices()[i]);
            }
        }
        if tree_disjoint(s1, node) {
            assert forall|i: int| 0 <= i < node.entries.len() implies {
                let c = s2.node((#[trigger] node.indices()[i]).child_block)@;
                c.depth < node.depth ==> tree_disjoint(s2, c)
            } by {
                assert(idx[i] == node.indices()[i]);
            }
            assert forall|i: int, j: int, id: u32|
                0 <= i < j < node.entries.len() && #[trigger] in_child(s2, node, i, id)
                    implies !#[trigger] in_child(s2, node, j, id) by {
                assert(in_child(s1, node, i, id));
            }
        }
        if tree_disjoint(s2, node) {
            assert forall|i: int| 0 <= i < node.entries.len() implies {
                let c = s1.node((#[trigger] node.indices()[i]).child_block)@;
                c.depth < node.depth ==> tree_disjoint(s1, c)
            } by {
                assert(idx[i] == node.indices()[i]);
            }
            assert forall|i: int, j: int, id: u32|
                0 <= i < j < node.entries.len() && #[trigger] in_child(s1, node, i, id)
                    implies !#[trigger] in_child(s1, node, j, id) by {
                assert(in_child(s2, node, i, id));
                assert(in_child(s2, node, j, id) == in_child(s1, node, j, id));
            }
        }
    }
}

/// A search tree whose nodes are in the store and whose blocks are used once.
pub open spec fn subtree_sound(store: &NodeStore, node: NodeData, lo: int, hi: int) -> bool {
    &&& tree_wf(store, node, lo, hi)
    &&& tree_ok(store, node)
    &&& tree_disjoint(store, node)
}

/// The smallest key of a node: its first extent's start, or its first key.
pub open spec fn first_key_of(n: NodeData) -> int {
    if n.depth == 0 {
        n.extents()[0].logical_start as int
    } else {
        n.indices()[0].logical_start as int
    }
}

/// The upper bound of the leaf that a descent from `node`, whose subtree
/// lies below `hi`, towards logical block `l` reaches.
pub open spec fn path_hi(store: &NodeStore, node: NodeData, hi: int, l: int) -> int
    decreases node.depth,
{
    if node.depth == 0 {
        hi
    } else {
        let idx = node.indices();
        let k = child_for(idx, l);
        let c = store.node(idx[k].child_block)@;
        if c.depth < node.depth {
            path_hi(store, c, child_hi(idx, k, hi), l)
        } else {
            hi
        }
    }
}

/// In `after`, the logical blocks of `n` map to its physical blocks, and
/// every other logical block maps as in `before`.
pub open spec fn maps_after_insert(before: Seq<Extent>, after: Seq<Extent>, n: Extent) -> bool {
    forall|l: int, p: int|
        #[trigger] maps_to(after, l, p) == if n.logical_start <= l < ext_end(n) {
            p == n.physical_start + (l - n.logical_start)
        } else {
            maps_to(before, l, p)
        }
}

/// An insert of `n` into the subtree of `node`, bounded by `[lo, hi)`, keeps
/// the search tree: `n` starts in the bounds and ends within the bounds of
/// the leaf it reaches, and new nodes can take free blocks.
#[verifier::opaque]
pub open spec fn insert_ready(
    store: &NodeStore,
    node: NodeData,
    lo: int,
    hi: int,
    bitmap: Seq<u8>,
    n: Extent,
) -> bool {
    &&& subtree_sound(store, node, lo, hi)
    &&& node.entries.len() == node.entry_count
    &&& store_in_bitmap(store, bitmap)
    &&& n.length > 0
    &&& lo <= n.logical_start
    &&& ext_end(n) <= path_hi(store, node, hi, n.logical_start as int)
}

/// The store keeps every block it held, and the node of every block that
/// is not below `n1`.
#[verifier::opaque]
pub open spec fn kept_outside(s1: &NodeStore, s2: &NodeStore, n1: NodeData) -> bool {
    forall|id: u32|
        #[trigger] s1.has(id) ==> s2.has(id) && (!in_tree(s1, n1, id) ==> s2.node(id)@ == s1.node(
            id,
        )@)
}

/// The smallest key an insert reports.
pub open spec fn result_min(r: InsertResult) -> int {
    match r {
        InsertResult::Done { new_min } => new_min as int,
        InsertResult::Split { new_min, .. } => new_min as int,
    }
}

/// The extents of the node an insert left, and of its new sibling when it
/// split.
pub open spec fn result_extents(s2: &NodeStore, n2: NodeData, r: InsertResult) -> Seq<Extent> {
    match r {
        InsertResult::Done { .. } => tree_extents(s2, n2),
        InsertResult::Split { new_block, .. } => tree_extents(s2, n2) + tree_extents(
            s2,
            s2.node(new_block)@,
        ),
    }
}

/// What an insert of `n` that reported `r` left of the subtree of `n1`
/// (bounded by `[lo, hi)` in `s1`): the node `n2` in `s2`, bounded by its
/// smallest key and the split key (or `hi`), and after a split, a new right
/// sibling in a block that was free, bounded by the split key and `hi`;
/// together they map `n`'s logical blocks to its physical blocks and keep
/// every other mapping.
#[verifier::opaque]
pub open spec fn insert_done(
    s1: &NodeStore,
    n1: NodeData,
    s2: &NodeStore,
    n2: NodeData,
    r: InsertResult,
    lo: int,
    hi: int,
    n: Extent,
) -> bool {
    let nm = result_min(r);
    &&& lo <= nm
    &&& nm == first_key_of(n2)
    &&& n2.depth == n1.depth
    &&& n2.max_entries == n1.max_entries
    &&& n2.entries.len() == n2.entry_count
    &&& n2.entries.len() > 0
    &&& forall|id: u32| #[trigger] in_tree(s2, n2, id) ==> in_tree(s1, n1, id) || !s1.has(id)
    &&& maps_after_insert(tree_extents(s1, n1), result_extents(s2, n2, r), n)
    &&& match r {
        InsertResult::Done { .. } => nm < hi && subtree_sound(s2, n2, nm, hi),
        InsertResult::Split { key, new_block, .. } => {
            let sib = s2.node(new_block)@;
            &&& nm < key < hi
            &&& subtree_sound(s2, n2, nm, key as int)
            &&& !s1.has(new_block)
            &&& s2.has(new_block)
            &&& sib.depth == n1.depth
            &&& sib.max_entries == BLOCK_MAX_ENTRIES
            &&& sib.entries.len() == sib.entry_count
            &&& key == first_key_of(sib)
            &&& subtree_sound(s2, sib, key as int, hi)
            &&& !in_tree(s2, n2, new_block)
            &&& forall|id: u32|
                #[trigger] in_tree(s2, sib, id) ==> (in_tree(s1, n1, id) || !s1.has(id)) && !in_tree(
                    s2,
                    n2,
                    id,
                ) && id != new_block
        },
    }
}

proof fn lemma_clip_keeps_before(exts: Seq<Extent>, s: int, t: int)
    requires
        forall|j: int| 0 <= j < exts.len() ==> ext_end(#[trigger] exts[j]) <= s,
    ensures
        clip_kept(exts, s, t).len() == exts.len(),
    decreases exts.len(),
{
    if exts.len() > 0 {
        let front = exts.drop_last();
        assert forall|j: int| 0 <= j < front.len() implies ext_end(#[trigger] front[j]) <= s by {
            assert(front[j] == exts[j]);
        }
        lemma_clip_keeps_before(front, s, t);
        assert(ext_end(exts[exts.len() - 1]) <= s);
    }
}

/// Cutting a range out of ordered extents splits at most one of them in two.
#[verifier::spinoff_prover]
proof fn lemma_clip_len(exts: Seq<Extent>, s: int, t: int)
    requires
        sorted_extents(exts),
        s <= t,
    ensures
        clip_kept(exts, s, t).len() <= exts.len() + 1,
    decreases exts.len(),
{
    if exts.len() > 0 {
        let front = exts.drop_last();
        let e = exts.last();
        assert(sorted_extents(front)) by {
            assert forall|j: int, k: int| 0 <= j < k < front.len() implies ext_end(#[trigger] front[j])
                <= #[trigger] front[k].logical_start by {
                assert(front[j] == exts[j] && front[k] == exts[k]);
            }
        }
        if meets(e, s, t) && e.logical_start < s && ext_end(e) > t {
            assert forall|j: int| 0 <= j < front.len() implies ext_end(#[trigger] front[j]) <= s by {
                assert(front[j] == exts[j]);
                assert(ext_end(exts[j]) <= exts[exts.len() - 1].logical_start);
            }
            lemma_clip_keeps_before(front, s, t);
        } else {
            lemma_clip_len(front, s, t);
        }
    }
}

proof fn lemma_merge_shape(c: Seq<Extent>, n: Extent)
    ensures
        1 <= merge_insert(c, n).len() <= c.len() + 1,
{
    lemma_first_not_before_props(c, n.logical_start as int);
}

proof fn lemma_within_take_skip(c: Seq<Extent>, i: int, lo: int, hi: int)
    requires
        within(c, lo, hi),
        0 <= i <= c.len(),
    ensures
        within(c.take(i), lo, hi),
        within(c.skip(i), lo, hi),
{
    assert forall|j: int| 0 <= j < c.skip(i).len() implies lo <= #[trigger] c.skip(i)[j].logical_start
        && ext_end(c.skip(i)[j]) <= hi by {
        assert(c.skip(i)[j] == c[j + i]);
    }
}

/// Merging `n` into extents that lie in `[lo, hi)` keeps them there when
/// `n` lies there too.
#[verifier::spinoff_prover]
proof fn lemma_merge_within(c: Seq<Extent>, n: Extent, lo: int, hi: int)
    requires
        within(c, lo, hi),
        merge_fits(c, n),
        lo <= n.logical_start,
        ext_end(n) <= hi,
    ensures
        within(merge_insert(c, n), lo, hi),
{
    let s = n.logical_start as int;
    let pos = first_not_before(c, s);
    lemma_first_not_before_props(c, s);
    let with_prev = pos > 0 && continues(c[pos - 1], n);
    let with_next = pos < c.len() && continues(n, c[pos]);
    let (a, x, b) = if with_prev && with_next {
        (pos - 1, joined(joined(c[pos - 1], n), c[pos]), pos + 1)
    } else if with_prev {
        (pos - 1, joined(c[pos - 1], n), pos)
    } else if with_next {
        (pos, joined(n, c[pos]), pos + 1)
    } else {
        (pos, n, pos)
    };
    if with_prev {
        assert(lo <= c[pos - 1].logical_start);
    }
    if with_next {
        assert(ext_end(c[pos]) <= hi);
    }
    assert(within(seq![x], lo, hi));
    lemma_within_take_skip(c, a, lo, hi);
    lemma_within_take_skip(c, b, lo, hi);
    lemma_within_concat(c.take(a), seq![x], lo, hi);
    lemma_within_concat(c.take(a) + seq![x], c.skip(b), lo, hi);
    assert(merge_insert(c, n) == c.take(a) + seq![x] + c.skip(b));
}

/// A well-formed leaf in `[lo, hi)` with extents lies between its first
/// start and `hi`.
proof fn lemma_leaf_from_first(exts: Seq<Extent>, lo: int, hi: int)
    requires
        leaf_wf(exts),
        within(exts, lo, hi),
        exts.len() > 0,
    ensures
        lo <= exts[0].logical_start < hi,
        within(exts, exts[0].logical_start as int, hi),
{
    assert forall|j: int| 0 <= j < exts.len() implies exts[0].logical_start <= #[trigger] exts[j].logical_start
        && ext_end(exts[j]) <= hi by {
        if j > 0 {
            assert(ext_end(exts[0]) <= exts[j].logical_start);
        }
    }
}

/// Splitting a well-formed leaf in `[lo, hi)` at `mid` gives a left part
/// bounded by the first start and the start at `mid`, and a right part
/// bounded by the start at `mid` and `hi`.
#[verifier::spinoff_prover]
proof fn lemma_leaf_split(exts: Seq<Extent>, lo: int, hi: int, mid: int)
    requires
        leaf_wf(exts),
        within(exts, lo, hi),
        0 < mid < exts.len(),
    ensures
        leaf_wf(exts.take(mid)),
        leaf_wf(exts.skip(mid)),
        lo <= exts[0].logical_start < exts[mid].logical_start < hi,
        within(exts.take(mid), exts[0].logical_start as int, exts[mid].logical_start as int),
        within(exts.skip(mid), exts[mid].logical_start as int, hi),
        exts.take(mid) + exts.skip(mid) == exts,
        exts.take(mid)[0] == exts[0],
        exts.skip(mid)[0] == exts[mid],
{
    lemma_wf_take_skip(exts, mid);
    lemma_leaf_from_first(exts, lo, hi);
    assert(ext_end(exts[0]) <= exts[mid].logical_start);
    assert forall|j: int| 0 <= j < exts.take(mid).len() implies exts[0].logical_start
        <= #[trigger] exts.take(mid)[j].logical_start && ext_end(exts.take(mid)[j])
        <= exts[mid].logical_start by {
        assert(exts.take(mid)[j] == exts[j]);
    }
    assert forall|j: int| 0 <= j < exts.skip(mid).len() implies exts[mid].logical_start
        <= #[trigger] exts.skip(mid)[j].logical_start && ext_end(exts.skip(mid)[j]) <= hi by {
        assert(exts.skip(mid)[j] == exts[j + mid]);
        if j > 0 {
            assert(ext_end(exts[mid]) <= exts[j + mid].logical_start);
        }
    }
    assert(exts.take(mid) + exts.skip(mid) =~= exts);
}

/// What an insert does to a well-formed leaf in `[lo, hi)` when `n` starts
/// in the bounds and ends by `hi`: the leaf stays well formed and in the
/// bounds, it grows by at most two extents, and it maps as the insert says.
#[verifier::spinoff_prover]
proof fn lemma_leaf_after_insert(exts: Seq<Extent>, n: Extent, lo: int, hi: int)
    requires
        leaf_wf(exts),
        within(exts, lo, hi),
        extent_fits(n),
        n.length > 0,
        lo <= n.logical_start,
        ext_end(n) <= hi,
    ensures
        leaf_wf(leaf_after_insert(exts, n)),
        within(leaf_after_insert(exts, n), lo, hi),
        1 <= leaf_after_insert(exts, n).len() <= exts.len() + 2,
        maps_after_insert(exts, leaf_after_insert(exts, n), n),
{
    let s = n.logical_start as int;
    let t = ext_end(n);
    assert forall|l: int, p: int| #[trigger] maps_to(leaf_after_insert(exts, n), l, p) == if s <= l < t {
        p == n.physical_start + (l - n.logical_start)
    } else {
        maps_to(exts, l, p)
    } by {
        law_leaf_insert(exts, n, l, p);
    }
    law_leaf_insert(exts, n, 0, 0);
    lemma_clip_within(exts, s, t, lo, hi);
    lemma_merge_within(clip_kept(exts, s, t), n, lo, hi);
    lemma_clip_len(exts, s, t);
    lemma_merge_shape(clip_kept(exts, s, t), n);
}

/// The blocks below a node whose tree is in the store hold nodes of smaller
/// depth.
proof fn lemma_blocks_stored(store: &NodeStore, node: NodeData)
    requires
        tree_ok(store, node),
    ensures
        forall|id: u32| #[trigger] in_tree(store, node, id) ==> store.has(id) && store.node(id)@.depth
            < node.depth,
    decreases node.depth,
{
    if node.depth > 0 {
        assert forall|id: u32| #[trigger] in_tree(store, node, id) implies store.has(id) && store.node(
            id,
        )@.depth < node.depth by {
            lemma_in_tree(store, node, id);
            let i = choose|i: int| 0 <= i < node.entries.len() && #[trigger] in_child(store, node, i, id);
            let cb = node.indices()[i].child_block;
            assert(tree_ok(store, store.node(cb)@));
            if cb != id {
                lemma_blocks_stored(store, store.node(cb)@);
            }
        }
    }
}

proof fn lemma_in_child_in_tree(store: &NodeStore, node: NodeData, i: int, id: u32)
    requires
        0 <= i < node.entries.len(),
        in_child(store, node, i, id),
    ensures
        in_tree(store, node, id),
{
    lemma_in_tree(store, node, id);
}

/// A search tree in `[lo, hi)` is one in any wider range.
#[verifier::spinoff_prover]
proof fn lemma_wf_mono(store: &NodeStore, node: NodeData, lo: int, hi: int, lo2: int, hi2: int)
    requires
        tree_wf(store, node, lo, hi),
        lo2 <= lo,
        hi <= hi2,
    ensures
        tree_wf(store, node, lo2, hi2),
    decreases node.depth,
{
    if node.depth > 0 {
        let idx = node.indices();
        let m = idx.len() - 1;
        let c = store.node(idx[m].child_block)@;
        assert(tree_wf(store, c, idx[m].logical_start as int, child_hi(idx, m, hi)));
        lemma_wf_mono(store, c, idx[m].logical_start as int, hi, idx[m].logical_start as int, hi2);
        assert forall|i: int| 0 <= i < idx.len() implies {
            let c = store.node((#[trigger] idx[i]).child_block);
            &&& store.has(idx[i].child_block)
            &&& c@.depth + 1 == node.depth
            &&& tree_wf(store, c@, idx[i].logical_start as int, child_hi(idx, i, hi2))
        } by {
            if i < m {
                assert(child_hi(idx, i, hi2) == child_hi(idx, i, hi));
            }
        }
    } else {
        lemma_within_mono(node.extents(), lo, hi, lo2, hi2);
    }
}

/// Extents in `[lo, hi)` map no logical block outside that range.
proof fn lemma_within_maps_none(exts: Seq<Extent>, lo: int, hi: int, l: int, p: int)
    requires
        within(exts, lo, hi),
        l < lo || hi <= l,
    ensures
        !maps_to(exts, l, p),
{
}

/// The lower bound the subtree of child `k` is searched with when `s` is
/// inserted: its key, or `s` when that is smaller.
pub open spec fn descent_lo(idx: Seq<IndexEntry>, k: int, s: int) -> int {
    if idx[k].logical_start <= s {
        idx[k].logical_start as int
    } else {
        s
    }
}

/// An insert that is ready at an internal node is ready at the child it
/// descends into.
#[verifier::spinoff_prover]
proof fn lemma_descend_ready(
    store: &NodeStore,
    node: NodeData,
    lo: int,
    hi: int,
    bitmap: Seq<u8>,
    n: Extent,
)
    requires
        node.depth > 0,
        insert_ready(store, node, lo, hi, bitmap, n),
    ensures
        ({
            let idx = node.indices();
            let k = child_for(idx, n.logical_start as int);
            let c = store.node(idx[k].child_block)@;
            &&& 0 <= k < idx.len()
            &&& store.has(idx[k].child_block)
            &&& c.depth < node.depth
            &&& c.max_entries <= BLOCK_MAX_ENTRIES
            &&& insert_ready(store, c, descent_lo(idx, k, n.logical_start as int), child_hi(idx, k, hi), bitmap, n)
            &&& lo <= descent_lo(idx, k, n.logical_start as int)
            &&& k > 0 ==> descent_lo(idx, k, n.logical_start as int) == idx[k].logical_start
            &&& !in_tree(store, c, idx[k].child_block)
        }),
{
    reveal(insert_ready);
    let idx = node.indices();
    let s = n.logical_start as int;
    let k = child_for(idx, s);
    lemma_child_for(idx, s);
    let cb = idx[k].child_block;
    let c = store.node(cb)@;
    assert(tree_wf(store, c, idx[k].logical_start as int, child_hi(idx, k, hi)));
    assert(tree_ok(store, c));
    assert(tree_disjoint(store, c));
    lemma_wf_mono(store, c, idx[k].logical_start as int, child_hi(idx, k, hi), descent_lo(idx, k, s), child_hi(idx, k, hi));
    lemma_blocks_stored(store, c);
}

/// `s2` is `s1` with `node` stored in block `id`.
pub open spec fn put_of(s1: &NodeStore, s2: &NodeStore, id: u32, node: NodeData) -> bool {
    &&& s2.has(id)
    &&& s2.node(id)@ == node
    &&& forall|other: u32| #![trigger s2.has(other)] other != id ==> s2.has(other) == s1.has(other)
    &&& forall|other: u32|
        #![trigger s2.node(other)]
        other != id && s1.has(other) ==> s2.node(other)@ == s1.node(other)@
}

/// The keys of an internal node after the child at `k` reported `r`: the
/// child's key becomes its new smallest key, and a split adds the new
/// sibling's key and block after it.
pub open spec fn updated_indices(idx: Seq<IndexEntry>, k: int, r: InsertResult) -> Seq<IndexEntry> {
    let upd = idx.update(
        k,
        IndexEntry {
            logical_start: result_min(r) as u32,
            child_block: idx[k].child_block,
            _reserved: idx[k]._reserved,
        },
    );
    match r {
        InsertResult::Done { .. } => upd,
        InsertResult::Split { key, new_block, .. } => upd.insert(
            k + 1,
            IndexEntry { logical_start: key, child_block: new_block, _reserved: 0 },
        ),
    }
}

/// The state after an internal node's child `k`, the one an insert of `n`
/// descends into, took the insert (from `s0` to `s1`, leaving `c2`) and was
/// stored back (giving `s2`).
#[verifier::opaque]
spec fn child_step(
    s0: &NodeStore,
    node: NodeData,
    lo: int,
    hi: int,
    b0: Seq<u8>,
    n: Extent,
    s1: &NodeStore,
    c2: NodeData,
    rc: InsertResult,
    s2: &NodeStore,
) -> bool {
    let idx = node.indices();
    let k = child_for(idx, n.logical_start as int);
    let cb = idx[k].child_block;
    &&& node.depth > 0
    &&& insert_ready(s0, node, lo, hi, b0, n)
    &&& insert_done(
        s0,
        s0.node(cb)@,
        s1,
        c2,
        rc,
        descent_lo(idx, k, n.logical_start as int),
        child_hi(idx, k, hi),
        n,
    )
    &&& kept_outside(s0, s1, s0.node(cb)@)
    &&& put_of(s1, s2, cb, c2)
}

/// The children the insert did not descend into keep their subtrees.
#[verifier::spinoff_prover]
proof fn lemma_step_old_child(
    s0: &NodeStore,
    node: NodeData,
    lo: int,
    hi: int,
    b0: Seq<u8>,
    n: Extent,
    s1: &NodeStore,
    c2: NodeData,
    rc: InsertResult,
    s2: &NodeStore,
    j: int,
)
    requires
        child_step(s0, node, lo, hi, b0, n, s1, c2, rc, s2),
        0 <= j < node.entries.len(),
        j != child_for(node.indices(), n.logical_start as int),
    ensures
        ({
            let cb = node.indices()[j].child_block;
            let c = s0.node(cb)@;
            &&& s0.has(cb)
            &&& s2.has(cb)
            &&& s2.node(cb)@ == c
            &&& agrees_below(s0, s2, c)
            &&& forall|id: u32| #[trigger] in_child(s2, node, j, id) == in_child(s0, node, j, id)
            &&& forall|id: u32| #[trigger] in_child(s0, node, j, id) ==> s0.has(id)
        }),
{
    reveal(insert_ready);
    reveal(insert_done);
    reveal(kept_outside);
    reveal(child_step);
    let idx = node.indices();
    let k = child_for(idx, n.logical_start as int);
    let cbk = idx[k].child_block;
    let ck = s0.node(cbk)@;
    let cb = idx[j].child_block;
    let c = s0.node(cb)@;
    lemma_child_for(idx, n.logical_start as int);
    assert(tree_ok(s0, c));
    lemma_blocks_stored(s0, c);
    assert forall|id: u32| #[trigger] in_child(s0, node, j, id) implies !in_child(s0, node, k, id) by {
        if j < k {
            assert(!in_child(s0, node, k, id));
        } else {
            if in_child(s0, node, k, id) {
                assert(!in_child(s0, node, j, id));
            }
        }
    }
    assert(in_child(s0, node, j, cb));
    assert(cb != cbk);
    assert forall|id: u32| #[trigger] in_tree(s0, c, id) implies s0.has(id) && s2.has(id) && s2.node(
        id,
    )@ == s0.node(id)@ by {
        assert(in_child(s0, node, j, id));
        assert(!in_tree(s0, ck, id));
        assert(s0.has(id));
        assert(id != cbk);
        assert(s2.has(id) == s1.has(id));
    }
    assert(!in_tree(s0, ck, cb));
    assert(s2.has(cb) == s1.has(cb));
    lemma_frame(s0, s2, c);
    assert forall|id: u32| #[trigger] in_child(s2, node, j, id) == in_child(s0, node, j, id) by {
    }
}

/// The child the insert descended into, and the sibling it split off, are
/// in the store after the child is stored back, with their subtrees.
#[verifier::spinoff_prover]
proof fn lemma_step_new_children(
    s0: &NodeStore,
    node: NodeData,
    lo: int,
    hi: int,
    b0: Seq<u8>,
    n: Extent,
    s1: &NodeStore,
    c2: NodeData,
    rc: InsertResult,
    s2: &NodeStore,
)
    requires
        child_step(s0, node, lo, hi, b0, n, s1, c2, rc, s2),
    ensures
        ({
            let idx = node.indices();
            let k = child_for(idx, n.logical_start as int);
            let cb = idx[k].child_block;
            let ck = s0.node(cb)@;
            &&& 0 <= k < idx.len()
            &&& s0.has(cb)
            &&& ck.depth < node.depth
            &&& !in_tree(s0, ck, cb)
            &&& s2.has(cb)
            &&& s2.node(cb)@ == c2
            &&& c2.depth + 1 == node.depth
            &&& c2.entries.len() == c2.entry_count
            &&& c2.max_entries <= BLOCK_MAX_ENTRIES
            &&& agrees_below(s1, s2, c2)
            &&& forall|id: u32| #[trigger] in_tree(s2, c2, id) == in_tree(s1, c2, id)
            &&& tree_extents(s2, c2) == tree_extents(s1, c2)
            &&& forall|id: u32| #[trigger] in_child(s0, node, k, id) ==> s0.has(id)
            &&& forall|id: u32| #[trigger] in_tree(s1, c2, id) ==> in_child(s0, node, k, id) || !s0.has(id)
            &&& subtree_sound(s2, c2, result_min(rc), match rc {
                InsertResult::Done { .. } => child_hi(idx, k, hi),
                InsertResult::Split { key, .. } => key as int,
            })
            &&& rc matches InsertResult::Split { key, new_block, .. } ==> {
                let sib = s1.node(new_block)@;
                &&& new_block != cb
                &&& s2.has(new_block)
                &&& s2.node(new_block)@ == sib
                &&& sib.depth + 1 == node.depth
                &&& sib.entries.len() == sib.entry_count
                &&& sib.max_entries == BLOCK_MAX_ENTRIES
                &&& agrees_below(s1, s2, sib)
                &&& forall|id: u32| #[trigger] in_tree(s2, sib, id) == in_tree(s1, sib, id)
                &&& tree_extents(s2, sib) == tree_extents(s1, sib)
                &&& subtree_sound(s2, sib, key as int, child_hi(idx, k, hi))
                &&& forall|id: u32| #[trigger] in_tree(s1, sib, id) ==> in_child(s0, node, k, id) || !s0.has(id)
            }
        }),
{
    reveal(insert_ready);
    reveal(insert_done);
    reveal(kept_outside);
    reveal(child_step);
    let idx = node.indices();
    let k = child_for(idx, n.logical_start as int);
    let cb = idx[k].child_block;
    let ck = s0.node(cb)@;
    lemma_descend_ready(s0, node, lo, hi, b0, n);
    lemma_blocks_stored(s0, ck);
    assert(tree_ok(s0, node));
    assert(tree_wf(s0, node, lo, hi));
    assert(s0.has(cb));
    assert(ck.depth + 1 == node.depth);
    assert forall|id: u32| #[trigger] in_child(s0, node, k, id) implies s0.has(id) by {}
    assert forall|id: u32| #[trigger] in_tree(s1, c2, id) implies in_child(s0, node, k, id) || !s0.has(id) by {}
    lemma_blocks_stored(s1, c2);
    assert forall|id: u32| #[trigger] in_tree(s1, c2, id) implies s1.has(id) && s2.has(id) && s2.node(
        id,
    )@ == s1.node(id)@ by {
        assert(id != cb);
        assert(s2.has(id) == s1.has(id));
    }
    lemma_frame(s1, s2, c2);
    if let InsertResult::Split { key, new_block, .. } = rc {
        let sib = s1.node(new_block)@;
        assert(new_block != cb);
        assert(s2.has(new_block) == s1.has(new_block));
        lemma_blocks_stored(s1, sib);
        assert forall|id: u32| #[trigger] in_tree(s1, sib, id) implies in_child(s0, node, k, id) || !s0.has(id) by {}
        assert forall|id: u32| #[trigger] in_tree(s1, sib, id) implies s1.has(id) && s2.has(id) && s2.node(
            id,
        )@ == s1.node(id)@ by {
            assert(id != cb);
            assert(s2.has(id) == s1.has(id));
        }
        lemma_frame(s1, s2, sib);
    }
}

/// Child `i` of `v` is stored, shallower, and a sound subtree between its
/// key and the next key (or `hi`).
spec fn child_sound(s: &NodeStore, v: NodeData, i: int, hi: int) -> bool {
    let idx = v.indices();
    let cb = idx[i].child_block;
    let c = s.node(cb)@;
    &&& s.has(cb)
    &&& c.depth + 1 == v.depth
    &&& c.entries.len() == c.entry_count
    &&& c.max_entries <= BLOCK_MAX_ENTRIES
    &&& subtree_sound(s, c, idx[i].logical_start as int, child_hi(idx, i, hi))
}

/// An internal node with increasing keys in `[lo, hi)`, sound children, and
/// disjoint children's blocks is a sound subtree.
#[verifier::spinoff_prover]
proof fn lemma_node_sound(s: &NodeStore, v: NodeData, lo: int, hi: int)
    requires
        v.depth > 0,
        v.indices().len() > 0,
        forall|i: int, j: int|
            0 <= i < j < v.indices().len() ==> #[trigger] v.indices()[i].logical_start
                < #[trigger] v.indices()[j].logical_start,
        forall|i: int| 0 <= i < v.indices().len() ==> lo <= #[trigger] v.indices()[i].logical_start < hi,
        forall|i: int| 0 <= i < v.indices().len() ==> #[trigger] child_sound(s, v, i, hi),
        forall|i: int, j: int, id: u32|
            0 <= i < j < v.entries.len() && #[trigger] in_child(s, v, i, id) ==> !#[trigger] in_child(
                s,
                v,
                j,
                id,
            ),
    ensures
        subtree_sound(s, v, lo, hi),
{
    let idx = v.indices();
    assert forall|i: int| 0 <= i < idx.len() implies {
        let c = s.node((#[trigger] idx[i]).child_block);
        &&& s.has(idx[i].child_block)
        &&& c@.depth + 1 == v.depth
        &&& tree_wf(s, c@, idx[i].logical_start as int, child_hi(idx, i, hi))
    } by {
        assert(child_sound(s, v, i, hi));
    }
    assert forall|i: int| 0 <= i < v.entries.len() implies {
        let c = (#[trigger] v.indices()[i]).child_block;
        &&& s.has(c)
        &&& s.node(c)@.depth < v.depth
        &&& s.node(c)@.entries.len() == s.node(c)@.entry_count
        &&& s.node(c)@.max_entries <= BLOCK_MAX_ENTRIES
        &&& tree_ok(s, s.node(c)@)
    } by {
        assert(child_sound(s, v, i, hi));
    }
    assert forall|i: int| 0 <= i < v.entries.len() implies {
        let c = s.node((#[trigger] v.indices()[i]).child_block)@;
        c.depth < v.depth ==> tree_disjoint(s, c)
    } by {
        assert(child_sound(s, v, i, hi));
    }
}

/// The leaf a descent reaches lies below the subtree's bound.
proof fn lemma_path_hi_le(store: &NodeStore, node: NodeData, lo: int, hi: int, l: int)
    requires
        tree_wf(store, node, lo, hi),
    ensures
        path_hi(store, node, hi, l) <= hi,
    decreases node.depth,
{
    if node.depth > 0 {
        let idx = node.indices();
        let k = child_for(idx, l);
        lemma_child_for(idx, l);
        let c = store.node(idx[k].child_block)@;
        assert(tree_wf(store, c, idx[k].logical_start as int, child_hi(idx, k, hi)));
        lemma_path_hi_le(store, c, idx[k].logical_start as int, child_hi(idx, k, hi), l);
    }
}

/// How many children take the place of the child that took an insert.
pub open spec fn result_width(r: InsertResult) -> int {
    match r {
        InsertResult::Done { .. } => 1,
        InsertResult::Split { .. } => 2,
    }
}

proof fn lemma_updated_indices(idx: Seq<IndexEntry>, k: int, r: InsertResult)
    requires
        0 <= k < idx.len(),
    ensures
        ({
            let vi = updated_indices(idx, k, r);
            let w = result_width(r);
            &&& vi.len() == idx.len() + w - 1
            &&& forall|j: int| 0 <= j < k ==> #[trigger] vi[j] == idx[j]
            &&& vi[k].logical_start == result_min(r)
            &&& vi[k].child_block == idx[k].child_block
            &&& (r matches InsertResult::Split { key, new_block, .. } ==> vi[k + 1].logical_start == key
                && vi[k + 1].child_block == new_block)
            &&& forall|j: int| k + w <= j < vi.len() ==> #[trigger] vi[j] == idx[j - w + 1]
        }),
{
    let vi = updated_indices(idx, k, r);
    let w = result_width(r);
    assert(0 <= result_min(r) <= u32::MAX);
    assert forall|j: int| k + w <= j < vi.len() implies #[trigger] vi[j] == idx[j - w + 1] by {
    }
}

/// The facts about keys and bounds that the child step of an insert gives.
proof fn lemma_step_bounds(
    s0: &NodeStore,
    node: NodeData,
    lo: int,
    hi: int,
    b0: Seq<u8>,
    n: Extent,
    s1: &NodeStore,
    c2: NodeData,
    rc: InsertResult,
    s2: &NodeStore,
)
    requires
        child_step(s0, node, lo, hi, b0, n, s1, c2, rc, s2),
    ensures
        ({
            let idx = node.indices();
            let m = idx.len() as int;
            let sk = n.logical_start as int;
            let k = child_for(idx, sk);
            let chi = child_hi(idx, k, hi);
            let nm = result_min(rc);
            let top = match rc {
                InsertResult::Done { .. } => chi,
                InsertResult::Split { key, .. } => key as int,
            };
            &&& 0 <= k < m
            &&& node.depth > 0
            &&& tree_wf(s0, node, lo, hi)
            &&& tree_ok(s0, node)
            &&& tree_disjoint(s0, node)
            &&& lo <= nm < top <= chi <= hi
            &&& (rc matches InsertResult::Split { key, .. } ==> nm < key < chi)
            &&& (rc is Done ==> nm < chi)
            &&& k > 0 ==> idx[k].logical_start <= nm
            &&& k + 1 < m ==> chi == idx[k + 1].logical_start
            &&& forall|i: int, j: int| 0 <= i < j < m ==> #[trigger] idx[i].logical_start < #[trigger] idx[j].logical_start
            &&& forall|i: int| 0 <= i < m ==> lo <= #[trigger] idx[i].logical_start < hi
        }),
{
    reveal(insert_ready);
    reveal(insert_done);
    reveal(child_step);
    let idx = node.indices();
    let m = idx.len() as int;
    let sk = n.logical_start as int;
    let k = child_for(idx, sk);
    lemma_child_for(idx, sk);
    lemma_descend_ready(s0, node, lo, hi, b0, n);
    assert(tree_wf(s0, node, lo, hi));
    assert(child_hi(idx, k, hi) <= hi) by {
        if k + 1 < m {
            assert(idx[k + 1].logical_start < hi);
        }
    }
}

/// After the child step, the node's new keys increase and lie in `[lo, hi)`.
#[verifier::spinoff_prover]
#[verifier::rlimit(100)]
proof fn lemma_reassemble_keys(
    s0: &NodeStore,
    node: NodeData,
    lo: int,
    hi: int,
    b0: Seq<u8>,
    n: Extent,
    s1: &NodeStore,
    c2: NodeData,
    rc: InsertResult,
    s2: &NodeStore,
    v: NodeData,
)
    requires
        child_step(s0, node, lo, hi, b0, n, s1, c2, rc, s2),
        v.depth == node.depth,
        v.indices() == updated_indices(node.indices(), child_for(node.indices(), n.logical_start as int), rc),
    ensures
        v.indices().len() == node.indices().len() + result_width(rc) - 1,
        v.indices().len() > 0,
        v.depth > 0,
        forall|i: int, j: int|
            0 <= i < j < v.indices().len() ==> #[trigger] v.indices()[i].logical_start
                < #[trigger] v.indices()[j].logical_start,
        forall|i: int| 0 <= i < v.indices().len() ==> lo <= #[trigger] v.indices()[i].logical_start < hi,
{
    let idx = node.indices();
    let m = idx.len() as int;
    let sk = n.logical_start as int;
    let k = child_for(idx, sk);
    lemma_step_bounds(s0, node, lo, hi, b0, n, s1, c2, rc, s2);
    lemma_updated_indices(idx, k, rc);
    let vi = v.indices();
    let w = result_width(rc);
    let nm = result_min(rc);
    let chi = child_hi(idx, k, hi);
    // Each new key sits where the old order puts it.
    assert forall|i: int, j: int| 0 <= i < j < vi.len() implies #[trigger] vi[i].logical_start
        < #[trigger] vi[j].logical_start by {
        if j < k {
            assert(idx[i].logical_start < idx[j].logical_start);
        } else if j < k + w {
            if i < k {
                assert(idx[i].logical_start < idx[k].logical_start);
            }
        } else {
            let oj = j - w + 1;
            assert(oj > k);
            assert(idx[k + 1].logical_start <= idx[oj].logical_start);
            if i < k {
                assert(idx[i].logical_start < idx[oj].logical_start);
            } else if i >= k + w {
                assert(idx[i - w + 1].logical_start < idx[oj].logical_start);
            }
        }
    }
    assert forall|i: int| 0 <= i < vi.len() implies lo <= #[trigger] vi[i].logical_start < hi by {
        if i < k {
            assert(lo <= idx[i].logical_start < hi);
        } else if i >= k + w {
            assert(lo <= idx[i - w + 1].logical_start < hi);
        }
    }
}

/// After the child step, a child the insert did not descend into is sound
/// within its new bounds.
#[verifier::spinoff_prover]
#[verifier::rlimit(100)]
proof fn lemma_reassemble_old_child(
    s0: &NodeStore,
    node: NodeData,
    lo: int,
    hi: int,
    b0: Seq<u8>,
    n: Extent,
    s1: &NodeStore,
    c2: NodeData,
    rc: InsertResult,
    s2: &NodeStore,
    v: NodeData,
    j: int,
)
    requires
        child_step(s0, node, lo, hi, b0, n, s1, c2, rc, s2),
        v.depth == node.depth,
        v.indices() == updated_indices(node.indices(), child_for(node.indices(), n.logical_start as int), rc),
        0 <= j < v.indices().len(),
        !(child_for(node.indices(), n.logical_start as int) <= j < child_for(node.indices(), n.logical_start as int) + result_width(rc)),
    ensures
        child_sound(s2, v, j, hi),
{
    let idx = node.indices();
    let sk = n.logical_start as int;
    let k = child_for(idx, sk);
    lemma_step_bounds(s0, node, lo, hi, b0, n, s1, c2, rc, s2);
    lemma_updated_indices(idx, k, rc);
    let vi = v.indices();
    let w = result_width(rc);
    let nm = result_min(rc);
    let o = if j < k { j } else { j - w + 1 };
    assert(vi[j] == idx[o]);
    lemma_step_old_child(s0, node, lo, hi, b0, n, s1, c2, rc, s2, o);
    let c = s0.node(idx[o].child_block)@;
    lemma_frame(s0, s2, c);
    assert(tree_wf(s0, c, idx[o].logical_start as int, child_hi(idx, o, hi)));
    assert(tree_ok(s0, c));
    if j == k - 1 {
        assert(vi[k].logical_start == nm);
        assert(child_hi(vi, j, hi) == nm);
        assert(child_hi(idx, o, hi) == idx[k].logical_start);
        lemma_wf_mono(s0, c, idx[o].logical_start as int, child_hi(idx, o, hi), idx[o].logical_start as int, nm);
    } else {
        assert(child_hi(vi, j, hi) == child_hi(idx, o, hi)) by {
            if j + 1 < vi.len() {
                assert(vi[j + 1] == idx[o + 1]);
            }
        }
    }
}

/// After the child step, the node's new keys increase, lie in `[lo, hi)`,
/// and every child is a sound subtree within its new bounds.
#[verifier::spinoff_prover]
#[verifier::rlimit(100)]
proof fn lemma_reassemble_wf(
    s0: &NodeStore,
    node: NodeData,
    lo: int,
    hi: int,
    b0: Seq<u8>,
    n: Extent,
    s1: &NodeStore,
    c2: NodeData,
    rc: InsertResult,
    s2: &NodeStore,
    v: NodeData,
)
    requires
        child_step(s0, node, lo, hi, b0, n, s1, c2, rc, s2),
        v.depth == node.depth,
        v.indices() == updated_indices(node.indices(), child_for(node.indices(), n.logical_start as int), rc),
    ensures
        v.indices().len() == node.indices().len() + result_width(rc) - 1,
        v.indices().len() > 0,
        v.depth > 0,
        forall|i: int, j: int|
            0 <= i < j < v.indices().len() ==> #[trigger] v.indices()[i].logical_start
                < #[trigger] v.indices()[j].logical_start,
        forall|i: int| 0 <= i < v.indices().len() ==> lo <= #[trigger] v.indices()[i].logical_start < hi,
        forall|i: int| 0 <= i < v.indices().len() ==> #[trigger] child_sound(s2, v, i, hi),
{
    let idx = node.indices();
    let sk = n.logical_start as int;
    let k = child_for(idx, sk);
    lemma_step_bounds(s0, node, lo, hi, b0, n, s1, c2, rc, s2);
    lemma_reassemble_keys(s0, node, lo, hi, b0, n, s1, c2, rc, s2, v);
    lemma_step_new_children(s0, node, lo, hi, b0, n, s1, c2, rc, s2);
    lemma_updated_indices(idx, k, rc);
    let vi = v.indices();
    let w = result_width(rc);
    let chi = child_hi(idx, k, hi);
    let top = match rc {
        InsertResult::Done { .. } => chi,
        InsertResult::Split { key, .. } => key as int,
    };
    assert forall|j: int| 0 <= j < vi.len() implies #[trigger] child_sound(s2, v, j, hi) by {
        if j < k || j >= k + w {
            lemma_reassemble_old_child(s0, node, lo, hi, b0, n, s1, c2, rc, s2, v, j);
        } else if j == k {
            assert(child_hi(vi, k, hi) == top) by {
                if k + 1 < vi.len() {
                    if w == 1 {
                        assert(vi[k + 1] == idx[k + 1]);
                    }
                }
            }
        } else {
            assert(child_hi(vi, k + 1, hi) == chi) by {
                if k + 2 < vi.len() {
                    assert(vi[k + 2] == idx[k + 1]);
                }
            }
        }
    }
}

/// After the child step, each block below a child of the new node comes
/// from below the same child of the old node, or was free (for the child
/// that took the insert and its new sibling).
#[verifier::spinoff_prover]
proof fn lemma_reassemble_origin(
    s0: &NodeStore,
    node: NodeData,
    lo: int,
    hi: int,
    b0: Seq<u8>,
    n: Extent,
    s1: &NodeStore,
    c2: NodeData,
    rc: InsertResult,
    s2: &NodeStore,
    v: NodeData,
    j: int,
    id: u32,
)
    requires
        child_step(s0, node, lo, hi, b0, n, s1, c2, rc, s2),
        v.depth == node.depth,
        v.indices() == updated_indices(node.indices(), child_for(node.indices(), n.logical_start as int), rc),
        0 <= j < v.indices().len(),
        in_child(s2, v, j, id),
    ensures
        ({
            let k = child_for(node.indices(), n.logical_start as int);
            let w = result_width(rc);
            let ck = s0.node(node.indices()[k].child_block)@;
            &&& j < k ==> in_child(s0, node, j, id) && s0.has(id)
            &&& j >= k + w ==> in_child(s0, node, j - w + 1, id) && s0.has(id)
            &&& j == k ==> (id == node.indices()[k].child_block || in_tree(s1, c2, id))
            &&& (w == 2 && j == k + 1) ==> (rc matches InsertResult::Split { new_block, .. } && (id
                == new_block || in_tree(s1, s1.node(new_block)@, id)))
            &&& k <= j < k + w ==> in_child(s0, node, k, id) || !s0.has(id)
        }),
{
    reveal(insert_ready);
    reveal(insert_done);
    reveal(kept_outside);
    reveal(child_step);
    let idx = node.indices();
    let sk = n.logical_start as int;
    let k = child_for(idx, sk);
    lemma_child_for(idx, sk);
    lemma_step_new_children(s0, node, lo, hi, b0, n, s1, c2, rc, s2);
    lemma_updated_indices(idx, k, rc);
    let w = result_width(rc);
    let vi = v.indices();
    if j < k || j >= k + w {
        let o = if j < k { j } else { j - w + 1 };
        assert(vi[j] == idx[o]);
        lemma_step_old_child(s0, node, lo, hi, b0, n, s1, c2, rc, s2, o);
        assert(in_child(s2, node, o, id));
    } else if j == k {
    } else {
        if let InsertResult::Split { key, new_block, .. } = rc {
            let ck = s0.node(idx[k].child_block)@;
            assert(forall|x: u32| #[trigger] in_tree(s1, s1.node(new_block)@, x) ==> (in_tree(s0, ck, x) || !s0.has(x)));
        }
    }
}

/// After the child step, the blocks below different children of the new
/// node are different, and each comes from below the old node or was free.
#[verifier::spinoff_prover]
#[verifier::rlimit(100)]
proof fn lemma_reassemble_blocks(
    s0: &NodeStore,
    node: NodeData,
    lo: int,
    hi: int,
    b0: Seq<u8>,
    n: Extent,
    s1: &NodeStore,
    c2: NodeData,
    rc: InsertResult,
    s2: &NodeStore,
    v: NodeData,
)
    requires
        child_step(s0, node, lo, hi, b0, n, s1, c2, rc, s2),
        v.depth == node.depth,
        v.indices() == updated_indices(node.indices(), child_for(node.indices(), n.logical_start as int), rc),
    ensures
        forall|i: int, j: int, id: u32|
            0 <= i < j < v.entries.len() && #[trigger] in_child(s2, v, i, id) ==> !#[trigger] in_child(
                s2,
                v,
                j,
                id,
            ),
        forall|id: u32| #[trigger] in_tree(s2, v, id) ==> in_tree(s0, node, id) || !s0.has(id),
{
    reveal(insert_ready);
    reveal(insert_done);
    reveal(kept_outside);
    reveal(child_step);
    let idx = node.indices();
    let sk = n.logical_start as int;
    let k = child_for(idx, sk);
    lemma_child_for(idx, sk);
    lemma_step_new_children(s0, node, lo, hi, b0, n, s1, c2, rc, s2);
    lemma_updated_indices(idx, k, rc);
    let w = result_width(rc);
    let vi = v.indices();
    let cb = idx[k].child_block;
    let ck = s0.node(cb)@;
    assert(tree_disjoint(s0, node));
    assert forall|i: int, j: int, id: u32|
        0 <= i < j < v.entries.len() && #[trigger] in_child(s2, v, i, id) implies !#[trigger] in_child(
            s2,
            v,
            j,
            id,
        ) by {
        if in_child(s2, v, j, id) {
            lemma_reassemble_origin(s0, node, lo, hi, b0, n, s1, c2, rc, s2, v, i, id);
            lemma_reassemble_origin(s0, node, lo, hi, b0, n, s1, c2, rc, s2, v, j, id);
            if j < k {
                assert(!in_child(s0, node, j, id));
            } else if i >= k + w {
                assert(!in_child(s0, node, j - w + 1, id));
            } else if i < k && j >= k + w {
                assert(!in_child(s0, node, j - w + 1, id));
            } else if i < k {
                assert(!in_child(s0, node, k, id));
            } else if j >= k + w {
                assert(!in_child(s0, node, j - w + 1, id));
            } else {
                // The child that took the insert and its new sibling.
                if let InsertResult::Split { key, new_block, .. } = rc {
                    let sib = s1.node(new_block)@;
                    assert(forall|x: u32| #[trigger] in_tree(s1, sib, x) ==> (in_tree(s0, ck, x)
                        || !s0.has(x)) && !in_tree(s1, c2, x) && x != new_block);
                    assert(!in_tree(s1, c2, new_block));
                    assert(!s0.has(new_block));
                }
            }
        }
    }
    assert forall|id: u32| #[trigger] in_tree(s2, v, id) implies in_tree(s0, node, id) || !s0.has(id) by {
        lemma_in_tree(s2, v, id);
        let j = choose|j: int| 0 <= j < v.entries.len() && #[trigger] in_child(s2, v, j, id);
        lemma_reassemble_origin(s0, node, lo, hi, b0, n, s1, c2, rc, s2, v, j, id);
        if j < k {
            lemma_in_child_in_tree(s0, node, j, id);
        } else if j >= k + w {
            lemma_in_child_in_tree(s0, node, j - w + 1, id);
        } else if s0.has(id) {
            lemma_in_child_in_tree(s0, node, k, id);
        }
    }
}

/// After the child step, the new node maps `n`'s logical blocks to its
/// physical blocks and every other logical block as the old node did.
#[verifier::spinoff_prover]
#[verifier::rlimit(100)]
proof fn lemma_reassemble_maps(
    s0: &NodeStore,
    node: NodeData,
    lo: int,
    hi: int,
    b0: Seq<u8>,
    n: Extent,
    s1: &NodeStore,
    c2: NodeData,
    rc: InsertResult,
    s2: &NodeStore,
    v: NodeData,
)
    requires
        child_step(s0, node, lo, hi, b0, n, s1, c2, rc, s2),
        v.depth == node.depth,
        v.indices() == updated_indices(node.indices(), child_for(node.indices(), n.logical_start as int), rc),
    ensures
        maps_after_insert(tree_extents(s0, node), tree_extents(s2, v), n),
{
    reveal(insert_ready);
    reveal(insert_done);
    reveal(child_step);
    let idx = node.indices();
    let m = idx.len() as int;
    let sk = n.logical_start as int;
    let k = child_for(idx, sk);
    lemma_child_for(idx, sk);
    lemma_descend_ready(s0, node, lo, hi, b0, n);
    lemma_step_new_children(s0, node, lo, hi, b0, n, s1, c2, rc, s2);
    lemma_updated_indices(idx, k, rc);
    let w = result_width(rc);
    let vi = v.indices();
    let m2 = vi.len() as int;
    let cb = idx[k].child_block;
    let ck = s0.node(cb)@;
    let chi = child_hi(idx, k, hi);
    let clo = descent_lo(idx, k, sk);
    // The old extents: before the child, the child's, after it.
    lemma_children_split(s0, node, 0, k, m);
    lemma_children_split(s0, node, k, k + 1, m);
    assert(children_extents(s0, node, k, k) =~= Seq::<Extent>::empty());
    assert(children_extents(s0, node, k, k + 1) =~= tree_extents(s0, ck));
    let a0 = children_extents(s0, node, 0, k);
    let b_0 = children_extents(s0, node, k + 1, m);
    assert(tree_extents(s0, node) =~= a0 + (tree_extents(s0, ck) + b_0));
    // The new extents: the same before and after, the new children's between.
    lemma_children_split(s2, v, 0, k, m2);
    lemma_children_split(s2, v, k, k + w, m2);
    let a2 = children_extents(s2, v, 0, k);
    let x2 = children_extents(s2, v, k, k + w);
    let b2 = children_extents(s2, v, k + w, m2);
    assert(tree_extents(s2, v) =~= a2 + (x2 + b2));
    assert(children_extents(s2, v, k, k) =~= Seq::<Extent>::empty());
    assert(children_extents(s2, v, k, k + 1) =~= tree_extents(s2, c2));
    if let InsertResult::Split { key, new_block, .. } = rc {
        assert(children_extents(s2, v, k, k + 2) =~= tree_extents(s2, c2) + tree_extents(s2, s1.node(new_block)@));
    }
    assert(x2 == result_extents(s1, c2, rc));
    assert forall|j: int| 0 <= j < k implies {
        let c1 = s2.node((#[trigger] vi[0 + j]).child_block)@;
        let c0 = s0.node(idx[0 + j].child_block)@;
        &&& (c1.depth < v.depth) == (c0.depth < v.depth)
        &&& c1.depth < v.depth ==> tree_extents(s2, c1) == tree_extents(s0, c0)
    } by {
        lemma_step_old_child(s0, node, lo, hi, b0, n, s1, c2, rc, s2, j);
        lemma_frame(s0, s2, s0.node(idx[j].child_block)@);
    }
    lemma_children_extents_eq(s2, v, 0, s0, node, 0, k);
    assert forall|j: int| 0 <= j < m - k - 1 implies {
        let c1 = s2.node((#[trigger] vi[k + w + j]).child_block)@;
        let c0 = s0.node(idx[k + 1 + j].child_block)@;
        &&& (c1.depth < v.depth) == (c0.depth < v.depth)
        &&& c1.depth < v.depth ==> tree_extents(s2, c1) == tree_extents(s0, c0)
    } by {
        assert(vi[k + w + j] == idx[k + 1 + j]);
        lemma_step_old_child(s0, node, lo, hi, b0, n, s1, c2, rc, s2, k + 1 + j);
        lemma_frame(s0, s2, s0.node(idx[k + 1 + j].child_block)@);
    }
    lemma_children_extents_eq(s2, v, k + w, s0, node, k + 1, m - k - 1);
    assert(a2 == a0);
    assert(b2 == b_0);
    // Neither the children before nor those after hold a block of `n`.
    lemma_path_hi_le(s0, ck, clo, chi, sk);
    let t = ext_end(n);
    assert(t <= chi);
    if k > 0 {
        lemma_children_within(s0, node, lo, hi, 0, k);
    }
    if k + 1 < m {
        lemma_children_within(s0, node, lo, hi, k + 1, m);
    }
    assert forall|l: int, p: int| #[trigger] maps_to(tree_extents(s2, v), l, p) == if sk <= l < t {
        p == n.physical_start + (l - n.logical_start)
    } else {
        maps_to(tree_extents(s0, node), l, p)
    } by {
        lemma_maps_to_concat(a2, x2 + b2, l, p);
        lemma_maps_to_concat(x2, b2, l, p);
        lemma_maps_to_concat(a0, tree_extents(s0, ck) + b_0, l, p);
        lemma_maps_to_concat(tree_extents(s0, ck), b_0, l, p);
        assert(maps_to(x2, l, p) == if sk <= l < t {
            p == n.physical_start + (l - n.logical_start)
        } else {
            maps_to(tree_extents(s0, ck), l, p)
        });
        if sk <= l < t {
            if k > 0 {
                lemma_within_maps_none(a0, idx[0].logical_start as int, child_hi(idx, k - 1, hi), l, p);
            }
            if k + 1 < m {
                lemma_within_maps_none(b_0, idx[k + 1].logical_start as int, child_hi(idx, m - 1, hi), l, p);
            }
        }
    }
}

/// After the child step, the store keeps every block outside the node.
#[verifier::spinoff_prover]
proof fn lemma_reassemble_kept(
    s0: &NodeStore,
    node: NodeData,
    lo: int,
    hi: int,
    b0: Seq<u8>,
    n: Extent,
    s1: &NodeStore,
    c2: NodeData,
    rc: InsertResult,
    s2: &NodeStore,
)
    requires
        child_step(s0, node, lo, hi, b0, n, s1, c2, rc, s2),
    ensures
        kept_outside(s0, s2, node),
{
    reveal(insert_ready);
    reveal(insert_done);
    reveal(kept_outside);
    reveal(child_step);
    let idx = node.indices();
    let k = child_for(idx, n.logical_start as int);
    lemma_step_new_children(s0, node, lo, hi, b0, n, s1, c2, rc, s2);
    let cb = idx[k].child_block;
    let ck = s0.node(cb)@;
    assert forall|id: u32| #[trigger] s0.has(id) implies s2.has(id) && (!in_tree(s0, node, id) ==> s2.node(
        id,
    )@ == s0.node(id)@) by {
        assert(s1.has(id));
        if id != cb {
            assert(s2.has(id) == s1.has(id));
        }
        if !in_tree(s0, node, id) {
            assert(in_child(s0, node, k, cb));
            lemma_in_child_in_tree(s0, node, k, cb);
            if in_tree(s0, ck, id) {
                assert(in_child(s0, node, k, id));
                lemma_in_child_in_tree(s0, node, k, id);
            }
        }
    }
}

/// Child `j` of `v` as child `j - a` of `u`: the same block.
spec fn same_children(u: NodeData, v: NodeData, a: int) -> bool {
    &&& u.depth == v.depth
    &&& 0 <= a
    &&& a + u.indices().len() <= v.indices().len()
    &&& forall|j: int| 0 <= j < u.indices().len() ==> #[trigger] u.indices()[j] == v.indices()[a + j]
}

/// A run of consecutive children of a sound node, with keys from its first
/// key to the key after it (or `hi`), is a sound node.
#[verifier::spinoff_prover]
#[verifier::rlimit(100)]
proof fn lemma_run_sound(s: &NodeStore, v: NodeData, lo: int, hi: int, u: NodeData, a: int, uhi: int)
    requires
        subtree_sound(s, v, lo, hi),
        v.depth > 0,
        same_children(u, v, a),
        u.indices().len() > 0,
        uhi == child_hi(v.indices(), a + u.indices().len() - 1, hi),
    ensures
        subtree_sound(s, u, u.indices()[0].logical_start as int, uhi),
        forall|id: u32| #[trigger] in_tree(s, u, id) ==> in_tree(s, v, id),
        forall|j: int, id: u32| 0 <= j < u.indices().len() ==> #[trigger] in_child(s, u, j, id) == in_child(s, v, a + j, id),
        tree_extents(s, u) == children_extents(s, v, a, a + u.indices().len()),
{
    let vi = v.indices();
    let ui = u.indices();
    let len = ui.len() as int;
    assert forall|j: int, id: u32| 0 <= j < len implies #[trigger] in_child(s, u, j, id) == in_child(s, v, a + j, id) by {
        assert(ui[j] == vi[a + j]);
    }
    assert forall|i: int, j: int| 0 <= i < j < len implies #[trigger] ui[i].logical_start < #[trigger] ui[j].logical_start by {
        assert(ui[i] == vi[a + i] && ui[j] == vi[a + j]);
    }
    assert forall|i: int| 0 <= i < len implies ui[0].logical_start <= #[trigger] ui[i].logical_start < uhi by {
        assert(ui[i] == vi[a + i] && ui[0] == vi[a]);
        if a + len < vi.len() {
            assert(vi[a + i].logical_start < vi[a + len].logical_start);
        } else {
            assert(vi[a + i].logical_start < hi);
        }
    }
    assert forall|j: int| 0 <= j < len implies #[trigger] child_sound(s, u, j, uhi) by {
        assert(ui[j] == vi[a + j]);
        let cb = vi[a + j].child_block;
        assert(tree_wf(s, s.node(cb)@, vi[a + j].logical_start as int, child_hi(vi, a + j, hi)));
        assert(tree_ok(s, s.node(cb)@));
        assert(tree_disjoint(s, s.node(cb)@));
        assert(child_hi(ui, j, uhi) == child_hi(vi, a + j, hi)) by {
            if j + 1 < len {
                assert(ui[j + 1] == vi[a + j + 1]);
            }
        }
    }
    assert forall|i: int, j: int, id: u32|
        0 <= i < j < u.entries.len() && #[trigger] in_child(s, u, i, id) implies !#[trigger] in_child(s, u, j, id) by {
        assert(in_child(s, v, a + i, id));
        assert(!in_child(s, v, a + j, id));
    }
    lemma_node_sound(s, u, ui[0].logical_start as int, uhi);
    assert forall|id: u32| #[trigger] in_tree(s, u, id) implies in_tree(s, v, id) by {
        lemma_in_tree(s, u, id);
        let j = choose|j: int| 0 <= j < u.entries.len() && #[trigger] in_child(s, u, j, id);
        assert(in_child(s, v, a + j, id));
        lemma_in_child_in_tree(s, v, a + j, id);
    }
    assert forall|j: int| 0 <= j < len implies {
        let c1 = s.node((#[trigger] ui[0 + j]).child_block)@;
        let c0 = s.node(vi[a + j].child_block)@;
        &&& (c1.depth < u.depth) == (c0.depth < u.depth)
        &&& c1.depth < u.depth ==> tree_extents(s, c1) == tree_extents(s, c0)
    } by {
        assert(ui[0 + j] == vi[a + j]);
    }
    lemma_children_extents_eq(s, u, 0, s, v, a, len);
}

/// Storing a node in a free block changes nothing below a node whose tree
/// is in the store.
proof fn lemma_put_fresh(s2: &NodeStore, s3: &NodeStore, rb: u32, x: NodeData, node: NodeData)
    requires
        put_of(s2, s3, rb, x),
        !s2.has(rb),
        tree_ok(s2, node),
    ensures
        agrees_below(s2, s3, node),
        !in_tree(s2, node, rb),
{
    lemma_blocks_stored(s2, node);
    assert forall|id: u32| #[trigger] in_tree(s2, node, id) implies s2.has(id) && s3.has(id) && s3.node(
        id,
    )@ == s2.node(id)@ by {
        assert(id != rb);
        assert(s3.has(id) == s2.has(id));
    }
}

/// The node the child step leaves, when it keeps all its keys, is what the
/// insert reports as done.
proof fn lemma_internal_done(
    s0: &NodeStore,
    node: NodeData,
    lo: int,
    hi: int,
    b0: Seq<u8>,
    n: Extent,
    s1: &NodeStore,
    c2: NodeData,
    rc: InsertResult,
    s2: &NodeStore,
    v: NodeData,
)
    requires
        child_step(s0, node, lo, hi, b0, n, s1, c2, rc, s2),
        v.depth == node.depth,
        v.max_entries == node.max_entries,
        v.entries.len() == v.entry_count,
        v.indices() == updated_indices(node.indices(), child_for(node.indices(), n.logical_start as int), rc),
    ensures
        insert_done(s0, node, s2, v, InsertResult::Done { new_min: v.indices()[0].logical_start }, lo, hi, n),
        kept_outside(s0, s2, node),
{
    reveal(insert_done);
    lemma_reassemble_wf(s0, node, lo, hi, b0, n, s1, c2, rc, s2, v);
    lemma_reassemble_blocks(s0, node, lo, hi, b0, n, s1, c2, rc, s2, v);
    lemma_reassemble_maps(s0, node, lo, hi, b0, n, s1, c2, rc, s2, v);
    lemma_reassemble_kept(s0, node, lo, hi, b0, n, s1, c2, rc, s2);
    lemma_node_sound(s2, v, v.indices()[0].logical_start as int, hi);
}

/// Splitting a sound internal node into the children before `mid` (staying
/// in place) and those from `mid` (going to a free block) gives two sound
/// nodes with disjoint blocks and the same extents in order.
#[verifier::spinoff_prover]
#[verifier::rlimit(100)]
proof fn lemma_split_halves(
    s2: &NodeStore,
    v: NodeData,
    hi: int,
    mid: int,
    s3: &NodeStore,
    left: NodeData,
    right: NodeData,
    rb: u32,
)
    requires
        subtree_sound(s2, v, v.indices()[0].logical_start as int, hi),
        v.depth > 0,
        0 < mid < v.indices().len(),
        left.depth == v.depth,
        left.indices() == v.indices().take(mid),
        right.depth == v.depth,
        right.indices() == v.indices().skip(mid),
        !s2.has(rb),
        put_of(s2, s3, rb, right),
    ensures
        ({
            let vi = v.indices();
            &&& vi[0].logical_start < vi[mid].logical_start < hi
            &&& left.indices()[0] == vi[0]
            &&& right.indices()[0] == vi[mid]
            &&& subtree_sound(s3, left, vi[0].logical_start as int, vi[mid].logical_start as int)
            &&& subtree_sound(s3, right, vi[mid].logical_start as int, hi)
            &&& s3.node(rb)@ == right
            &&& tree_extents(s3, left) + tree_extents(s3, right) == tree_extents(s2, v)
            &&& !in_tree(s3, left, rb)
            &&& forall|id: u32| #[trigger] in_tree(s3, left, id) ==> in_tree(s2, v, id)
            &&& forall|id: u32|
                #[trigger] in_tree(s3, right, id) ==> in_tree(s2, v, id) && !in_tree(s3, left, id) && id
                    != rb
        }),
{
    let vi = v.indices();
    let m2 = vi.len() as int;
    let vlo = vi[0].logical_start as int;
    let key = vi[mid].logical_start as int;
    assert(same_children(left, v, 0)) by {
        assert forall|j: int| 0 <= j < left.indices().len() implies #[trigger] left.indices()[j] == vi[0 + j] by {}
    }
    assert(same_children(right, v, mid)) by {
        assert forall|j: int| 0 <= j < right.indices().len() implies #[trigger] right.indices()[j] == vi[mid + j] by {}
    }
    assert(child_hi(vi, mid - 1, hi) == key);
    assert(child_hi(vi, m2 - 1, hi) == hi);
    lemma_run_sound(s2, v, vlo, hi, left, 0, key);
    lemma_run_sound(s2, v, vlo, hi, right, mid, hi);
    assert(left.indices()[0] == vi[0]);
    assert(right.indices()[0] == vi[mid]);
    // Storing the right half in its free block leaves both halves' trees alone.
    lemma_put_fresh(s2, s3, rb, right, left);
    lemma_put_fresh(s2, s3, rb, right, right);
    lemma_frame(s2, s3, left);
    lemma_frame(s2, s3, right);
    // The two halves are the children before `mid` and those from it.
    lemma_children_split(s2, v, 0, mid, m2);
    assert(vi[0].logical_start < vi[mid].logical_start);
    assert(vi[mid].logical_start < hi);
    assert forall|id: u32| #[trigger] in_tree(s3, right, id) implies in_tree(s2, v, id) && !in_tree(s3, left, id)
        && id != rb by {
        assert(in_tree(s2, right, id));
        lemma_in_tree(s2, right, id);
        let j = choose|j: int| 0 <= j < right.entries.len() && #[trigger] in_child(s2, right, j, id);
        assert(in_child(s2, v, mid + j, id));
        if in_tree(s2, left, id) {
            lemma_in_tree(s2, left, id);
            let i = choose|i: int| 0 <= i < left.entries.len() && #[trigger] in_child(s2, left, i, id);
            assert(in_child(s2, v, i, id));
        }
    }
    assert forall|id: u32| #[trigger] in_tree(s3, left, id) implies in_tree(s2, v, id) by {
        assert(in_tree(s2, left, id));
    }
}

/// The two halves the child step leaves when the node is over capacity:
/// the left one stays, the right one goes to a free block.
#[verifier::spinoff_prover]
#[verifier::rlimit(100)]
proof fn lemma_internal_split(
    s0: &NodeStore,
    node: NodeData,
    lo: int,
    hi: int,
    b0: Seq<u8>,
    n: Extent,
    s1: &NodeStore,
    c2: NodeData,
    rc: InsertResult,
    s2: &NodeStore,
    v: NodeData,
    mid: int,
    s3: &NodeStore,
    left: NodeData,
    right: NodeData,
    rb: u32,
)
    requires
        child_step(s0, node, lo, hi, b0, n, s1, c2, rc, s2),
        v.depth == node.depth,
        v.indices() == updated_indices(node.indices(), child_for(node.indices(), n.logical_start as int), rc),
        0 < mid < v.indices().len(),
        left.depth == node.depth,
        left.max_entries == node.max_entries,
        left.entries.len() == left.entry_count,
        left.indices() == v.indices().take(mid),
        right.depth == node.depth,
        right.max_entries == BLOCK_MAX_ENTRIES,
        right.entries.len() == right.entry_count,
        right.indices() == v.indices().skip(mid),
        !s2.has(rb),
        put_of(s2, s3, rb, right),
    ensures
        insert_done(
            s0,
            node,
            s3,
            left,
            InsertResult::Split {
                key: v.indices()[mid].logical_start,
                new_block: rb,
                new_min: v.indices()[0].logical_start,
            },
            lo,
            hi,
            n,
        ),
        kept_outside(s0, s3, node),
{
    let vi = v.indices();
    lemma_reassemble_wf(s0, node, lo, hi, b0, n, s1, c2, rc, s2, v);
    lemma_reassemble_blocks(s0, node, lo, hi, b0, n, s1, c2, rc, s2, v);
    lemma_reassemble_maps(s0, node, lo, hi, b0, n, s1, c2, rc, s2, v);
    lemma_reassemble_kept(s0, node, lo, hi, b0, n, s1, c2, rc, s2);
    lemma_node_sound(s2, v, vi[0].logical_start as int, hi);
    lemma_split_halves(s2, v, hi, mid, s3, left, right, rb);
    lemma_kept_put_fresh(s0, node, s2, s3, rb, right);
    assert(!s0.has(rb)) by {
        reveal(kept_outside);
        if s0.has(rb) {
            assert(s2.has(rb));
        }
    }
    let r = InsertResult::Split { key: vi[mid].logical_start, new_block: rb, new_min: vi[0].logical_start };
    assert(result_extents(s3, left, r) == tree_extents(s2, v));
    reveal(insert_done);
}

/// What a store keeps outside a child it keeps outside the parent.
proof fn lemma_kept_widen(s0: &NodeStore, s1: &NodeStore, node: NodeData, k: int)
    requires
        node.depth > 0,
        0 <= k < node.entries.len(),
        kept_outside(s0, s1, s0.node(node.indices()[k].child_block)@),
        s0.node(node.indices()[k].child_block)@.depth < node.depth,
    ensures
        kept_outside(s0, s1, node),
{
    reveal(kept_outside);
    let ck = s0.node(node.indices()[k].child_block)@;
    assert forall|id: u32| #[trigger] s0.has(id) implies s1.has(id) && (!in_tree(s0, node, id) ==> s1.node(
        id,
    )@ == s0.node(id)@) by {
        if in_tree(s0, ck, id) {
            assert(in_child(s0, node, k, id));
            lemma_in_child_in_tree(s0, node, k, id);
        }
    }
}

/// Storing a child back after an insert into it keeps every block outside
/// the parent.
#[verifier::spinoff_prover]
proof fn lemma_kept_after_put(s0: &NodeStore, node: NodeData, k: int, s1: &NodeStore, s2: &NodeStore, c2: NodeData)
    requires
        node.depth > 0,
        0 <= k < node.entries.len(),
        kept_outside(s0, s1, s0.node(node.indices()[k].child_block)@),
        s0.node(node.indices()[k].child_block)@.depth < node.depth,
        put_of(s1, s2, node.indices()[k].child_block, c2),
    ensures
        kept_outside(s0, s2, node),
{
    reveal(kept_outside);
    let cb = node.indices()[k].child_block;
    lemma_kept_widen(s0, s1, node, k);
    assert(in_child(s0, node, k, cb));
    lemma_in_child_in_tree(s0, node, k, cb);
    assert forall|id: u32| #[trigger] s0.has(id) implies s2.has(id) && (!in_tree(s0, node, id) ==> s2.node(
        id,
    )@ == s0.node(id)@) by {
        assert(s1.has(id));
        if id != cb {
            assert(s2.has(id) == s1.has(id));
        }
    }
}

/// Storing a node in a free block keeps every block the store held.
proof fn lemma_kept_put_fresh(s0: &NodeStore, node: NodeData, s2: &NodeStore, s3: &NodeStore, rb: u32, x: NodeData)
    requires
        kept_outside(s0, s2, node),
        put_of(s2, s3, rb, x),
        !s2.has(rb),
    ensures
        kept_outside(s0, s3, node),
{
    reveal(kept_outside);
    assert forall|id: u32| #[trigger] s0.has(id) implies s3.has(id) && (!in_tree(s0, node, id) ==> s3.node(
        id,
    )@ == s0.node(id)@) by {
        assert(s2.has(id));
        assert(id != rb);
        assert(s3.has(id) == s2.has(id));
    }
}

/// The key of the sibling a child split off goes right after the child.
#[verifier::spinoff_prover]
proof fn lemma_split_position(
    s0: &NodeStore,
    node: NodeData,
    lo: int,
    hi: int,
    b0: Seq<u8>,
    n: Extent,
    s1: &NodeStore,
    c2: NodeData,
    rc: InsertResult,
    s2: &NodeStore,
)
    requires
        child_step(s0, node, lo, hi, b0, n, s1, c2, rc, s2),
        rc is Split,
    ensures
        ({
            let idx = node.indices();
            let k = child_for(idx, n.logical_start as int);
            let upd = idx.update(
                k,
                IndexEntry {
                    logical_start: result_min(rc) as u32,
                    child_block: idx[k].child_block,
                    _reserved: idx[k]._reserved,
                },
            );
            index_position(upd, rc->key as int) == k + 1
        }),
{
    reveal(insert_ready);
    reveal(insert_done);
    reveal(kept_outside);
    reveal(child_step);
    let idx = node.indices();
    let sk = n.logical_start as int;
    let k = child_for(idx, sk);
    lemma_child_for(idx, sk);
    lemma_descend_ready(s0, node, lo, hi, b0, n);
    assert(tree_wf(s0, node, lo, hi));
    let nm = result_min(rc);
    assert(0 <= nm <= u32::MAX);
    let upd = idx.update(
        k,
        IndexEntry { logical_start: nm as u32, child_block: idx[k].child_block, _reserved: idx[k]._reserved },
    );
    let key = rc->key as int;
    assert forall|j: int| 0 <= j < k + 1 implies #[trigger] upd[j].logical_start < key by {
        if j < k {
            assert(idx[j].logical_start < idx[k].logical_start);
        }
    }
    lemma_index_position_is(upd, key, k + 1);
}

/// A sound extent tree: a search tree over the logical blocks below
/// `u32::MAX` whose nodes are in the store and whose blocks each hold one
/// node, under a root that holds as many entries as it counts.
pub open spec fn tree_sound(store: &NodeStore, root: NodeData) -> bool {
    &&& subtree_sound(store, root, 0, u32::MAX as int)
    &&& root.entries.len() == root.entry_count
}

/// An insert of `n` into the tree under `root` keeps it a search tree: `n`
/// is not empty and ends within the bounds of the leaf it reaches.
pub open spec fn insert_fits(store: &NodeStore, root: NodeData, n: Extent) -> bool {
    &&& n.length > 0
    &&& ext_end(n) <= path_hi(store, root, u32::MAX as int, n.logical_start as int)
}

/// Two nodes with the same depth and entries have the same subtree.
#[verifier::spinoff_prover]
proof fn lemma_same_entries(s: &NodeStore, a: NodeData, b: NodeData)
    requires
        a.depth == b.depth,
        a.entries == b.entries,
    ensures
        forall|lo: int, hi: int| #[trigger] tree_wf(s, a, lo, hi) == tree_wf(s, b, lo, hi),
        tree_ok(s, a) == tree_ok(s, b),
        tree_disjoint(s, a) == tree_disjoint(s, b),
        tree_extents(s, a) == tree_extents(s, b),
        forall|id: u32| #[trigger] in_tree(s, a, id) == in_tree(s, b, id),
{
    assert(a.indices() == b.indices());
    assert(a.extents() == b.extents());
    if a.depth > 0 {
        lemma_children_extents_eq(s, a, 0, s, b, 0, a.entries.len() as int);
        assert forall|id: u32| #[trigger] in_tree(s, a, id) == in_tree(s, b, id) by {
            lemma_in_tree(s, a, id);
            lemma_in_tree(s, b, id);
            if in_tree(s, a, id) {
                let i = choose|i: int| 0 <= i < a.entries.len() && #[trigger] in_child(s, a, i, id);
                assert(in_child(s, b, i, id));
            }
            if in_tree(s, b, id) {
                let i = choose|i: int| 0 <= i < b.entries.len() && #[trigger] in_child(s, b, i, id);
                assert(in_child(s, a, i, id));
            }
        }
        assert forall|i: int, id: u32| 0 <= i < a.entries.len() implies #[trigger] in_child(s, a, i, id)
            == in_child(s, b, i, id) by {
        }
        if tree_disjoint(s, a) {
            assert forall|i: int, j: int, id: u32|
                0 <= i < j < b.entries.len() && #[trigger] in_child(s, b, i, id) implies !#[trigger] in_child(s, b, j, id) by {
                assert(in_child(s, a, i, id));
                assert(in_child(s, a, j, id) == in_child(s, b, j, id));
            }
            assert forall|i: int| 0 <= i < b.entries.len() implies {
                let c = s.node((#[trigger] b.indices()[i]).child_block)@;
                c.depth < b.depth ==> tree_disjoint(s, c)
            } by {
                assert(a.indices()[i] == b.indices()[i]);
            }
        }
        if tree_disjoint(s, b) {
            assert forall|i: int, j: int, id: u32|
                0 <= i < j < a.entries.len() && #[trigger] in_child(s, a, i, id) implies !#[trigger] in_child(s, a, j, id) by {
                assert(in_child(s, b, i, id));
                assert(in_child(s, a, j, id) == in_child(s, b, j, id));
            }
            assert forall|i: int| 0 <= i < a.entries.len() implies {
                let c = s.node((#[trigger] a.indices()[i]).child_block)@;
                c.depth < a.depth ==> tree_disjoint(s, c)
            } by {
                assert(a.indices()[i] == b.indices()[i]);
            }
        }
    }
}

/// A root that split moves its contents to a free block, and becomes an
/// internal node one level higher over that block and the split-off sibling.
#[verifier::spinoff_prover]
#[verifier::rlimit(100)]
proof fn lemma_root_split(
    s0: &NodeStore,
    root0: NodeData,
    b0: Seq<u8>,
    n: Extent,
    s1: &NodeStore,
    root1: NodeData,
    r: InsertResult,
    b1: Seq<u8>,
    s2: &NodeStore,
    left: NodeData,
    lb: u32,
    root2: NodeData,
)
    requires
        insert_done(s0, root0, s1, root1, r, 0, u32::MAX as int, n),
        r is Split,
        store_in_bitmap(s1, b1),
        kept_outside(s0, s1, root0),
        lb < bit_count(b1),
        !bits(b1)[lb as int],
        put_of(s1, s2, lb, left),
        left.depth == root1.depth,
        left.entries == root1.entries,
        left.entry_count == root1.entry_count,
        left.max_entries == BLOCK_MAX_ENTRIES,
        root2.depth == root1.depth + 1,
        root2.entries.len() == 2,
        root2.entry_count == 2,
        root2.indices() == seq![
            IndexEntry { logical_start: first_key_of(root1) as u32, child_block: lb, _reserved: 0 },
            IndexEntry { logical_start: r->key, child_block: r->new_block, _reserved: 0 },
        ],
    ensures
        tree_sound(s2, root2),
        maps_after_insert(tree_extents(s0, root0), tree_extents(s2, root2), n),
        kept_outside(s0, s2, root0),
{
    reveal(insert_done);
    let key = r->key;
    let nb = r->new_block;
    let sib = s1.node(nb)@;
    let nm = result_min(r);
    assert(!s1.has(lb)) by {
        if s1.has(lb) {
            assert(bits(b1)[lb as int]);
        }
    }
    lemma_put_fresh(s1, s2, lb, left, root1);
    lemma_put_fresh(s1, s2, lb, left, sib);
    lemma_frame(s1, s2, root1);
    lemma_frame(s1, s2, sib);
    lemma_same_entries(s2, root1, left);
    assert(nb != lb);
    assert(s2.has(nb) == s1.has(nb));
    assert(s2.node(nb)@ == sib);
    let idx = root2.indices();
    assert(idx[0].logical_start == nm);
    assert(child_hi(idx, 0, u32::MAX as int) == key);
    assert(child_hi(idx, 1, u32::MAX as int) == u32::MAX);
    assert(subtree_sound(s1, root1, nm, key as int));
    assert(tree_wf(s2, root1, nm, key as int));
    assert(subtree_sound(s2, left, nm, key as int));
    assert(child_sound(s2, root2, 0, u32::MAX as int));
    assert(child_sound(s2, root2, 1, u32::MAX as int));
    lemma_blocks_stored(s1, root1);
    lemma_blocks_stored(s1, sib);
    assert forall|i: int, j: int, id: u32|
        0 <= i < j < root2.entries.len() && #[trigger] in_child(s2, root2, i, id) implies !#[trigger] in_child(
            s2,
            root2,
            j,
            id,
        ) by {
        assert(i == 0 && j == 1);
        if in_child(s2, root2, 1, id) {
            if id == lb {
                assert(!in_tree(s1, sib, lb));
            } else {
                assert(in_tree(s2, left, id));
                assert(in_tree(s2, root1, id));
                assert(in_tree(s1, root1, id));
                assert(in_tree(s1, sib, id) || id == nb);
            }
        }
    }
    assert forall|i: int| 0 <= i < idx.len() implies #[trigger] child_sound(s2, root2, i, u32::MAX as int) by {}
    lemma_node_sound(s2, root2, 0, u32::MAX as int);
    assert(children_extents(s2, root2, 0, 0) =~= Seq::<Extent>::empty());
    assert(s2.node(idx[0].child_block)@ == left);
    assert(children_extents(s2, root2, 0, 1) =~= tree_extents(s2, left));
    assert(children_extents(s2, root2, 0, 2) =~= tree_extents(s2, left) + tree_extents(s2, sib));
    assert(tree_extents(s2, root2) =~= tree_extents(s1, root1) + tree_extents(s1, sib));
    lemma_kept_put_fresh(s0, root0, s1, s2, lb, left);
}

/// After an insert of `n` that kept the tree sound and mapped as the insert
/// says, a point lookup of a logical block of `n` finds an extent that maps
/// it to `n`'s physical block, and a lookup of any other logical block maps
/// it exactly as before the insert.
#[verifier::spinoff_prover]
pub proof fn law_lookup_after_insert(
    s0: &NodeStore,
    root0: NodeData,
    s1: &NodeStore,
    root1: NodeData,
    n: Extent,
    l: int,
    p: int,
)
    requires
        tree_sound(s0, root0),
        tree_sound(s1, root1),
        maps_after_insert(tree_extents(s0, root0), tree_extents(s1, root1), n),
    ensures
        n.logical_start <= l < ext_end(n) ==> (looked_up(s1, root1, l) matches Some(e) && ext_maps(
            e,
            l,
            n.physical_start + (l - n.logical_start),
        )),
        !(n.logical_start <= l < ext_end(n)) ==> ((looked_up(s1, root1, l) matches Some(e) && ext_maps(
            e,
            l,
            p,
        )) == (looked_up(s0, root0, l) matches Some(e) && ext_maps(e, l, p))),
{
    let q = n.physical_start + (l - n.logical_start);
    law_lookup_agrees_with_mapping(s1, root1, 0, u32::MAX as int, l, q);
    law_lookup_agrees_with_mapping(s1, root1, 0, u32::MAX as int, l, p);
    law_lookup_agrees_with_mapping(s0, root0, 0, u32::MAX as int, l, p);
    assert(maps_to(tree_extents(s1, root1), l, q) == if n.logical_start <= l < ext_end(n) {
        q == n.physical_start + (l - n.logical_start)
    } else {
        maps_to(tree_extents(s0, root0), l, q)
    });
    assert(maps_to(tree_extents(s1, root1), l, p) == if n.logical_start <= l < ext_end(n) {
        p == n.physical_start + (l - n.logical_start)
    } else {
        maps_to(tree_extents(s0, root0), l, p)
    });
}

/// Storing a node in a block that is not below `node` changes nothing
/// below `node`.
proof fn lemma_put_outside(s2: &NodeStore, s3: &NodeStore, id: u32, x: NodeData, node: NodeData)
    requires
        put_of(s2, s3, id, x),
        !in_tree(s2, node, id),
        tree_ok(s2, node),
    ensures
        agrees_below(s2, s3, node),
{
    lemma_blocks_stored(s2, node);
    assert forall|b: u32| #[trigger] in_tree(s2, node, b) implies s2.has(b) && s3.has(b) && s3.node(
        b,
    )@ == s2.node(b)@ by {
        assert(b != id);
        assert(s3.has(b) == s2.has(b));
    }
}

/// Two sound nodes of one depth side by side, the first below `mid` and the
/// second from it, with different blocks, make one sound node.
#[verifier::spinoff_prover]
#[verifier::rlimit(100)]
proof fn lemma_concat_sound(s: &NodeStore, a: NodeData, b: NodeData, c: NodeData, lo: int, mid: int, hi: int)
    requires
        a.depth == b.depth,
        c.depth == a.depth,
        c.entries == a.entries + b.entries,
        lo <= mid <= hi,
        subtree_sound(s, a, lo, mid),
        subtree_sound(s, b, mid, hi),
        forall|id: u32| #[trigger] in_tree(s, a, id) ==> !in_tree(s, b, id),
    ensures
        subtree_sound(s, c, lo, hi),
        tree_extents(s, c) == tree_extents(s, a) + tree_extents(s, b),
        forall|id: u32| #[trigger] in_tree(s, c, id) == (in_tree(s, a, id) || in_tree(s, b, id)),
{
    let na = a.entries.len() as int;
    let nb = b.entries.len() as int;
    assert(c.indices() =~= a.indices() + b.indices());
    assert(c.extents() =~= a.extents() + b.extents());
    if c.depth == 0 {
        assert forall|j: int| 0 <= j < a.extents().len() implies ext_end(#[trigger] a.extents()[j]) <= mid by {}
        assert forall|j: int| 0 <= j < b.extents().len() implies #[trigger] b.extents()[j].logical_start >= mid by {}
        lemma_wf_concat(a.extents(), b.extents(), mid);
        lemma_within_mono(a.extents(), lo, mid, lo, hi);
        lemma_within_mono(b.extents(), mid, hi, lo, hi);
        lemma_within_concat(a.extents(), b.extents(), lo, hi);
    } else {
        let ai = a.indices();
        let bi = b.indices();
        let ci = c.indices();
        assert(same_children(a, c, 0)) by {
            assert forall|j: int| 0 <= j < ai.len() implies #[trigger] ai[j] == ci[0 + j] by {}
        }
        assert(same_children(b, c, na)) by {
            assert forall|j: int| 0 <= j < bi.len() implies #[trigger] bi[j] == ci[na + j] by {}
        }
        assert forall|j: int, id: u32| 0 <= j < na implies #[trigger] in_child(s, c, j, id) == in_child(s, a, j, id) by {
            assert(ci[j] == ai[j]);
        }
        assert forall|j: int, id: u32| na <= j < na + nb implies #[trigger] in_child(s, c, j, id) == in_child(s, b, j - na, id) by {
            assert(ci[j] == bi[j - na]);
        }
        assert(bi[0].logical_start >= mid);
        assert forall|i: int, j: int| 0 <= i < j < ci.len() implies #[trigger] ci[i].logical_start < #[trigger] ci[j].logical_start by {
            if j < na {
                assert(ai[i].logical_start < ai[j].logical_start);
            } else if i >= na {
                assert(bi[i - na].logical_start < bi[j - na].logical_start);
            } else {
                assert(ai[i].logical_start < mid);
                assert(bi[j - na].logical_start >= mid);
            }
        }
        assert forall|i: int| 0 <= i < ci.len() implies lo <= #[trigger] ci[i].logical_start < hi by {
            if i < na {
                assert(lo <= ai[i].logical_start < mid);
            } else {
                assert(mid <= bi[i - na].logical_start < hi);
            }
        }
        assert forall|j: int| 0 <= j < ci.len() implies #[trigger] child_sound(s, c, j, hi) by {
            if j < na {
                let cb = ai[j].child_block;
                assert(ci[j] == ai[j]);
                assert(tree_wf(s, s.node(cb)@, ai[j].logical_start as int, child_hi(ai, j, mid)));
                assert(tree_ok(s, s.node(cb)@));
                assert(tree_disjoint(s, s.node(cb)@));
                if j + 1 < na {
                    assert(child_hi(ci, j, hi) == child_hi(ai, j, mid)) by {
                        assert(ci[j + 1] == ai[j + 1]);
                    }
                } else {
                    assert(ci[j + 1] == bi[0]);
                    lemma_wf_mono(s, s.node(cb)@, ai[j].logical_start as int, mid, ai[j].logical_start as int, child_hi(ci, j, hi));
                }
            } else {
                let cb = bi[j - na].child_block;
                assert(ci[j] == bi[j - na]);
                assert(tree_wf(s, s.node(cb)@, bi[j - na].logical_start as int, child_hi(bi, j - na, hi)));
                assert(tree_ok(s, s.node(cb)@));
                assert(tree_disjoint(s, s.node(cb)@));
                assert(child_hi(ci, j, hi) == child_hi(bi, j - na, hi)) by {
                    if j + 1 < ci.len() {
                        assert(ci[j + 1] == bi[j + 1 - na]);
                    }
                }
            }
        }
        assert forall|i: int, j: int, id: u32|
            0 <= i < j < c.entries.len() && #[trigger] in_child(s, c, i, id) implies !#[trigger] in_child(s, c, j, id) by {
            if j < na {
                assert(in_child(s, a, i, id));
                assert(!in_child(s, a, j, id));
            } else if i >= na {
                assert(in_child(s, b, i - na, id));
                assert(!in_child(s, b, j - na, id));
            } else {
                assert(in_child(s, a, i, id));
                lemma_in_child_in_tree(s, a, i, id);
                if in_child(s, b, j - na, id) {
                    lemma_in_child_in_tree(s, b, j - na, id);
                }
            }
        }
        lemma_node_sound(s, c, lo, hi);
        assert forall|id: u32| #[trigger] in_tree(s, c, id) == (in_tree(s, a, id) || in_tree(s, b, id)) by {
            lemma_in_tree(s, c, id);
            lemma_in_tree(s, a, id);
            lemma_in_tree(s, b, id);
            if in_tree(s, c, id) {
                let j = choose|j: int| 0 <= j < c.entries.len() && #[trigger] in_child(s, c, j, id);
                if j < na {
                    assert(in_child(s, a, j, id));
                } else {
                    assert(in_child(s, b, j - na, id));
                }
            }
            if in_tree(s, a, id) {
                let j = choose|j: int| 0 <= j < a.entries.len() && #[trigger] in_child(s, a, j, id);
                assert(in_child(s, c, j, id));
            }
            if in_tree(s, b, id) {
                let j = choose|j: int| 0 <= j < b.entries.len() && #[trigger] in_child(s, b, j, id);
                assert(in_child(s, c, j + na, id));
            }
        }
        lemma_children_split(s, c, 0, na, na + nb);
        assert forall|j: int| 0 <= j < na implies {
            let c1 = s.node((#[trigger] ci[0 + j]).child_block)@;
            let c0 = s.node(ai[0 + j].child_block)@;
            &&& (c1.depth < c.depth) == (c0.depth < c.depth)
            &&& c1.depth < c.depth ==> tree_extents(s, c1) == tree_extents(s, c0)
        } by {
            assert(ci[0 + j] == ai[0 + j]);
        }
        lemma_children_extents_eq(s, c, 0, s, a, 0, na);
        assert forall|j: int| 0 <= j < nb implies {
            let c1 = s.node((#[trigger] ci[na + j]).child_block)@;
            let c0 = s.node(bi[0 + j].child_block)@;
            &&& (c1.depth < c.depth) == (c0.depth < c.depth)
            &&& c1.depth < c.depth ==> tree_extents(s, c1) == tree_extents(s, c0)
        } by {
            assert(ci[na + j] == bi[0 + j]);
        }
        lemma_children_extents_eq(s, c, na, s, b, 0, nb);
    }
}

/// Cutting a sound node in two before entry `j` gives a sound node below
/// the key of entry `j` and a sound node from it, with different blocks and
/// the same extents in order.
#[verifier::spinoff_prover]
#[verifier::rlimit(100)]
proof fn lemma_part_sound(s: &NodeStore, m: NodeData, lo: int, hi: int, j: int, p: NodeData, q: NodeData)
    requires
        subtree_sound(s, m, lo, hi),
        p.depth == m.depth,
        q.depth == m.depth,
        0 < j < m.entries.len(),
        p.entries == m.entries.take(j),
        q.entries == m.entries.skip(j),
    ensures
        lo <= first_key_of(q) < hi,
        first_key_of(p) < first_key_of(q),
        first_key_of(p) == first_key_of(m),
        subtree_sound(s, p, lo, first_key_of(q)),
        subtree_sound(s, q, first_key_of(q), hi),
        tree_extents(s, p) + tree_extents(s, q) == tree_extents(s, m),
        forall|id: u32| #[trigger] in_tree(s, p, id) ==> in_tree(s, m, id) && !in_tree(s, q, id),
        forall|id: u32| #[trigger] in_tree(s, q, id) ==> in_tree(s, m, id),
{
    let n = m.entries.len() as int;
    if m.depth == 0 {
        let exts = m.extents();
        assert(p.extents() =~= exts.take(j));
        assert(q.extents() =~= exts.skip(j));
        lemma_leaf_split(exts, lo, hi, j);
        lemma_within_mono(exts.take(j), exts[0].logical_start as int, exts[j].logical_start as int, lo, exts[j].logical_start as int);
    } else {
        let mi = m.indices();
        assert(p.indices() =~= mi.take(j));
        assert(q.indices() =~= mi.skip(j));
        assert(same_children(p, m, 0)) by {
            assert forall|i: int| 0 <= i < p.indices().len() implies #[trigger] p.indices()[i] == mi[0 + i] by {}
        }
        assert(same_children(q, m, j)) by {
            assert forall|i: int| 0 <= i < q.indices().len() implies #[trigger] q.indices()[i] == mi[j + i] by {}
        }
        let key = mi[j].logical_start as int;
        assert(child_hi(mi, j - 1, hi) == key);
        assert(child_hi(mi, n - 1, hi) == hi);
        lemma_run_sound(s, m, lo, hi, p, 0, key);
        lemma_run_sound(s, m, lo, hi, q, j, hi);
        assert(p.indices()[0] == mi[0]);
        assert(q.indices()[0] == mi[j]);
        assert(mi[0].logical_start < mi[j].logical_start);
        lemma_wf_mono(s, p, mi[0].logical_start as int, key, lo, key);
        lemma_children_split(s, m, 0, j, n);
        assert forall|id: u32| #[trigger] in_tree(s, p, id) implies in_tree(s, m, id) && !in_tree(s, q, id) by {
            if in_tree(s, q, id) {
                lemma_in_tree(s, q, id);
                let b = choose|b: int| 0 <= b < q.entries.len() && #[trigger] in_child(s, q, b, id);
                assert(in_child(s, m, j + b, id));
                lemma_in_tree(s, p, id);
                let a = choose|a: int| 0 <= a < p.entries.len() && #[trigger] in_child(s, p, a, id);
                assert(in_child(s, m, a, id));
            }
        }
    }
}

/// The children of `v` are those of `node` with the `ow` children from `a`
/// replaced by `nw` new ones, the first of which keeps its key.
spec fn window_of(node: NodeData, v: NodeData, a: int, ow: int, nw: int) -> bool {
    let ni = node.indices();
    let vi = v.indices();
    &&& v.depth == node.depth
    &&& 0 <= a
    &&& 1 <= ow
    &&& 1 <= nw
    &&& a + ow <= ni.len()
    &&& vi.len() == ni.len() - ow + nw
    &&& forall|j: int| 0 <= j < a ==> #[trigger] vi[j] == ni[j]
    &&& forall|j: int| a + nw <= j < vi.len() ==> #[trigger] vi[j] == ni[j - nw + ow]
    &&& vi[a].logical_start == ni[a].logical_start
}

/// Block `id` is below one of the children `a..a + ow` of `node`.
spec fn in_window(s: &NodeStore, node: NodeData, a: int, ow: int, id: u32) -> bool {
    exists|j: int| a <= j < a + ow && #[trigger] in_child(s, node, j, id)
}

/// A window of children of `node`, from `a`, replaced by new ones in
/// `v` (in `s3`), as a delete of `[start, end)` leaves them: the other
/// children keep their subtrees; the new ones are sound in their bounds,
/// use only blocks of the window, and map what the window mapped except the
/// range, which lies within the window.
spec fn window_step(
    s0: &NodeStore,
    node: NodeData,
    lo: int,
    hi: int,
    s3: &NodeStore,
    v: NodeData,
    a: int,
    ow: int,
    nw: int,
    start: int,
    end: int,
) -> bool {
    let ni = node.indices();
    let vi = v.indices();
    &&& subtree_sound(s0, node, lo, hi)
    &&& node.depth > 0
    &&& window_of(node, v, a, ow, nw)
    &&& forall|j: int|
        0 <= j < ni.len() && !(a <= j < a + ow) ==> {
            let cb = (#[trigger] ni[j]).child_block;
            &&& agrees_below(s0, s3, s0.node(cb)@)
            &&& s3.has(cb)
            &&& s3.node(cb)@ == s0.node(cb)@
        }
    &&& forall|i: int, j: int|
        a <= i < j < a + nw ==> #[trigger] vi[i].logical_start < #[trigger] vi[j].logical_start
    &&& forall|j: int| a <= j < a + nw ==> #[trigger] vi[j].logical_start < child_hi(ni, a + ow - 1, hi)
    &&& forall|j: int| a <= j < a + nw ==> #[trigger] child_sound(s3, v, j, hi)
    &&& forall|j: int, id: u32|
        a <= j < a + nw && #[trigger] in_child(s3, v, j, id) ==> in_window(s0, node, a, ow, id)
    &&& forall|i: int, j: int, id: u32|
        a <= i < j < a + nw && #[trigger] in_child(s3, v, i, id) ==> !#[trigger] in_child(s3, v, j, id)
    &&& a > 0 ==> start >= ni[a].logical_start
    &&& end <= child_hi(ni, a + ow - 1, hi)
    &&& forall|l: int, p: int|
        #[trigger] maps_to(children_extents(s3, v, a, a + nw), l, p) == (maps_to(
            children_extents(s0, node, a, a + ow),
            l,
            p,
        ) && !(start <= l < end))
}

#[verifier::spinoff_prover]
#[verifier::rlimit(100)]
proof fn lemma_window_keys(
    s0: &NodeStore,
    node: NodeData,
    lo: int,
    hi: int,
    s3: &NodeStore,
    v: NodeData,
    a: int,
    ow: int,
    nw: int,
    start: int,
    end: int,
)
    requires
        window_step(s0, node, lo, hi, s3, v, a, ow, nw, start, end),
    ensures
        forall|i: int, j: int|
            0 <= i < j < v.indices().len() ==> #[trigger] v.indices()[i].logical_start
                < #[trigger] v.indices()[j].logical_start,
        forall|i: int| 0 <= i < v.indices().len() ==> lo <= #[trigger] v.indices()[i].logical_start < hi,
        forall|j: int| 0 <= j < v.indices().len() ==> #[trigger] child_sound(s3, v, j, hi),
        forall|j: int, id: u32|
            0 <= j < v.indices().len() && !(a <= j < a + nw) ==> #[trigger] in_child(s3, v, j, id)
                == in_child(s0, node, if j < a { j } else { j - nw + ow }, id),
        v.depth > 0,
        v.indices().len() > 0,
{
    let ni = node.indices();
    let vi = v.indices();
    let m = ni.len() as int;
    let m2 = vi.len() as int;
    let whi = child_hi(ni, a + ow - 1, hi);
    assert(tree_wf(s0, node, lo, hi));
    assert(tree_ok(s0, node));
    assert(tree_disjoint(s0, node));
    assert(whi <= hi) by {
        if a + ow < m {
            assert(ni[a + ow].logical_start < hi);
        }
    }
    // Children outside the window keep their nodes and subtrees.
    assert forall|j: int, id: u32| 0 <= j < m2 && !(a <= j < a + nw) implies #[trigger] in_child(s3, v, j, id)
        == in_child(s0, node, if j < a { j } else { j - nw + ow }, id) by {
        let o = if j < a { j } else { j - nw + ow };
        assert(vi[j] == ni[o]);
        lemma_frame(s0, s3, s0.node(ni[o].child_block)@);
    }
    assert forall|i: int, j: int| 0 <= i < j < m2 implies #[trigger] vi[i].logical_start < #[trigger] vi[j].logical_start by {
        if j < a {
            assert(ni[i].logical_start < ni[j].logical_start);
        } else if i >= a + nw {
            assert(ni[i - nw + ow].logical_start < ni[j - nw + ow].logical_start);
        } else if i < a && j < a + nw {
            assert(ni[i].logical_start < ni[a].logical_start);
            if j > a {
                assert(vi[a].logical_start < vi[j].logical_start);
            }
        } else if i < a {
            assert(ni[i].logical_start < ni[j - nw + ow].logical_start);
        } else if j < a + nw {
        } else {
            assert(vi[i].logical_start < whi);
            assert(j - nw + ow < m);
            assert(a + ow < m);
            assert(whi == ni[a + ow].logical_start);
            if j - nw + ow > a + ow {
                assert(ni[a + ow].logical_start < ni[j - nw + ow].logical_start);
            }
        }
    }
    assert forall|i: int| 0 <= i < m2 implies lo <= #[trigger] vi[i].logical_start < hi by {
        if i < a {
            assert(lo <= ni[i].logical_start < hi);
        } else if i >= a + nw {
            assert(lo <= ni[i - nw + ow].logical_start < hi);
        } else {
            assert(lo <= ni[a].logical_start);
            if i > a {
                assert(vi[a].logical_start < vi[i].logical_start);
            }
        }
    }
    assert forall|j: int| 0 <= j < m2 implies #[trigger] child_sound(s3, v, j, hi) by {
        if !(a <= j < a + nw) {
            let o = if j < a { j } else { j - nw + ow };
            assert(vi[j] == ni[o]);
            let c = s0.node(ni[o].child_block)@;
            lemma_frame(s0, s3, c);
            assert(tree_wf(s0, c, ni[o].logical_start as int, child_hi(ni, o, hi)));
            assert(tree_ok(s0, c));
            assert(tree_disjoint(s0, c));
            assert(child_hi(vi, j, hi) == child_hi(ni, o, hi)) by {
                if j + 1 < m2 {
                    if j + 1 < a {
                        assert(vi[j + 1] == ni[o + 1]);
                    } else if j + 1 == a {
                        assert(vi[a].logical_start == ni[a].logical_start);
                    } else {
                        assert(vi[j + 1] == ni[o + 1]);
                    }
                }
            }
        }
    }
}

#[verifier::spinoff_prover]
#[verifier::rlimit(100)]
proof fn lemma_window_blocks(
    s0: &NodeStore,
    node: NodeData,
    lo: int,
    hi: int,
    s3: &NodeStore,
    v: NodeData,
    a: int,
    ow: int,
    nw: int,
    start: int,
    end: int,
)
    requires
        window_step(s0, node, lo, hi, s3, v, a, ow, nw, start, end),
    ensures
        subtree_sound(s3, v, lo, hi),
        forall|id: u32| #[trigger] in_tree(s3, v, id) ==> in_tree(s0, node, id),
{
    let ni = node.indices();
    let vi = v.indices();
    let m = ni.len() as int;
    let m2 = vi.len() as int;
    let whi = child_hi(ni, a + ow - 1, hi);
    assert(tree_wf(s0, node, lo, hi));
    assert(tree_ok(s0, node));
    assert(tree_disjoint(s0, node));
    lemma_window_keys(s0, node, lo, hi, s3, v, a, ow, nw, start, end);
    assert(tree_disjoint(s0, node));
    // Blocks: outside the window they are the old children's; inside, the
    // window's; different children's blocks stay different.
    assert forall|i: int, j: int, id: u32|
        0 <= i < j < v.entries.len() && #[trigger] in_child(s3, v, i, id) implies !#[trigger] in_child(s3, v, j, id) by {
        if in_child(s3, v, j, id) {
            let iw = a <= i < a + nw;
            let jw = a <= j < a + nw;
            if !iw && !jw {
                let oi = if i < a { i } else { i - nw + ow };
                let oj = if j < a { j } else { j - nw + ow };
                assert(in_child(s0, node, oi, id));
                assert(!in_child(s0, node, oj, id));
            } else if iw && jw {
            } else if iw {
                let oj = if j < a { j } else { j - nw + ow };
                assert(in_window(s0, node, a, ow, id));
                let w = choose|w: int| a <= w < a + ow && #[trigger] in_child(s0, node, w, id);
                assert(in_child(s0, node, oj, id));
                assert(oj >= a + ow);
                assert(!in_child(s0, node, oj, id));
            } else {
                let oi = if i < a { i } else { i - nw + ow };
                assert(in_window(s0, node, a, ow, id));
                let w = choose|w: int| a <= w < a + ow && #[trigger] in_child(s0, node, w, id);
                assert(in_child(s0, node, oi, id));
                assert(oi < a);
                assert(!in_child(s0, node, w, id));
            }
        }
    }
    lemma_node_sound(s3, v, lo, hi);
    assert forall|id: u32| #[trigger] in_tree(s3, v, id) implies in_tree(s0, node, id) by {
        lemma_in_tree(s3, v, id);
        let j = choose|j: int| 0 <= j < v.entries.len() && #[trigger] in_child(s3, v, j, id);
        if a <= j < a + nw {
            let w = choose|w: int| a <= w < a + ow && #[trigger] in_child(s0, node, w, id);
            lemma_in_child_in_tree(s0, node, w, id);
        } else {
            let o = if j < a { j } else { j - nw + ow };
            lemma_in_child_in_tree(s0, node, o, id);
        }
    }
}

#[verifier::spinoff_prover]
#[verifier::rlimit(100)]
proof fn lemma_window_maps(
    s0: &NodeStore,
    node: NodeData,
    lo: int,
    hi: int,
    s3: &NodeStore,
    v: NodeData,
    a: int,
    ow: int,
    nw: int,
    start: int,
    end: int,
)
    requires
        window_step(s0, node, lo, hi, s3, v, a, ow, nw, start, end),
    ensures
        forall|l: int, p: int|
            #[trigger] maps_to(tree_extents(s3, v), l, p) == (maps_to(tree_extents(s0, node), l, p) && !(
            start <= l < end)),
{
    let ni = node.indices();
    let vi = v.indices();
    let m = ni.len() as int;
    let m2 = vi.len() as int;
    let whi = child_hi(ni, a + ow - 1, hi);
    assert(tree_wf(s0, node, lo, hi));
    assert(tree_ok(s0, node));
    assert(tree_disjoint(s0, node));
    assert(tree_wf(s0, node, lo, hi));
    // Extents: the same before and after the window, and the window's.
    lemma_children_split(s0, node, 0, a, m);
    lemma_children_split(s0, node, a, a + ow, m);
    lemma_children_split(s3, v, 0, a, m2);
    lemma_children_split(s3, v, a, a + nw, m2);
    let a0 = children_extents(s0, node, 0, a);
    let w0 = children_extents(s0, node, a, a + ow);
    let b0 = children_extents(s0, node, a + ow, m);
    let a3 = children_extents(s3, v, 0, a);
    let w3 = children_extents(s3, v, a, a + nw);
    let b3 = children_extents(s3, v, a + nw, m2);
    assert forall|j: int| 0 <= j < a implies {
        let c1 = s3.node((#[trigger] vi[0 + j]).child_block)@;
        let c0 = s0.node(ni[0 + j].child_block)@;
        &&& (c1.depth < v.depth) == (c0.depth < v.depth)
        &&& c1.depth < v.depth ==> tree_extents(s3, c1) == tree_extents(s0, c0)
    } by {
        assert(vi[0 + j] == ni[0 + j]);
        lemma_frame(s0, s3, s0.node(ni[j].child_block)@);
    }
    lemma_children_extents_eq(s3, v, 0, s0, node, 0, a);
    assert forall|j: int| 0 <= j < m - a - ow implies {
        let c1 = s3.node((#[trigger] vi[a + nw + j]).child_block)@;
        let c0 = s0.node(ni[a + ow + j].child_block)@;
        &&& (c1.depth < v.depth) == (c0.depth < v.depth)
        &&& c1.depth < v.depth ==> tree_extents(s3, c1) == tree_extents(s0, c0)
    } by {
        assert(vi[a + nw + j] == ni[a + ow + j]);
        lemma_frame(s0, s3, s0.node(ni[a + ow + j].child_block)@);
    }
    lemma_children_extents_eq(s3, v, a + nw, s0, node, a + ow, m - a - ow);
    if a > 0 {
        lemma_children_within(s0, node, lo, hi, 0, a);
    }
    if a + ow < m {
        lemma_children_within(s0, node, lo, hi, a + ow, m);
    }
    assert forall|l: int, p: int| #[trigger] maps_to(tree_extents(s3, v), l, p) == (maps_to(tree_extents(s0, node), l, p)
        && !(start <= l < end)) by {
        assert(tree_extents(s3, v) =~= a3 + (w3 + b3));
        assert(tree_extents(s0, node) =~= a0 + (w0 + b0));
        lemma_maps_to_concat(a3, w3 + b3, l, p);
        lemma_maps_to_concat(w3, b3, l, p);
        lemma_maps_to_concat(a0, w0 + b0, l, p);
        lemma_maps_to_concat(w0, b0, l, p);
        assert(maps_to(w3, l, p) == (maps_to(w0, l, p) && !(start <= l < end)));
        if start <= l < end {
            if a > 0 {
                lemma_within_maps_none(a0, ni[0].logical_start as int, child_hi(ni, a - 1, hi), l, p);
            }
            if a + ow < m {
                lemma_within_maps_none(b0, ni[a + ow].logical_start as int, child_hi(ni, m - 1, hi), l, p);
            }
        }
    }
}

/// Replacing a window of children by new ones that are sound in their
/// bounds, use only blocks of the window, and map what the window mapped
/// except the range `[start, end)`, which lies within the window, gives a
/// sound node that maps what the old one did except that range.
proof fn lemma_window(
    s0: &NodeStore,
    node: NodeData,
    lo: int,
    hi: int,
    s3: &NodeStore,
    v: NodeData,
    a: int,
    ow: int,
    nw: int,
    start: int,
    end: int,
)
    requires
        window_step(s0, node, lo, hi, s3, v, a, ow, nw, start, end),
    ensures
        subtree_sound(s3, v, lo, hi),
        forall|id: u32| #[trigger] in_tree(s3, v, id) ==> in_tree(s0, node, id),
        forall|l: int, p: int|
            #[trigger] maps_to(tree_extents(s3, v), l, p) == (maps_to(tree_extents(s0, node), l, p) && !(
            start <= l < end)),
{
    lemma_window_blocks(s0, node, lo, hi, s3, v, a, ow, nw, start, end);
    lemma_window_maps(s0, node, lo, hi, s3, v, a, ow, nw, start, end);
}

/// A delete of `[start, end)` from the subtree of `node`, bounded by
/// `[lo, hi)`, keeps the search tree: the range ends within the bounds of
/// the leaf that holds `start`, and that leaf has room to count one more
/// extent.
#[verifier::opaque]
pub open spec fn delete_ready(store: &NodeStore, node: NodeData, lo: int, hi: int, start: int, end: int) -> bool {
    &&& subtree_sound(store, node, lo, hi)
    &&& node.entries.len() == node.entry_count
    &&& start <= end
    &&& end <= path_hi(store, node, hi, start)
    &&& reached_leaf(store, node, start).entries.len() < u16::MAX
}

/// What a delete of `[start, end)` left of the subtree of `n1` (bounded by
/// `[lo, hi)` in `s1`): `n2` in `s2` is a sound subtree in the same bounds,
/// uses only blocks that were below `n1`, and maps every logical block
/// outside the range as before and none inside it.
#[verifier::opaque]
pub open spec fn delete_done(
    s1: &NodeStore,
    n1: NodeData,
    s2: &NodeStore,
    n2: NodeData,
    lo: int,
    hi: int,
    start: int,
    end: int,
) -> bool {
    &&& subtree_sound(s2, n2, lo, hi)
    &&& n2.depth == n1.depth
    &&& n2.entries.len() == n2.entry_count
    &&& forall|id: u32| #[trigger] in_tree(s2, n2, id) ==> in_tree(s1, n1, id)
    &&& forall|l: int, p: int|
        #[trigger] maps_to(tree_extents(s2, n2), l, p) == (maps_to(tree_extents(s1, n1), l, p) && !(
        start <= l < end))
}

/// The blocks freed from position `from` of `freed` on were below `n1` and
/// are not below `n2`.
pub open spec fn freed_from(
    s1: &NodeStore,
    n1: NodeData,
    s2: &NodeStore,
    n2: NodeData,
    freed: Seq<u32>,
    from: int,
) -> bool {
    forall|j: int|
        from <= j < freed.len() ==> in_tree(s1, n1, #[trigger] freed[j]) && !in_tree(s2, n2, freed[j])
}

/// A delete that is ready at an internal node is ready at the child it
/// descends into, bounded by the child's key and the next key.
proof fn lemma_del_descend(store: &NodeStore, node: NodeData, lo: int, hi: int, start: int, end: int)
    requires
        node.depth > 0,
        delete_ready(store, node, lo, hi, start, end),
    ensures
        ({
            let idx = node.indices();
            let k = child_for(idx, start);
            let cb = idx[k].child_block;
            let c = store.node(cb)@;
            &&& 0 <= k < idx.len()
            &&& idx.len() >= 1
            &&& store.has(cb)
            &&& c.depth + 1 == node.depth
            &&& c.max_entries <= BLOCK_MAX_ENTRIES
            &&& delete_ready(store, c, idx[k].logical_start as int, child_hi(idx, k, hi), start, end)
            &&& !in_tree(store, c, cb)
            &&& k > 0 ==> start >= idx[k].logical_start
            &&& end <= child_hi(idx, k, hi)
            &&& subtree_sound(store, node, lo, hi)
            &&& node.entries.len() == node.entry_count
        }),
{
    reveal(delete_ready);
    let idx = node.indices();
    let k = child_for(idx, start);
    lemma_child_for(idx, start);
    let cb = idx[k].child_block;
    let c = store.node(cb)@;
    assert(tree_wf(store, c, idx[k].logical_start as int, child_hi(idx, k, hi)));
    assert(tree_ok(store, c));
    assert(tree_disjoint(store, c));
    lemma_blocks_stored(store, c);
    lemma_path_hi_le(store, c, idx[k].logical_start as int, child_hi(idx, k, hi), start);
}

/// The state after an internal node's child `k`, the one a delete of
/// `[start, end)` descends into, took the delete (from `s0` to `s1`,
/// leaving `c2`).
#[verifier::opaque]
spec fn del_step(
    s0: &NodeStore,
    node: NodeData,
    lo: int,
    hi: int,
    start: int,
    end: int,
    s1: &NodeStore,
    c2: NodeData,
) -> bool {
    let idx = node.indices();
    let k = child_for(idx, start);
    let cb = idx[k].child_block;
    &&& node.depth > 0
    &&& delete_ready(s0, node, lo, hi, start, end)
    &&& delete_done(s0, s0.node(cb)@, s1, c2, idx[k].logical_start as int, child_hi(idx, k, hi), start, end)
    &&& kept_outside(s0, s1, s0.node(cb)@)
    &&& c2.max_entries == s0.node(cb)@.max_entries
}

/// After the child step of a delete, every child but the one it descended
/// into keeps its subtree, and the descended child's blocks come from its
/// old subtree.
#[verifier::spinoff_prover]
proof fn lemma_del_step_facts(
    s0: &NodeStore,
    node: NodeData,
    lo: int,
    hi: int,
    start: int,
    end: int,
    s1: &NodeStore,
    c2: NodeData,
)
    requires
        del_step(s0, node, lo, hi, start, end, s1, c2),
    ensures
        ({
            let idx = node.indices();
            let k = child_for(idx, start);
            let cb = idx[k].child_block;
            let ck = s0.node(cb)@;
            &&& 0 <= k < idx.len()
            &&& node.depth > 0
            &&& s0.has(cb)
            &&& ck.depth + 1 == node.depth
            &&& !in_tree(s0, ck, cb)
            &&& subtree_sound(s0, node, lo, hi)
            &&& node.entries.len() == node.entry_count
            &&& k > 0 ==> start >= idx[k].logical_start
            &&& end <= child_hi(idx, k, hi)
            &&& c2.depth == ck.depth
            &&& c2.max_entries <= BLOCK_MAX_ENTRIES
            &&& c2.entries.len() == c2.entry_count
            &&& subtree_sound(s1, c2, idx[k].logical_start as int, child_hi(idx, k, hi))
            &&& forall|id: u32| #[trigger] in_tree(s1, c2, id) ==> in_tree(s0, ck, id)
            &&& forall|l: int, p: int|
                #[trigger] maps_to(tree_extents(s1, c2), l, p) == (maps_to(tree_extents(s0, ck), l, p)
                    && !(start <= l < end))
            &&& forall|j: int|
                0 <= j < idx.len() && j != k ==> {
                    let cj = s0.node((#[trigger] idx[j]).child_block)@;
                    &&& s0.has(idx[j].child_block)
                    &&& s1.has(idx[j].child_block)
                    &&& s1.node(idx[j].child_block)@ == cj
                    &&& agrees_below(s0, s1, cj)
                    &&& idx[j].child_block != cb
                    &&& !in_tree(s0, ck, idx[j].child_block)
                    &&& !in_tree(s0, cj, cb)
                    &&& cj.depth + 1 == node.depth
                    &&& forall|id: u32| #[trigger] in_tree(s0, cj, id) ==> !in_tree(s0, ck, id)
                }
            &&& s1.has(cb)
            &&& forall|id: u32| #[trigger] in_tree(s1, c2, id) ==> s1.has(id) && id != cb
        }),
{
    reveal(del_step);
    reveal(delete_done);
    reveal(kept_outside);
    let idx = node.indices();
    let k = child_for(idx, start);
    let cb = idx[k].child_block;
    let ck = s0.node(cb)@;
    lemma_del_descend(s0, node, lo, hi, start, end);
    lemma_blocks_stored(s1, c2);
    assert forall|j: int| 0 <= j < idx.len() && j != k implies {
        let cj = s0.node((#[trigger] idx[j]).child_block)@;
        &&& s0.has(idx[j].child_block)
        &&& s1.has(idx[j].child_block)
        &&& s1.node(idx[j].child_block)@ == cj
        &&& agrees_below(s0, s1, cj)
        &&& idx[j].child_block != cb
        &&& !in_tree(s0, ck, idx[j].child_block)
        &&& !in_tree(s0, cj, cb)
        &&& cj.depth + 1 == node.depth
        &&& forall|id: u32| #[trigger] in_tree(s0, cj, id) ==> !in_tree(s0, ck, id)
    } by {
        let cbj = idx[j].child_block;
        let cj = s0.node(cbj)@;
        assert(tree_ok(s0, node));
        assert(tree_disjoint(s0, node));
        assert(tree_wf(s0, node, lo, hi));
        lemma_blocks_stored(s0, cj);
        assert forall|id: u32| #[trigger] in_child(s0, node, j, id) implies !in_child(s0, node, k, id) by {
            if j < k {
                assert(!in_child(s0, node, k, id));
            } else if in_child(s0, node, k, id) {
                assert(!in_child(s0, node, j, id));
            }
        }
        assert(in_child(s0, node, j, cbj));
        assert(in_child(s0, node, k, cb));
        assert forall|id: u32| #[trigger] in_tree(s0, cj, id) implies !in_tree(s0, ck, id) by {
            assert(in_child(s0, node, j, id));
        }
        assert forall|id: u32| #[trigger] in_tree(s0, cj, id) implies s0.has(id) && s1.has(id) && s1.node(
            id,
        )@ == s0.node(id)@ by {
            assert(in_child(s0, node, j, id));
            assert(!in_tree(s0, ck, id));
        }
    }
}

/// After the child step of a delete, storing the child back gives the node
/// that the delete leaves when the child did not underflow.
#[verifier::spinoff_prover]
proof fn lemma_del_child_done(
    s0: &NodeStore,
    node: NodeData,
    lo: int,
    hi: int,
    start: int,
    end: int,
    s1: &NodeStore,
    c2: NodeData,
    s2: &NodeStore,
)
    requires
        del_step(s0, node, lo, hi, start, end, s1, c2),
        put_of(s1, s2, node.indices()[child_for(node.indices(), start)].child_block, c2),
    ensures
        delete_done(s0, node, s2, node, lo, hi, start, end),
        kept_outside(s0, s2, node),
        forall|b: u32|
            in_tree(s0, s0.node(node.indices()[child_for(node.indices(), start)].child_block)@, b)
                && !in_tree(s1, c2, b) ==> in_tree(s0, node, b) && !#[trigger] in_tree(s2, node, b),
{
    let ni = node.indices();
    let k = child_for(ni, start);
    let cb = ni[k].child_block;
    let ck = s0.node(cb)@;
    lemma_del_step_facts(s0, node, lo, hi, start, end, s1, c2);
    lemma_put_outside(s1, s2, cb, c2, c2);
    lemma_frame(s1, s2, c2);
    assert(window_of(node, node, k, 1, 1));
    assert forall|j: int| 0 <= j < ni.len() && !(k <= j < k + 1) implies {
        let cbj = (#[trigger] ni[j]).child_block;
        &&& agrees_below(s0, s2, s0.node(cbj)@)
        &&& s2.has(cbj)
        &&& s2.node(cbj)@ == s0.node(cbj)@
    } by {
        let cbj = ni[j].child_block;
        let cj = s0.node(cbj)@;
        assert(s2.has(cbj) == s1.has(cbj));
        assert forall|id: u32| #[trigger] in_tree(s0, cj, id) implies s0.has(id) && s2.has(id) && s2.node(
            id,
        )@ == s0.node(id)@ by {
            assert(id != cb);
            assert(s2.has(id) == s1.has(id));
        }
    }
    assert(tree_wf(s0, node, lo, hi));
    assert(child_sound(s2, node, k, hi));
    assert forall|j: int, id: u32| k <= j < k + 1 && #[trigger] in_child(s2, node, j, id) implies in_window(
        s0,
        node,
        k,
        1,
        id,
    ) by {
        assert(j == k);
        assert(in_child(s0, node, k, id));
    }
    assert(children_extents(s2, node, k, k) =~= Seq::<Extent>::empty());
    assert(children_extents(s0, node, k, k) =~= Seq::<Extent>::empty());
    assert(children_extents(s2, node, k, k + 1) =~= tree_extents(s2, c2));
    assert(children_extents(s0, node, k, k + 1) =~= tree_extents(s0, ck));
    assert(window_step(s0, node, lo, hi, s2, node, k, 1, 1, start, end));
    lemma_window(s0, node, lo, hi, s2, node, k, 1, 1, start, end);
    lemma_window_keys(s0, node, lo, hi, s2, node, k, 1, 1, start, end);
    assert(delete_done(s0, node, s2, node, lo, hi, start, end)) by {
        reveal(delete_done);
    }
    assert(kept_outside(s0, s2, node)) by {
        reveal(del_step);
        lemma_kept_after_put(s0, node, k, s1, s2, c2);
    }
    assert forall|b: u32| in_tree(s0, ck, b) && !in_tree(s1, c2, b) implies in_tree(s0, node, b) && !#[trigger] in_tree(
        s2,
        node,
        b,
    ) by {
        assert(in_child(s0, node, k, b));
        lemma_in_child_in_tree(s0, node, k, b);
        if in_tree(s2, node, b) {
            lemma_in_tree(s2, node, b);
            let j = choose|j: int| 0 <= j < node.entries.len() && #[trigger] in_child(s2, node, j, b);
            if j != k {
                assert(in_child(s0, node, j, b));
                assert(tree_disjoint(s0, node));
                if j < k {
                    assert(!in_child(s0, node, k, b));
                } else {
                    assert(!in_child(s0, node, j, b));
                }
            }
        }
    }
}

/// Two children of a sound node are apart: different blocks, neither
/// below the other, no block below both.
#[verifier::spinoff_prover]
proof fn lemma_children_apart(s: &NodeStore, node: NodeData, lo: int, hi: int, i: int, j: int)
    requires
        subtree_sound(s, node, lo, hi),
        node.depth > 0,
        0 <= i < node.entries.len(),
        0 <= j < node.entries.len(),
        i != j,
    ensures
        ({
            let ci = s.node(node.indices()[i].child_block)@;
            let cj = s.node(node.indices()[j].child_block)@;
            let cbi = node.indices()[i].child_block;
            let cbj = node.indices()[j].child_block;
            &&& cbi != cbj
            &&& !in_tree(s, cj, cbi)
            &&& !in_tree(s, ci, cbi)
            &&& s.has(cbi)
            &&& ci.depth + 1 == node.depth
            &&& forall|id: u32| #[trigger] in_tree(s, ci, id) ==> !in_tree(s, cj, id) && s.has(id)
        }),
{
    let ni = node.indices();
    let cbi = ni[i].child_block;
    let cbj = ni[j].child_block;
    let ci = s.node(cbi)@;
    let cj = s.node(cbj)@;
    assert(tree_ok(s, node));
    assert(tree_disjoint(s, node));
    assert(tree_wf(s, node, lo, hi));
    lemma_blocks_stored(s, ci);
    lemma_blocks_stored(s, cj);
    assert forall|id: u32| #[trigger] in_child(s, node, i, id) implies !in_child(s, node, j, id) by {
        if i < j {
            assert(!in_child(s, node, j, id));
        } else if in_child(s, node, j, id) {
            assert(!in_child(s, node, i, id));
        }
    }
    assert(in_child(s, node, i, cbi));
    assert(in_child(s, node, j, cbj));
    assert forall|id: u32| #[trigger] in_tree(s, ci, id) implies !in_tree(s, cj, id) && s.has(id) by {
        assert(in_child(s, node, i, id));
    }
}

/// The node made of the entries of `p` followed by those of `q`.
spec fn joined_node(p: NodeData, q: NodeData) -> NodeData {
    NodeData { magic: p.magic, depth: p.depth, entry_count: 0, max_entries: 0, entries: p.entries + q.entries }
}

/// A delete's child underflowed, and the child and a neighbour (from child
/// `a` of `node`: the child at `a` when `ka`, else at `a + 1`) were
/// rebalanced: their entries, one after the other, went into `pn` (and
/// `qn`, cut before entry `jsplit`), stored in their blocks (giving `s3`),
/// and `v` is the node with their keys.
spec fn pair_step(
    s0: &NodeStore,
    node: NodeData,
    lo: int,
    hi: int,
    start: int,
    end: int,
    s1: &NodeStore,
    c2: NodeData,
    a: int,
    ka: bool,
    pc: NodeData,
    qc: NodeData,
    nw: int,
    jsplit: int,
    pn: NodeData,
    qn: NodeData,
    s3: &NodeStore,
    v: NodeData,
) -> bool {
    let ni = node.indices();
    let k = child_for(ni, start);
    let cba = ni[a].child_block;
    let cbb = ni[a + 1].child_block;
    let je = pc.entries + qc.entries;
    &&& del_step(s0, node, lo, hi, start, end, s1, c2)
    &&& 0 <= a
    &&& a + 1 < ni.len()
    &&& k == if ka { a } else { a + 1 }
    &&& pc == if ka { c2 } else { s0.node(cba)@ }
    &&& qc == if ka { s0.node(cbb)@ } else { c2 }
    &&& (nw == 1 || nw == 2)
    &&& pn.depth == pc.depth
    &&& pn.entries.len() == pn.entry_count
    &&& pn.max_entries <= BLOCK_MAX_ENTRIES
    &&& nw == 1 ==> pn.entries == je
    &&& nw == 2 ==> {
        &&& 0 < jsplit < je.len()
        &&& pn.entries == je.take(jsplit)
        &&& qn.entries == je.skip(jsplit)
        &&& qn.depth == pc.depth
        &&& qn.entries.len() == qn.entry_count
        &&& qn.max_entries <= BLOCK_MAX_ENTRIES
        &&& s3.has(cbb)
        &&& s3.node(cbb)@ == qn
        &&& v.indices()[a + 1].logical_start == first_key_of(qn)
        &&& v.indices()[a + 1].child_block == cbb
    }
    &&& s3.has(cba)
    &&& s3.node(cba)@ == pn
    &&& forall|o: u32|
        #![trigger s3.has(o)]
        o != cba && (nw == 1 || o != cbb) ==> s3.has(o) == s1.has(o) && (s1.has(o) ==> s3.node(o)@
            == s1.node(o)@)
    &&& window_of(node, v, a, 2, nw)
    &&& v.indices()[a].child_block == cba
}

/// The rebalanced pair, before it is cut: their entries one after the
/// other make a sound node in `s1` between the first one's key and the
/// bound after the second, whose blocks are those below the two.
#[verifier::spinoff_prover]
#[verifier::rlimit(100)]
proof fn lemma_pair_joined(
    s0: &NodeStore,
    node: NodeData,
    lo: int,
    hi: int,
    start: int,
    end: int,
    s1: &NodeStore,
    c2: NodeData,
    a: int,
    ka: bool,
    pc: NodeData,
    qc: NodeData,
    nw: int,
    jsplit: int,
    pn: NodeData,
    qn: NodeData,
    s3: &NodeStore,
    v: NodeData,
)
    requires
        pair_step(s0, node, lo, hi, start, end, s1, c2, a, ka, pc, qc, nw, jsplit, pn, qn, s3, v),
    ensures
        ({
            let ni = node.indices();
            let whi = child_hi(ni, a + 1, hi);
            let m = joined_node(pc, qc);
            let sib = if ka { s0.node(ni[a + 1].child_block)@ } else { s0.node(ni[a].child_block)@ };
            let cba = ni[a].child_block;
            let cbb = ni[a + 1].child_block;
            &&& subtree_sound(s1, m, ni[a].logical_start as int, whi)
            &&& ni[a].logical_start < ni[a + 1].logical_start < whi
            &&& whi <= hi
            &&& m.depth + 1 == node.depth
            &&& tree_extents(s1, m) == tree_extents(s1, pc) + tree_extents(s1, qc)
            &&& forall|id: u32| #[trigger] in_tree(s1, m, id) == (in_tree(s1, c2, id) || in_tree(s0, sib, id))
            &&& forall|id: u32| #[trigger] in_tree(s1, m, id) ==> s1.has(id) && id != cba && id != cbb
            &&& tree_extents(s1, if ka { qc } else { pc }) == tree_extents(s0, sib)
            &&& !in_tree(s0, sib, cba) && !in_tree(s0, sib, cbb)
            &&& cba != cbb
            &&& s0.has(cba) && s0.has(cbb)
        }),
{
    reveal(del_step);
    let ni = node.indices();
    let k = child_for(ni, start);
    let cba = ni[a].child_block;
    let cbb = ni[a + 1].child_block;
    let whi = child_hi(ni, a + 1, hi);
    let si = if ka { a + 1 } else { a };
    let sib = s0.node(ni[si].child_block)@;
    let ck = s0.node(ni[k].child_block)@;
    lemma_del_step_facts(s0, node, lo, hi, start, end, s1, c2);
    lemma_children_apart(s0, node, lo, hi, a, a + 1);
    lemma_children_apart(s0, node, lo, hi, a + 1, a);
    assert(tree_wf(s0, node, lo, hi));
    assert(ni[a].logical_start < ni[a + 1].logical_start);
    assert(whi <= hi) by {
        if a + 2 < ni.len() {
            assert(ni[a + 2].logical_start < hi);
        }
    }
    assert(ni[a + 1].logical_start < whi) by {
        if a + 2 < ni.len() {
            assert(ni[a + 1].logical_start < ni[a + 2].logical_start);
        }
    }
    // The neighbour keeps its subtree from `s0` in `s1`.
    assert(si != k);
    lemma_frame(s0, s1, sib);
    assert(tree_wf(s0, sib, ni[si].logical_start as int, child_hi(ni, si, hi)));
    assert(tree_ok(s0, sib));
    assert(tree_disjoint(s0, sib));
    lemma_blocks_stored(s0, sib);
    lemma_blocks_stored(s1, c2);
    assert(child_hi(ni, a, hi) == ni[a + 1].logical_start);
    let m = joined_node(pc, qc);
    assert forall|id: u32| #[trigger] in_tree(s1, pc, id) implies !in_tree(s1, qc, id) by {
        if ka {
            assert(in_tree(s0, ck, id));
        } else {
            assert(in_tree(s0, sib, id));
            if in_tree(s1, c2, id) {
                assert(in_tree(s0, ck, id));
            }
        }
    }
    lemma_concat_sound(s1, pc, qc, m, ni[a].logical_start as int, ni[a + 1].logical_start as int, whi);
    assert forall|id: u32| #[trigger] in_tree(s1, m, id) implies s1.has(id) && id != cba && id != cbb by {
        if in_tree(s1, c2, id) {
            assert(in_tree(s0, ck, id));
        } else {
            assert(in_tree(s0, sib, id));
        }
    }
}

/// The rebalanced pair in `s3`: the new children of `v` are sound in their
/// bounds, take their blocks from the pair's, apart from each other, and
/// hold the pair's extents.
#[verifier::spinoff_prover]
#[verifier::rlimit(100)]
proof fn lemma_pair_new(
    s0: &NodeStore,
    node: NodeData,
    lo: int,
    hi: int,
    start: int,
    end: int,
    s1: &NodeStore,
    c2: NodeData,
    a: int,
    ka: bool,
    pc: NodeData,
    qc: NodeData,
    nw: int,
    jsplit: int,
    pn: NodeData,
    qn: NodeData,
    s3: &NodeStore,
    v: NodeData,
)
    requires
        pair_step(s0, node, lo, hi, start, end, s1, c2, a, ka, pc, qc, nw, jsplit, pn, qn, s3, v),
    ensures
        ({
            let ni = node.indices();
            let vi = v.indices();
            let whi = child_hi(ni, a + 1, hi);
            let sib = if ka { s0.node(ni[a + 1].child_block)@ } else { s0.node(ni[a].child_block)@ };
            let cba = ni[a].child_block;
            let cbb = ni[a + 1].child_block;
            &&& child_sound(s3, v, a, hi)
            &&& nw == 2 ==> child_sound(s3, v, a + 1, hi)
            &&& nw == 2 ==> vi[a].logical_start < vi[a + 1].logical_start < whi
            &&& vi[a].logical_start < whi
            &&& forall|id: u32| #[trigger] in_child(s3, v, a, id) ==> id == cba || in_tree(s1, joined_node(pc, qc), id)
            &&& nw == 2 ==> forall|id: u32| #[trigger] in_child(s3, v, a + 1, id) ==> id == cbb || in_tree(s1, joined_node(pc, qc), id)
            &&& forall|i: int, j: int, id: u32|
                a <= i < j < a + nw && #[trigger] in_child(s3, v, i, id) ==> !#[trigger] in_child(
                    s3,
                    v,
                    j,
                    id,
                )
            &&& children_extents(s3, v, a, a + nw) == tree_extents(s1, joined_node(pc, qc))
        }),
{
    let ni = node.indices();
    let vi = v.indices();
    let whi = child_hi(ni, a + 1, hi);
    let cba = ni[a].child_block;
    let cbb = ni[a + 1].child_block;
    let m = joined_node(pc, qc);
    lemma_pair_joined(s0, node, lo, hi, start, end, s1, c2, a, ka, pc, qc, nw, jsplit, pn, qn, s3, v);
    lemma_del_step_facts(s0, node, lo, hi, start, end, s1, c2);
    let key = ni[a].logical_start as int;
    assert(vi[a].logical_start == key);
    assert(children_extents(s3, v, a, a) =~= Seq::<Extent>::empty());
    assert(child_hi(vi, a + nw - 1, hi) == whi) by {
        if a + nw < vi.len() {
            assert(vi[a + nw] == ni[a + 2]);
        }
    }
    if nw == 1 {
        lemma_same_entries(s1, m, pn);
        assert forall|id: u32| #[trigger] in_tree(s1, pn, id) implies s1.has(id) && s3.has(id) && s3.node(id)@
            == s1.node(id)@ by {
            assert(in_tree(s1, m, id));
            assert(s3.has(id) == s1.has(id));
        }
        lemma_frame(s1, s3, pn);
        assert(child_sound(s3, v, a, hi));
        assert(children_extents(s3, v, a, a + 1) =~= tree_extents(s3, pn));
        assert forall|id: u32| #[trigger] in_child(s3, v, a, id) implies id == cba || in_tree(s1, m, id) by {
            if id != cba {
                assert(in_tree(s3, pn, id));
            }
        }
    } else {
        lemma_part_sound(s1, m, key, whi, jsplit, pn, qn);
        assert forall|id: u32| #[trigger] in_tree(s1, pn, id) implies s1.has(id) && s3.has(id) && s3.node(id)@
            == s1.node(id)@ by {
            assert(in_tree(s1, m, id));
            assert(s3.has(id) == s1.has(id));
        }
        assert forall|id: u32| #[trigger] in_tree(s1, qn, id) implies s1.has(id) && s3.has(id) && s3.node(id)@
            == s1.node(id)@ by {
            assert(in_tree(s1, m, id));
            assert(s3.has(id) == s1.has(id));
        }
        lemma_frame(s1, s3, pn);
        lemma_frame(s1, s3, qn);
        if m.depth == 0 {
            assert(pn.extents().len() > 0);
            assert(first_key_of(pn) >= key);
        } else {
            assert(first_key_of(pn) >= key);
        }
        assert(child_hi(vi, a, hi) == first_key_of(qn));
        assert(child_sound(s3, v, a, hi));
        assert(child_sound(s3, v, a + 1, hi));
        assert(children_extents(s3, v, a, a + 1) =~= tree_extents(s3, pn));
        assert(children_extents(s3, v, a, a + 2) =~= tree_extents(s3, pn) + tree_extents(s3, qn));
        assert forall|id: u32| #[trigger] in_child(s3, v, a, id) implies id == cba || in_tree(s1, m, id) by {
            if id != cba {
                assert(in_tree(s3, pn, id));
            }
        }
        assert forall|id: u32| #[trigger] in_child(s3, v, a + 1, id) implies id == cbb || in_tree(s1, m, id) by {
            if id != cbb {
                assert(in_tree(s3, qn, id));
            }
        }
        assert forall|i: int, j: int, id: u32| a <= i < j < a + nw && #[trigger] in_child(s3, v, i, id) implies !#[trigger] in_child(
            s3,
            v,
            j,
            id,
        ) by {
            assert(i == a && j == a + 1);
            if in_child(s3, v, j, id) {
                if id == cba {
                    assert(!in_tree(s1, m, cba));
                } else {
                    assert(in_tree(s1, pn, id));
                    assert(in_tree(s1, m, id));
                    if id != cbb {
                        assert(in_tree(s1, qn, id));
                    }
                }
            }
        }
    }
}

/// A delete whose child underflowed and was rebalanced with a neighbour
/// leaves a sound node that maps what the old one did except the range; the
/// blocks the child freed, and the neighbour's block when the two merged,
/// are no longer below it.
#[verifier::spinoff_prover]
#[verifier::rlimit(100)]
proof fn lemma_pair_done(
    s0: &NodeStore,
    node: NodeData,
    lo: int,
    hi: int,
    start: int,
    end: int,
    s1: &NodeStore,
    c2: NodeData,
    a: int,
    ka: bool,
    pc: NodeData,
    qc: NodeData,
    nw: int,
    jsplit: int,
    pn: NodeData,
    qn: NodeData,
    s3: &NodeStore,
    v: NodeData,
)
    requires
        pair_step(s0, node, lo, hi, start, end, s1, c2, a, ka, pc, qc, nw, jsplit, pn, qn, s3, v),
        v.entries.len() == v.entry_count,
    ensures
        delete_done(s0, node, s3, v, lo, hi, start, end),
        kept_outside(s0, s3, node),
        forall|b: u32|
            in_tree(s0, s0.node(node.indices()[child_for(node.indices(), start)].child_block)@, b)
                && !in_tree(s1, c2, b) ==> in_tree(s0, node, b) && !#[trigger] in_tree(s3, v, b),
        nw == 1 ==> in_tree(s0, node, node.indices()[a + 1].child_block) && !in_tree(
            s3,
            v,
            node.indices()[a + 1].child_block,
        ),
{
    let ni = node.indices();
    let vi = v.indices();
    let k = child_for(ni, start);
    let cba = ni[a].child_block;
    let cbb = ni[a + 1].child_block;
    let whi = child_hi(ni, a + 1, hi);
    let si = if ka { a + 1 } else { a };
    let sib = s0.node(ni[si].child_block)@;
    let ck = s0.node(ni[k].child_block)@;
    let m = joined_node(pc, qc);
    lemma_del_step_facts(s0, node, lo, hi, start, end, s1, c2);
    lemma_pair_joined(s0, node, lo, hi, start, end, s1, c2, a, ka, pc, qc, nw, jsplit, pn, qn, s3, v);
    lemma_pair_new(s0, node, lo, hi, start, end, s1, c2, a, ka, pc, qc, nw, jsplit, pn, qn, s3, v);
    lemma_children_apart(s0, node, lo, hi, a, a + 1);
    lemma_children_apart(s0, node, lo, hi, a + 1, a);
    assert(tree_wf(s0, node, lo, hi));
    // The children outside the pair keep their subtrees.
    assert forall|j: int| 0 <= j < ni.len() && !(a <= j < a + 2) implies {
        let cbj = (#[trigger] ni[j]).child_block;
        &&& agrees_below(s0, s3, s0.node(cbj)@)
        &&& s3.has(cbj)
        &&& s3.node(cbj)@ == s0.node(cbj)@
    } by {
        let cbj = ni[j].child_block;
        let cj = s0.node(cbj)@;
        lemma_children_apart(s0, node, lo, hi, j, a);
        lemma_children_apart(s0, node, lo, hi, j, a + 1);
        lemma_children_apart(s0, node, lo, hi, a, j);
        lemma_children_apart(s0, node, lo, hi, a + 1, j);
        assert(s3.has(cbj) == s1.has(cbj));
        assert forall|id: u32| #[trigger] in_tree(s0, cj, id) implies s0.has(id) && s3.has(id) && s3.node(
            id,
        )@ == s0.node(id)@ by {
            assert(s3.has(id) == s1.has(id));
        }
    }
    assert forall|i: int, j: int| a <= i < j < a + nw implies #[trigger] vi[i].logical_start < #[trigger] vi[j].logical_start by {}
    assert forall|j: int| a <= j < a + nw implies #[trigger] vi[j].logical_start < child_hi(ni, a + 2 - 1, hi) by {}
    assert forall|j: int| a <= j < a + nw implies #[trigger] child_sound(s3, v, j, hi) by {}
    // The new children's blocks are the pair's.
    assert forall|j: int, id: u32| a <= j < a + nw && #[trigger] in_child(s3, v, j, id) implies in_window(
        s0,
        node,
        a,
        2,
        id,
    ) by {
        assert(in_child(s0, node, a, cba));
        assert(in_child(s0, node, a + 1, cbb));
        if in_tree(s1, m, id) {
            if in_tree(s1, c2, id) {
                assert(in_tree(s0, ck, id));
                assert(in_child(s0, node, k, id));
            } else {
                assert(in_tree(s0, sib, id));
                assert(in_child(s0, node, si, id));
            }
        }
    }
    // The range lies in the pair, and the neighbour holds none of it.
    assert(a > 0 ==> start >= ni[a].logical_start) by {
        if a > 0 && !ka {
            assert(ni[a].logical_start < ni[a + 1].logical_start);
        }
    }
    assert(end <= whi) by {
        if ka {
            assert(child_hi(ni, a, hi) == ni[a + 1].logical_start);
        }
    }
    assert(children_extents(s0, node, a, a) =~= Seq::<Extent>::empty());
    assert(children_extents(s0, node, a, a + 1) =~= tree_extents(s0, s0.node(cba)@));
    assert(children_extents(s0, node, a, a + 2) =~= tree_extents(s0, s0.node(cba)@) + tree_extents(s0, s0.node(cbb)@));
    assert(tree_wf(s0, sib, ni[si].logical_start as int, child_hi(ni, si, hi)));
    lemma_tree_within(s0, sib, ni[si].logical_start as int, child_hi(ni, si, hi));
    assert forall|l: int, p: int| #[trigger] maps_to(children_extents(s3, v, a, a + nw), l, p) == (maps_to(
        children_extents(s0, node, a, a + 2),
        l,
        p,
    ) && !(start <= l < end)) by {
        lemma_maps_to_concat(tree_extents(s1, pc), tree_extents(s1, qc), l, p);
        lemma_maps_to_concat(tree_extents(s0, s0.node(cba)@), tree_extents(s0, s0.node(cbb)@), l, p);
        assert(maps_to(tree_extents(s1, c2), l, p) == (maps_to(tree_extents(s0, ck), l, p) && !(start <= l < end)));
        if start <= l < end {
            if ka {
                lemma_within_maps_none(tree_extents(s0, sib), ni[a + 1].logical_start as int, whi, l, p);
            } else {
                lemma_within_maps_none(tree_extents(s0, sib), ni[a].logical_start as int, ni[a + 1].logical_start as int, l, p);
            }
        }
    }
    assert(window_step(s0, node, lo, hi, s3, v, a, 2, nw, start, end));
    lemma_window(s0, node, lo, hi, s3, v, a, 2, nw, start, end);
    lemma_window_keys(s0, node, lo, hi, s3, v, a, 2, nw, start, end);
    assert(delete_done(s0, node, s3, v, lo, hi, start, end)) by {
        reveal(delete_done);
    }
    assert(kept_outside(s0, s3, node)) by {
        reveal(del_step);
        reveal(kept_outside);
        assert(in_child(s0, node, a, cba));
        assert(in_child(s0, node, a + 1, cbb));
        lemma_in_child_in_tree(s0, node, a, cba);
        lemma_in_child_in_tree(s0, node, a + 1, cbb);
        assert forall|id: u32| #[trigger] s0.has(id) implies s3.has(id) && (!in_tree(s0, node, id) ==> s3.node(
            id,
        )@ == s0.node(id)@) by {
            assert(s1.has(id));
            if id != cba && (nw == 1 || id != cbb) {
                assert(s3.has(id) == s1.has(id));
            }
            if !in_tree(s0, node, id) {
                if in_tree(s0, ck, id) {
                    assert(in_child(s0, node, k, id));
                    lemma_in_child_in_tree(s0, node, k, id);
                }
            }
        }
    }
    assert forall|b: u32| in_tree(s0, ck, b) && !in_tree(s1, c2, b) implies in_tree(s0, node, b) && !#[trigger] in_tree(
        s3,
        v,
        b,
    ) by {
        assert(in_child(s0, node, k, b));
        lemma_in_child_in_tree(s0, node, k, b);
        if in_tree(s3, v, b) {
            lemma_in_tree(s3, v, b);
            let j = choose|j: int| 0 <= j < v.entries.len() && #[trigger] in_child(s3, v, j, b);
            if a <= j < a + nw {
                assert(b != cba && b != cbb);
                assert(!in_tree(s0, sib, b));
            } else {
                let o = if j < a { j } else { j - nw + 2 };
                assert(in_child(s0, node, o, b));
                assert(tree_disjoint(s0, node));
                if o < k {
                    assert(!in_child(s0, node, k, b));
                } else {
                    assert(!in_child(s0, node, o, b));
                }
            }
        }
    }
    if nw == 1 {
        assert(in_child(s0, node, a + 1, cbb));
        lemma_in_child_in_tree(s0, node, a + 1, cbb);
        if in_tree(s3, v, cbb) {
            lemma_in_tree(s3, v, cbb);
            let j = choose|j: int| 0 <= j < v.entries.len() && #[trigger] in_child(s3, v, j, cbb);
            if j == a {
                assert(!in_tree(s1, m, cbb));
            } else {
                let o = if j < a { j } else { j - nw + 2 };
                assert(in_child(s0, node, o, cbb));
                assert(tree_disjoint(s0, node));
                if o < a + 1 {
                    assert(!in_child(s0, node, a + 1, cbb));
                } else {
                    assert(!in_child(s0, node, o, cbb));
                }
            }
        }
    }
}

/// A delete of `[start, end)` from the tree under `root` keeps it a search
/// tree: the range ends within the bounds of the leaf that holds `start`,
/// and that leaf has room to count one more extent.
pub open spec fn delete_fits(store: &NodeStore, root: NodeData, start: int, end: int) -> bool {
    &&& end <= path_hi(store, root, u32::MAX as int, start)
    &&& reached_leaf(store, root, start).entries.len() < u16::MAX
}

/// In `after`, no logical block of `[start, end)` is mapped, and every other
/// logical block maps as in `before`.
pub open spec fn maps_after_delete(before: Seq<Extent>, after: Seq<Extent>, start: int, end: int) -> bool {
    forall|l: int, p: int|
        #[trigger] maps_to(after, l, p) == (maps_to(before, l, p) && !(start <= l < end))
}

/// A root left with one child moves that child's contents up into itself
/// and frees the child's block: the tree keeps its extents.
#[verifier::spinoff_prover]
#[verifier::rlimit(100)]
proof fn lemma_root_collapse(
    s0: &NodeStore,
    root0: NodeData,
    s1: &NodeStore,
    root1: NodeData,
    root2: NodeData,
    start: int,
    end: int,
    fb0: Seq<u32>,
    fb1: Seq<u32>,
)
    requires
        delete_done(s0, root0, s1, root1, 0, u32::MAX as int, start, end),
        freed_from(s0, root0, s1, root1, fb1, fb0.len() as int),
        root1.depth > 0,
        root1.entries.len() == 1,
        root2.depth == s1.node(root1.indices()[0].child_block)@.depth,
        root2.entries == s1.node(root1.indices()[0].child_block)@.entries,
        root2.entry_count == s1.node(root1.indices()[0].child_block)@.entry_count,
    ensures
        tree_sound(s1, root2),
        maps_after_delete(tree_extents(s0, root0), tree_extents(s1, root2), start, end),
        freed_from(s0, root0, s1, root2, fb1.push(root1.indices()[0].child_block), fb0.len() as int),
{
    reveal(delete_done);
    let cb = root1.indices()[0].child_block;
    let c = s1.node(cb)@;
    let idx = root1.indices();
    assert(tree_wf(s1, c, idx[0].logical_start as int, child_hi(idx, 0, u32::MAX as int)));
    assert(child_hi(idx, 0, u32::MAX as int) == u32::MAX);
    assert(tree_ok(s1, c));
    assert(tree_disjoint(s1, c));
    assert(c.entries.len() == c.entry_count);
    lemma_wf_mono(s1, c, idx[0].logical_start as int, u32::MAX as int, 0, u32::MAX as int);
    lemma_same_entries(s1, c, root2);
    assert(children_extents(s1, root1, 0, 0) =~= Seq::<Extent>::empty());
    assert(tree_extents(s1, root1) =~= tree_extents(s1, c));
    lemma_blocks_stored(s1, c);
    assert(in_child(s1, root1, 0, cb));
    lemma_in_child_in_tree(s1, root1, 0, cb);
    assert forall|id: u32| #[trigger] in_tree(s1, root2, id) implies in_tree(s0, root0, id) by {
        assert(in_tree(s1, c, id));
        assert(in_child(s1, root1, 0, id));
        lemma_in_child_in_tree(s1, root1, 0, id);
    }
    let fb2 = fb1.push(cb);
    assert forall|j: int| fb0.len() <= j < fb2.len() implies in_tree(s0, root0, #[trigger] fb2[j]) && !in_tree(
        s1,
        root2,
        fb2[j],
    ) by {
        if j < fb1.len() {
            let b = fb1[j];
            assert(fb2[j] == b);
            assert(in_tree(s0, root0, b) && !in_tree(s1, root1, b));
            if in_tree(s1, root2, b) {
                assert(in_tree(s1, c, b));
                assert(in_child(s1, root1, 0, b));
                lemma_in_child_in_tree(s1, root1, 0, b);
            }
        } else {
            assert(fb2[j] == cb);
            assert(in_tree(s0, root0, cb));
            if in_tree(s1, root2, cb) {
                assert(in_tree(s1, c, cb));
                assert(s1.node(cb)@.depth < c.depth);
            }
        }
    }
}

/// After a delete of `[start, end)` that kept the tree sound and mapped as
/// the delete says, a point lookup of a logical block in the range finds
/// nothing, and a lookup of any other logical block maps it exactly as
/// before the delete.
#[verifier::spinoff_prover]
pub proof fn law_lookup_after_delete(
    s0: &NodeStore,
    root0: NodeData,
    s1: &NodeStore,
    root1: NodeData,
    start: int,
    end: int,
    l: int,
    p: int,
)
    requires
        tree_sound(s0, root0),
        tree_sound(s1, root1),
        maps_after_delete(tree_extents(s0, root0), tree_extents(s1, root1), start, end),
    ensures
        start <= l < end ==> looked_up(s1, root1, l) is None,
        !(start <= l < end) ==> ((looked_up(s1, root1, l) matches Some(e) && ext_maps(e, l, p)) == (
        looked_up(s0, root0, l) matches Some(e) && ext_maps(e, l, p))),
{
    law_lookup_finds_holder(s1, root1, 0, u32::MAX as int, l);
    lemma_tree_sorted(s1, root1, 0, u32::MAX as int);
    law_lookup_agrees_with_mapping(s1, root1, 0, u32::MAX as int, l, p);
    law_lookup_agrees_with_mapping(s0, root0, 0, u32::MAX as int, l, p);
    assert(maps_to(tree_extents(s1, root1), l, p) == (maps_to(tree_extents(s0, root0), l, p) && !(start <= l
        < end)));
    if start <= l < end {
        if let Some(e) = looked_up(s1, root1, l) {
            let q = e.physical_start + (l - e.logical_start);
            lemma_first_holding_maps(tree_extents(s1, root1), l, q);
            law_lookup_agrees_with_mapping(s1, root1, 0, u32::MAX as int, l, q);
            assert(maps_to(tree_extents(s1, root1), l, q) == (maps_to(tree_extents(s0, root0), l, q) && !(start
                <= l < end)));
        }
    }
}

proof fn lemma_entries_bytes_at(es: Seq<[u8; ENTRY_SIZE]>, k: int)
    requires
        0 <= k < es.len(),
    ensures
        entries_bytes(es).subrange(12 * k, 12 * k + 12) == es[k]@,
    decreases es.len(),
{
    lemma_entries_bytes_len(es);
    let front = es.drop_last();
    lemma_entries_bytes_len(front);
    if k < es.len() - 1 {
        lemma_entries_bytes_at(front, k);
        assert(entries_bytes(es).subrange(12 * k, 12 * k + 12) =~= entries_bytes(front).subrange(12 * k, 12 * k + 12));
    } else {
        assert(entries_bytes(es).subrange(12 * k, 12 * k + 12) =~= es.last()@);
    }
}

/// Reading back a node written into a block, after the block's header and
/// whatever bytes follow it, gives the node, when its magic number is the
/// tree's and it holds as many entries as it counts, no more than its
/// capacity and no more than a block allows.
pub proof fn law_node_round_trip(h: BlockHeader, n: &ExtentTreeNode, rest: Seq<u8>)
    requires
        n.magic == TREE_MAGIC,
        n.entries@.len() == n.entry_count,
        n.entry_count <= n.max_entries <= BLOCK_MAX_ENTRIES,
    ensures
        node_header_ok(header_bytes(h) + node_bytes(n) + rest),
        is_stored_node(header_bytes(h) + node_bytes(n) + rest, n),
{
    lemma_auto_spec_u16_to_from_le_bytes();
    crate::block::law_header_round_trip(h, rest);
    lemma_entries_bytes_len(n.entries@);
    let b = header_bytes(h) + node_bytes(n) + rest;
    let es = entries_bytes(n.entries@);
    assert(b.subrange(14, 16) =~= spec_u16_to_le_bytes(n.magic));
    assert(b.subrange(16, 18) =~= spec_u16_to_le_bytes(n.depth));
    assert(b.subrange(18, 20) =~= spec_u16_to_le_bytes(n.entry_count));
    assert(b.subrange(20, 22) =~= spec_u16_to_le_bytes(n.max_entries));
    assert forall|k: int| 0 <= k < n.entries@.len() implies (#[trigger] n.entries@[k])@ == stored_entry(
        b,
        BLOCK_HEADER_SIZE + 8,
        k,
    ) by {
        lemma_entries_bytes_at(n.entries@, k);
        assert(stored_entry(b, BLOCK_HEADER_SIZE + 8, k) =~= es.subrange(12 * k, 12 * k + 12));
    }
}

/// The bound of the leaf a descent reaches lies within the node's bound,
/// and above the block it descends towards.
proof fn lemma_path_hi_bound(s: &NodeStore, node: NodeData, lo: int, hi: int, l: int)
    requires
        tree_wf(s, node, lo, hi),
    ensures
        path_hi(s, node, hi, l) <= hi,
        l < hi ==> l < path_hi(s, node, hi, l),
    decreases node.depth,
{
    if node.depth > 0 {
        let idx = node.indices();
        lemma_child_for(idx, l);
        let k = child_for(idx, l);
        let c = s.node(idx[k].child_block)@;
        assert(tree_wf(s, c, idx[k].logical_start as int, child_hi(idx, k, hi)));
        if k + 1 < idx.len() {
            assert(idx[k + 1].logical_start < hi);
        }
        lemma_path_hi_bound(s, c, idx[k].logical_start as int, child_hi(idx, k, hi), l);
    }
}

/// Every block from `c` up to the bound of the leaf that `c` reaches
/// reaches the same leaf, and a lookup of it searches that leaf.
proof fn lemma_same_leaf(s: &NodeStore, node: NodeData, lo: int, hi: int, c: int, l: int)
    requires
        tree_wf(s, node, lo, hi),
        c <= l < path_hi(s, node, hi, c),
    ensures
        reached_leaf(s, node, l) == reached_leaf(s, node, c),
        path_hi(s, node, hi, l) == path_hi(s, node, hi, c),
        looked_up(s, node, l) == first_holding(reached_leaf(s, node, c).extents(), l),
        reached_leaf(s, node, c).depth == 0,
        leaf_wf(reached_leaf(s, node, c).extents()),
    decreases node.depth,
{
    if node.depth > 0 {
        let idx = node.indices();
        lemma_child_for(idx, c);
        lemma_child_for(idx, l);
        let k = child_for(idx, c);
        let k2 = child_for(idx, l);
        let ch = s.node(idx[k].child_block)@;
        let chi = child_hi(idx, k, hi);
        assert(tree_wf(s, ch, idx[k].logical_start as int, chi));
        lemma_path_hi_bound(s, ch, idx[k].logical_start as int, chi, c);
        assert(l < chi);
        if k2 > k {
            assert(idx[k2].logical_start <= l);
            assert(idx[k + 1].logical_start <= idx[k2].logical_start);
        }
        if k2 < k {
            assert(idx[k].logical_start > l);
        }
        assert(k2 == k);
        lemma_same_leaf(s, ch, idx[k].logical_start as int, chi, c, l);
    }
}

/// Within the bound of the leaf that `c` reaches, from `c` on, the tree
/// maps a block exactly as that leaf does.
proof fn lemma_leaf_maps(s: &NodeStore, node: NodeData, lo: int, hi: int, c: int, l: int, p: int)
    requires
        tree_wf(s, node, lo, hi),
        c <= l < path_hi(s, node, hi, c),
    ensures
        maps_to(tree_extents(s, node), l, p) == maps_to(reached_leaf(s, node, c).extents(), l, p),
{
    law_lookup_agrees_with_mapping(s, node, lo, hi, l, p);
    lemma_same_leaf(s, node, lo, hi, c, l);
    lemma_first_holding_maps(reached_leaf(s, node, c).extents(), l, p);
}

/// What an operation on `[c, b)` cuts from the leaf that `c` reaches, with
/// `b` within that leaf's bound, is exactly what the tree maps in `[c, b)`.
proof fn lemma_cut_is_tree_range(s: &NodeStore, root: NodeData, c: u32, b: u32, l: int, p: int)
    requires
        tree_wf(s, root, 0, u32::MAX as int),
        c < b,
        b <= path_hi(s, root, u32::MAX as int, c as int),
    ensures
        maps_to(clip_cut(reached_leaf(s, root, c as int).extents(), c as int, b as int), l, p) == (
        maps_to(tree_extents(s, root), l, p) && c <= l < b),
{
    lemma_same_leaf(s, root, 0, u32::MAX as int, c as int, c as int);
    law_clip_splits_mappings(reached_leaf(s, root, c as int).extents(), c, b, l, p);
    if c <= l < b {
        lemma_leaf_maps(s, root, 0, u32::MAX as int, c as int, l, p);
    }
}

/// The upper bound of the leaf that a descent from `node`, whose subtree
/// lies below `hi`, towards logical block `l` reaches, and the number of
/// entries that leaf holds.
pub fn leaf_bound(store: &NodeStore, node: &ExtentTreeNode, hi: u32, l: u32) -> (r: (u32, usize))
    requires
        store.wf(),
        tree_ok(store, node@),
    ensures
        r.0 == path_hi(store, node@, hi as int, l as int),
        r.1 == reached_leaf(store, node@, l as int).entries.len(),
    decreases node.depth,
{
    if node.is_leaf() {
        return (hi, node.entries.len());
    }
    let k = find_child(node, l);
    proof {
        lemma_child_for(node.indices(), l as int);
    }
    assert(k < node.entries@.len());
    let idx = node.get_index(k);
    proof {
        assert(node@.indices()[k as int] == idx);
        assert(store.has(idx.child_block));
    }
    let child = store.get(idx.child_block).unwrap();
    let h2 = if k < node.entries.len() - 1 {
        node.get_index(k + 1).logical_start
    } else {
        hi
    };
    leaf_bound(store, &child, h2, l)
}

/// Inserts `new_ext` into the extent tree whose root is `root`, leaf by
/// leaf: the part of the new extent that falls within the bound of each
/// leaf it meets goes into that leaf. Returns every mapping the insert
/// replaced, from all those leaves. Nodes below the root are read from and
/// written to `store`; new nodes take the first free blocks of the block
/// bitmap. It fails with `NoMoreBlocks` when a split finds the bitmap full,
/// and with `CorruptedBlock` when, between two leaves, the tree is found
/// not to be one (or has grown as deep as a depth can count).
pub fn insert_extent(
    store: &mut NodeStore,
    root: &mut ExtentTreeNode,
    new_ext: Extent,
    bitmap: &mut Vec<u8>,
) -> (r: Result<Vec<Extent>, FileError>)
    requires
        old(store).wf(),
        tree_ok(old(store), old(root)@),
        extent_fits(new_ext),
        bit_count(old(bitmap)@) <= u32::MAX,
        old(root).depth < u16::MAX,
    ensures
        final(store).wf(),
        final(bitmap)@.len() == old(bitmap)@.len(),
        r matches Err(e) ==> (e == FileError::NoMoreBlocks && free_entries(final(bitmap)@).len() == 0)
            || e == FileError::CorruptedBlock,
        store_in_bitmap(old(store), old(bitmap)@) ==> store_in_bitmap(final(store), final(bitmap)@),
        tree_sound(old(store), old(root)@) && store_in_bitmap(old(store), old(bitmap)@) && new_ext.length
            > 0 ==> {
            &&& r matches Err(e) ==> (e == FileError::NoMoreBlocks && free_entries(final(bitmap)@).len() == 0)
                || (e == FileError::CorruptedBlock && final(root).depth == u16::MAX)
            &&& r matches Ok(freed) ==> {
                &&& tree_sound(final(store), final(root)@)
                &&& maps_after_insert(
                    tree_extents(old(store), old(root)@),
                    tree_extents(final(store), final(root)@),
                    new_ext,
                )
                &&& forall|l: int, p: int|
                    #[trigger] maps_to(freed@, l, p) == (maps_to(tree_extents(old(store), old(root)@), l, p)
                        && new_ext.logical_start <= l < ext_end(new_ext))
            }
        },
{
    let ghost s0 = *store;
    let ghost r0 = root@;
    let ghost b0 = bitmap@;
    let ghost t0 = tree_extents(&s0, r0);
    let ghost ready = tree_sound(&s0, r0) && store_in_bitmap(&s0, b0);
    if new_ext.length == 0 {
        return insert_in_leaf(store, root, new_ext, bitmap);
    }
    let first = new_ext.logical_start;
    let end = new_ext.logical_start + new_ext.length;
    let mut freed: Vec<Extent> = Vec::new();
    let mut cur = first;
    while cur < end
        invariant
            s0 == *old(store),
            r0 == old(root)@,
            b0 == old(bitmap)@,
            ready == (tree_sound(&s0, r0) && store_in_bitmap(&s0, b0)),
            t0 == tree_extents(&s0, r0),
            store.wf(),
            bitmap@.len() == b0.len(),
            bit_count(bitmap@) <= u32::MAX,
            extent_fits(new_ext),
            new_ext.length > 0,
            first == new_ext.logical_start,
            end == ext_end(new_ext),
            first <= cur <= end,
            cur == first ==> tree_ok(store, root@) && root.depth < u16::MAX && *store == s0 && root@ == r0
                && bitmap@ == b0 && freed@.len() == 0,
            store_in_bitmap(&s0, b0) ==> store_in_bitmap(store, bitmap@),
            ready ==> {
                &&& tree_sound(store, root@)
                &&& store_in_bitmap(store, bitmap@)
                &&& forall|l: int, p: int|
                    #[trigger] maps_to(tree_extents(store, root@), l, p) == if first <= l < cur {
                        p == new_ext.physical_start + (l - first)
                    } else {
                        maps_to(t0, l, p)
                    }
                &&& forall|l: int, p: int|
                    #[trigger] maps_to(freed@, l, p) == (maps_to(t0, l, p) && first <= l < cur)
            },
        decreases end - cur,
    {
        if cur > first {
            if root.depth == u16::MAX || !tree_is_ok(store, root) {
                return Err(FileError::CorruptedBlock);
            }
        }
        let (bound, _) = leaf_bound(store, root, u32::MAX, cur);
        let b = if bound < end {
            bound
        } else {
            end
        };
        proof {
            if ready {
                lemma_path_hi_bound(store, root@, 0, u32::MAX as int, cur as int);
            }
        }
        if b <= cur {
            return Err(FileError::CorruptedBlock);
        }
        let piece = Extent {
            logical_start: cur,
            physical_start: new_ext.physical_start + (cur - first),
            length: b - cur,
        };
        let ghost s1 = *store;
        let ghost rt1 = root@;
        let ghost bm1 = bitmap@;
        let ghost f1 = freed@;
        let mut cut = match insert_in_leaf(store, root, piece, bitmap) {
            Ok(f) => f,
            Err(e) => {
                return Err(e);
            },
        };
        let ghost c1 = cut@;
        freed.append(&mut cut);
        proof {
            if ready {
                assert(insert_fits(&s1, rt1, piece));
                let t1 = tree_extents(&s1, rt1);
                assert forall|l: int, p: int|
                    #[trigger] maps_to(tree_extents(store, root@), l, p) == if first <= l < b {
                        p == new_ext.physical_start + (l - first)
                    } else {
                        maps_to(t0, l, p)
                    } by {
                    assert(maps_to(tree_extents(store, root@), l, p) == if cur <= l < b {
                        p == piece.physical_start + (l - cur)
                    } else {
                        maps_to(t1, l, p)
                    });
                    assert(maps_to(t1, l, p) == if first <= l < cur {
                        p == new_ext.physical_start + (l - first)
                    } else {
                        maps_to(t0, l, p)
                    });
                }
                assert forall|l: int, p: int|
                    #[trigger] maps_to(freed@, l, p) == (maps_to(t0, l, p) && first <= l < b) by {
                    lemma_maps_to_concat(f1, c1, l, p);
                    assert(freed@ == f1 + c1);
                    lemma_cut_is_tree_range(&s1, rt1, cur, b, l, p);
                    assert(maps_to(f1, l, p) == (maps_to(t0, l, p) && first <= l < cur));
                    assert(maps_to(tree_extents(&s1, rt1), l, p) == if first <= l < cur {
                        p == new_ext.physical_start + (l - first)
                    } else {
                        maps_to(t0, l, p)
                    });
                }
            }
        }
        cur = b;
    }
    Ok(freed)
}

/// Deletes the logical range `[start, end)` from the extent tree whose root
/// is `root`, leaf by leaf: the part of the range within the bound of each
/// leaf it meets is cut out of that leaf, rebalancing and collapsing the
/// tree as each cut requires. Returns every mapping removed, from all
/// those leaves; the blocks of nodes merged away are appended to
/// `freed_blocks`. It fails with `CorruptedBlock` when a leaf it must cut
/// already holds as many entries as a count can hold, or when, between two
/// leaves, the tree is found not to be one; and with `ReadError` when a
/// root's only child is missing.
pub fn delete_extent_range(
    store: &mut NodeStore,
    root: &mut ExtentTreeNode,
    start: u32,
    end: u32,
    freed_blocks: &mut Vec<u32>,
) -> (r: Result<Vec<Extent>, FileError>)
    requires
        old(store).wf(),
        tree_ok(old(store), old(root)@),
        start <= end,
        store_ok(old(store)),
        node_ok(old(root)@),
    ensures
        final(store).wf(),
        store_ok(final(store)),
        old(freed_blocks)@.len() <= final(freed_blocks)@.len(),
        final(freed_blocks)@.subrange(0, old(freed_blocks)@.len() as int) == old(freed_blocks)@,
        r matches Err(e) ==> e == FileError::ReadError || e == FileError::CorruptedBlock,
        tree_sound(old(store), old(root)@) && start < end ==> {
            &&& r matches Err(e) ==> e == FileError::CorruptedBlock
            &&& r matches Ok(freed) ==> {
                &&& tree_sound(final(store), final(root)@)
                &&& maps_after_delete(
                    tree_extents(old(store), old(root)@),
                    tree_extents(final(store), final(root)@),
                    start as int,
                    end as int,
                )
                &&& forall|l: int, p: int|
                    #[trigger] maps_to(freed@, l, p) == (maps_to(tree_extents(old(store), old(root)@), l, p)
                        && start <= l < end)
            }
        },
{
    let ghost s0 = *store;
    let ghost r0 = root@;
    let ghost t0 = tree_extents(&s0, r0);
    let ghost fb0 = freed_blocks@;
    let ghost ready = tree_sound(&s0, r0);
    if start == end {
        return delete_in_leaf(store, root, start, end, freed_blocks);
    }
    let mut freed: Vec<Extent> = Vec::new();
    let mut cur = start;
    while cur < end
        invariant
            s0 == *old(store),
            r0 == old(root)@,
            fb0 == old(freed_blocks)@,
            ready == tree_sound(&s0, r0),
            t0 == tree_extents(&s0, r0),
            start < end,
            store.wf(),
            store_ok(store),
            node_ok(root@),
            start <= cur <= end,
            cur == start ==> tree_ok(store, root@) && *store == s0 && root@ == r0 && freed@.len() == 0,
            fb0.len() <= freed_blocks@.len(),
            freed_blocks@.subrange(0, fb0.len() as int) == fb0,
            ready ==> {
                &&& tree_sound(store, root@)
                &&& forall|l: int, p: int|
                    #[trigger] maps_to(tree_extents(store, root@), l, p) == (maps_to(t0, l, p) && !(start
                        <= l < cur))
                &&& forall|l: int, p: int|
                    #[trigger] maps_to(freed@, l, p) == (maps_to(t0, l, p) && start <= l < cur)
            },
        decreases end - cur,
    {
        if cur > start {
            if !tree_is_ok(store, root) {
                return Err(FileError::CorruptedBlock);
            }
        }
        let (bound, count) = leaf_bound(store, root, u32::MAX, cur);
        if count >= u16::MAX as usize {
            return Err(FileError::CorruptedBlock);
        }
        let b = if bound < end {
            bound
        } else {
            end
        };
        proof {
            if ready {
                lemma_path_hi_bound(store, root@, 0, u32::MAX as int, cur as int);
            }
        }
        if b <= cur {
            return Err(FileError::CorruptedBlock);
        }
        let ghost s1 = *store;
        let ghost rt1 = root@;
        let ghost f1 = freed@;
        let ghost fbs1 = freed_blocks@;
        let mut cut = match delete_in_leaf(store, root, cur, b, freed_blocks) {
            Ok(f) => f,
            Err(e) => {
                return Err(e);
            },
        };
        let ghost c1 = cut@;
        freed.append(&mut cut);
        proof {
            assert(freed_blocks@.subrange(0, fbs1.len() as int) == fbs1);
            assert(freed_blocks@.subrange(0, fb0.len() as int) =~= fbs1.subrange(0, fb0.len() as int));
            if ready {
                assert(delete_fits(&s1, rt1, cur as int, b as int));
                let t1 = tree_extents(&s1, rt1);
                assert forall|l: int, p: int|
                    #[trigger] maps_to(tree_extents(store, root@), l, p) == (maps_to(t0, l, p) && !(start
                        <= l < b)) by {
                    assert(maps_to(tree_extents(store, root@), l, p) == (maps_to(t1, l, p) && !(cur <= l < b)));
                    assert(maps_to(t1, l, p) == (maps_to(t0, l, p) && !(start <= l < cur)));
                }
                assert forall|l: int, p: int|
                    #[trigger] maps_to(freed@, l, p) == (maps_to(t0, l, p) && start <= l < b) by {
                    lemma_maps_to_concat(f1, c1, l, p);
                    assert(freed@ == f1 + c1);
                    lemma_cut_is_tree_range(&s1, rt1, cur, b, l, p);
                    assert(maps_to(f1, l, p) == (maps_to(t0, l, p) && start <= l < cur));
                    assert(maps_to(tree_extents(&s1, rt1), l, p) == (maps_to(t0, l, p) && !(start <= l < cur)));
                }
            }
        }
        cur = b;
    }
    Ok(freed)
}

/// Extent `e` holds logical block `l`, and `l` lies in `[start, end)`.
pub open spec fn holds_in_range(e: Extent, l: int, start: int, end: int) -> bool {
    e.logical_start <= l < e.logical_start + e.length && start <= l < end
}

/// In a search tree, a lookup of a nonempty range lists an extent of the
/// tree exactly when that extent holds some logical block of the range,
/// and lists nothing that is not an extent of the tree.
pub proof fn law_range_lookup_lists_what_meets(
    store: &NodeStore,
    node: NodeData,
    lo: int,
    hi: int,
    start: int,
    end: int,
    e: Extent,
)
    requires
        tree_wf(store, node, lo, hi),
        start < end,
    ensures
        collected(store, node, start, end).contains(e) == (tree_extents(store, node).contains(e) && exists|
            l: int,
        | #[trigger] holds_in_range(e, l, start, end)),
{
    law_range_collects(store, node, lo, hi, start, end);
    lemma_tree_sorted(store, node, lo, hi);
    let t = tree_extents(store, node);
    let pred = |x: Extent| overlaps(x, start, end);
    let f = t.filter(pred);
    if f.contains(e) {
        t.lemma_filter_contains_rev(pred, e);
        let i = choose|i: int| 0 <= i < f.len() && f[i] == e;
        t.lemma_filter_pred(pred, i);
        assert(pred(f[i]));
        assert(overlaps(e, start, end));
        let j = choose|j: int| 0 <= j < t.len() && t[j] == e;
        assert(t[j].length > 0);
        let l = if e.logical_start < start { start } else { e.logical_start as int };
        assert(holds_in_range(e, l, start, end));
    }
    if t.contains(e) && exists|l: int| #[trigger] holds_in_range(e, l, start, end) {
        let l = choose|l: int| #[trigger] holds_in_range(e, l, start, end);
        assert(overlaps(e, start, end));
        let i = choose|i: int| 0 <= i < t.len() && t[i] == e;
        t.lemma_filter_contains(pred, i);
    }
}

} // verus!
