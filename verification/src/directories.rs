use vstd::prelude::*;
use vstd::bytes::*;
use vstd::slice::slice_subrange;
use vstd::utf8::{decode_utf8, encode_utf8, valid_utf8};
use crate::block::{append_bytes, le_u16_at, le_u32_at};
use crate::constants::{BLOCK_HEADER_SIZE, BLOCK_PAYLOAD_SIZE, BLOCK_SIZE, ROOT_INODE_NUM, S_IFDIR, S_IFMT};
use crate::bitmaps::{bit_count, bits, block_run, extent_blocks, find_blocks, free_entries, mark_blocks_used, covered, in_extent, runs_well_formed, extents_within, free_below, is_used};
use crate::extent_tree::Extent;
use crate::file_errors::FileError;

verus! {

broadcast use vstd::seq_lib::group_seq_properties;

/// Whether a mode's file type is "directory".
pub open spec fn mode_is_dir(mode: u16) -> bool {
    mode & S_IFMT == S_IFDIR
}

/// Whether `mode` describes a directory.
pub fn is_dir(mode: u16) -> (r: bool)
    ensures
        r == mode_is_dir(mode),
{
    mode & 0o170000 == S_IFDIR
}

/// The bytes are valid UTF-8, and the string is what they encode: the
/// standard library's `String::from_utf8`.
#[verifier::external_body]
fn string_from_utf8(bytes: Vec<u8>) -> (r: Option<String>)
    ensures
        r is Some <==> valid_utf8(bytes@),
        r matches Some(s) ==> s@ == decode_utf8(bytes@),
{
    String::from_utf8(bytes).ok()
}

/// A directory's bytes hold a whole number of entries: each entry is a
/// 2-byte name length, the name, and a 4-byte inode number.
pub open spec fn dirents_complete(b: Seq<u8>) -> bool
    decreases b.len(),
{
    if b.len() == 0 {
        true
    } else if b.len() < 2 {
        false
    } else {
        let n = le_u16_at(b, 0) as int;
        if b.len() < n + 6 {
            false
        } else {
            dirents_complete(b.skip(n + 6))
        }
    }
}

/// The entries (name, inode number) stored in a directory's bytes, or `None`
/// when a name is not valid UTF-8.
pub open spec fn parse_dirents_spec(b: Seq<u8>) -> Option<Seq<(Seq<char>, int)>>
    decreases b.len(),
{
    if b.len() < 2 {
        Some(Seq::empty())
    } else {
        let n = le_u16_at(b, 0) as int;
        if b.len() < n + 6 {
            None
        } else {
            let name = b.subrange(2, 2 + n);
            if !valid_utf8(name) {
                None
            } else {
                match parse_dirents_spec(b.skip(n + 6)) {
                    None => None,
                    Some(rest) => Some(
                        seq![(decode_utf8(name), le_u32_at(b, 2 + n) as int)] + rest,
                    ),
                }
            }
        }
    }
}

/// A directory entry as the name's characters and the inode number.
pub open spec fn dirent_view(d: (String, usize)) -> (Seq<char>, int) {
    (d.0@, d.1 as int)
}

/// Directory entries as names' characters and inode numbers.
pub open spec fn dirents_view(ds: Seq<(String, usize)>) -> Seq<(Seq<char>, int)> {
    ds.map_values(|d: (String, usize)| dirent_view(d))
}

/// The bytes one directory entry is stored as.
pub open spec fn dirent_bytes(name: Seq<char>, inode: int) -> Seq<u8> {
    spec_u16_to_le_bytes(encode_utf8(name).len() as u16) + encode_utf8(name) + spec_u32_to_le_bytes(
        inode as u32,
    )
}

/// The bytes a list of directory entries is stored as.
pub open spec fn dirents_bytes(ds: Seq<(Seq<char>, int)>) -> Seq<u8>
    decreases ds.len(),
{
    if ds.len() == 0 {
        Seq::empty()
    } else {
        dirent_bytes(ds[0].0, ds[0].1) + dirents_bytes(ds.drop_first())
    }
}

/// Entries whose names fit the 2-byte length and whose inode numbers fit
/// the 4-byte field.
pub open spec fn dirents_storable(ds: Seq<(Seq<char>, int)>) -> bool {
    forall|k: int|
        0 <= k < ds.len() ==> encode_utf8((#[trigger] ds[k]).0).len() <= u16::MAX && 0 <= ds[k].1
            <= u32::MAX
}

/// Prepends `acc` to a parse result.
pub open spec fn prepend_parsed(
    acc: Seq<(Seq<char>, int)>,
    r: Option<Seq<(Seq<char>, int)>>,
) -> Option<Seq<(Seq<char>, int)>> {
    match r {
        None => None,
        Some(rest) => Some(acc + rest),
    }
}

/// Reads the entries of a directory from its bytes. A name that is not
/// valid UTF-8 is a corrupted inode.
pub fn parse_dirents(dir_buf: &[u8]) -> (r: Result<Vec<(String, usize)>, FileError>)
    requires
        dirents_complete(dir_buf@),
    ensures
        match r {
            Ok(ds) => parse_dirents_spec(dir_buf@) == Some(dirents_view(ds@)),
            Err(e) => parse_dirents_spec(dir_buf@) is None && e == FileError::CorruptedINode,
        },
{
    let mut dirents: Vec<(String, usize)> = Vec::new();
    let mut offset: usize = 0;
    while offset < dir_buf.len()
        invariant
            offset <= dir_buf@.len(),
            dirents_complete(dir_buf@.skip(offset as int)),
            parse_dirents_spec(dir_buf@) == prepend_parsed(
                dirents_view(dirents@),
                parse_dirents_spec(dir_buf@.skip(offset as int)),
            ),
        decreases dir_buf@.len() - offset,
    {
        let ghost rest = dir_buf@.skip(offset as int);
        let name_len = u16_from_le_bytes(slice_subrange(dir_buf, offset, offset + 2));
        assert(dir_buf@.subrange(offset as int, offset + 2) =~= rest.subrange(0, 2));
        offset += 2;
        let name_bytes = slice_subrange(dir_buf, offset, offset + name_len as usize);
        let mut buf: Vec<u8> = Vec::new();
        let mut k: usize = 0;
        while k < name_bytes.len()
            invariant
                k <= name_bytes@.len(),
                buf@ == name_bytes@.take(k as int),
            decreases name_bytes@.len() - k,
        {
            buf.push(name_bytes[k]);
            k = k + 1;
            assert(buf@ =~= name_bytes@.take(k as int));
        }
        assert(name_bytes@.take(name_bytes@.len() as int) =~= name_bytes@);
        assert(name_bytes@ =~= rest.subrange(2, 2 + name_len));
        let name = match string_from_utf8(buf) {
            Some(name) => name,
            None => return Err(FileError::CorruptedINode),
        };
        offset += name_len as usize;
        let inode_num = u32_from_le_bytes(slice_subrange(dir_buf, offset, offset + 4));
        assert(dir_buf@.subrange(offset as int, offset + 4) =~= rest.subrange(
            2 + name_len,
            2 + name_len + 4,
        ));
        let ghost before = dirents_view(dirents@);
        dirents.push((name, inode_num as usize));
        offset += 4;
        assert(dir_buf@.skip(offset as int) =~= rest.skip(name_len + 6));
        assert(dirents_view(dirents@) =~= before + seq![(decode_utf8(rest.subrange(2, 2 + name_len)), le_u32_at(rest, 2 + name_len) as int)]);
    }
    assert(dir_buf@.skip(offset as int) =~= Seq::<u8>::empty());
    assert(dirents_view(dirents@) + Seq::<(Seq<char>, int)>::empty() =~= dirents_view(dirents@));
    Ok(dirents)
}

/// The bytes of one directory entry: the name's length as 2 bytes, the
/// name, the inode number as 4 bytes. Both numbers are truncated to their
/// fields.
pub fn encode_dirent(name: &String, inode: usize) -> (r: Vec<u8>)
    ensures
        r@ == dirent_bytes(name@, inode as int),
{
    let bytes = name.as_str().as_bytes();
    let mut buf = u16_to_le_bytes(bytes.len() as u16);
    let mut k: usize = 0;
    let ghost head = buf@;
    while k < bytes.len()
        invariant
            k <= bytes@.len(),
            buf@ == head + bytes@.take(k as int),
        decreases bytes@.len() - k,
    {
        buf.push(bytes[k]);
        k = k + 1;
        assert(buf@ =~= head + bytes@.take(k as int));
    }
    assert(bytes@.take(bytes@.len() as int) =~= bytes@);
    append_bytes(&mut buf, u32_to_le_bytes(inode as u32));
    buf
}

/// How `total` bytes of directory entries are laid out over blocks: chunk
/// `i` goes to logical block `i` and holds the bytes from `i` payloads on,
/// up to the next payload or the end.
pub fn payload_chunks(total: usize) -> (r: Vec<(u32, usize, usize)>)
    requires
        total <= u32::MAX,
    ensures
        r@.len() == (total as int) / (BLOCK_PAYLOAD_SIZE as int) + if (total as int) % (BLOCK_PAYLOAD_SIZE as int) == 0 { 0int } else { 1int },
        forall|i: int|
            0 <= i < r@.len() ==> #[trigger] r@[i] == (
                i as u32,
                (i * BLOCK_PAYLOAD_SIZE) as usize,
                (if (i + 1) * BLOCK_PAYLOAD_SIZE < total { (i + 1) * BLOCK_PAYLOAD_SIZE } else { total as int }) as usize,
            ),
{
    let payload_size: usize = 4082;
    assert(payload_size == BLOCK_PAYLOAD_SIZE);
    let n = total / payload_size + if total % payload_size == 0 { 0 } else { 1 };
    let mut r: Vec<(u32, usize, usize)> = Vec::new();
    let mut i: usize = 0;
    while i < n
        invariant
            total <= u32::MAX,
            payload_size == BLOCK_PAYLOAD_SIZE,
            n == total / 4082 + if total % 4082 == 0 { 0int } else { 1int },
            i <= n,
            r@.len() == i,
            forall|j: int|
                0 <= j < i ==> #[trigger] r@[j] == (
                    j as u32,
                    (j * BLOCK_PAYLOAD_SIZE) as usize,
                    (if (j + 1) * BLOCK_PAYLOAD_SIZE < total { (j + 1) * BLOCK_PAYLOAD_SIZE } else { total as int }) as usize,
                ),
        decreases n - i,
    {
        assert(i * 4082 < total) by (nonlinear_arith)
            requires
                i < n,
                n == total / 4082 + if total % 4082 == 0 { 0int } else { 1int },
        {
            assert(total == 4082 * (total / 4082) + total % 4082);
        }
        let start = i * payload_size;
        let end = if total - start > payload_size { start + payload_size } else { total };
        assert(i <= u32::MAX) by (nonlinear_arith)
            requires
                i * 4082 < total,
                total <= u32::MAX,
        ;
        r.push((i as u32, start, end));
        i = i + 1;
    }
    r
}

/// The bytes a list of directory entries is stored as, entry after entry.
pub fn encode_dirents(dirents: &Vec<(String, usize)>) -> (r: Vec<u8>)
    ensures
        r@ == dirents_bytes(dirents_view(dirents@)),
{
    let mut buf: Vec<u8> = Vec::new();
    let mut i: usize = 0;
    while i < dirents.len()
        invariant
            i <= dirents@.len(),
            dirents_bytes(dirents_view(dirents@)) == buf@ + dirents_bytes(
                dirents_view(dirents@).skip(i as int),
            ),
        decreases dirents@.len() - i,
    {
        let ghost v = dirents_view(dirents@).skip(i as int);
        let e = encode_dirent(&dirents[i].0, dirents[i].1);
        let ghost prev = buf@;
        append_bytes(&mut buf, e);
        proof {
            assert(v[0] == dirent_view(dirents@[i as int]));
            assert(v.drop_first() =~= dirents_view(dirents@).skip(i + 1));
            assert(dirents_bytes(v) == e@ + dirents_bytes(v.drop_first()));
            assert(buf@ == prev + e@);
            assert(prev + e@ + dirents_bytes(v.drop_first()) =~= prev + (e@ + dirents_bytes(v.drop_first())));
        }
        i = i + 1;
    }
    assert(dirents_view(dirents@).skip(i as int) =~= Seq::<(Seq<char>, int)>::empty());
    buf
}

/// Reading back the stored bytes of a list of directory entries gives the
/// list, when every name fits its 2-byte length and every inode number its
/// 4-byte field.
pub proof fn law_dirents_round_trip(ds: Seq<(Seq<char>, int)>)
    requires
        dirents_storable(ds),
    ensures
        dirents_complete(dirents_bytes(ds)),
        parse_dirents_spec(dirents_bytes(ds)) == Some(ds),
    decreases ds.len(),
{
    broadcast use vstd::utf8::group_utf8_lib;

    if ds.len() > 0 {
        let rest = ds.drop_first();
        assert(dirents_storable(rest)) by {
            assert forall|k: int| 0 <= k < rest.len() implies encode_utf8((#[trigger] rest[k]).0).len()
                <= u16::MAX && 0 <= rest[k].1 <= u32::MAX by {
                assert(rest[k] == ds[k + 1]);
            }
        }
        law_dirents_round_trip(rest);
        let name = ds[0].0;
        let nb = encode_utf8(name);
        let n = nb.len() as int;
        assert(encode_utf8((ds[0]).0).len() <= u16::MAX);
        lemma_auto_spec_u16_to_from_le_bytes();
        lemma_auto_spec_u32_to_from_le_bytes();
        let b = dirents_bytes(ds);
        assert(b.subrange(0, 2) =~= spec_u16_to_le_bytes(n as u16));
        assert(le_u16_at(b, 0) == n);
        assert(b.subrange(2, 2 + n) =~= nb);
        assert(b.subrange(2 + n, 2 + n + 4) =~= spec_u32_to_le_bytes(ds[0].1 as u32));
        assert(b.skip(n + 6) =~= dirents_bytes(rest));
        assert(seq![(decode_utf8(nb), le_u32_at(b, 2 + n) as int)] + rest =~= ds);
    }
}

/// The lexer's state after some characters of a path: the names finished so
/// far, the name being read, and whether an escape is pending.
pub struct LexState {
    pub tokens: Seq<Seq<char>>,
    pub current: Seq<char>,
    pub escaped: bool,
}

/// The lexer's state after reading `chars`. A `/` ends the current name
/// (an empty name is dropped) unless an escape is pending, in which case it
/// becomes part of the name and the escape is spent. A `\` starts an escape
/// and is dropped; any other character is part of the name and leaves a
/// pending escape pending.
pub open spec fn lex_state(chars: Seq<char>) -> LexState
    decreases chars.len(),
{
    if chars.len() == 0 {
        LexState { tokens: Seq::empty(), current: Seq::empty(), escaped: false }
    } else {
        let st = lex_state(chars.drop_last());
        let c = chars.last();
        if c == '/' {
            if st.escaped {
                LexState { tokens: st.tokens, current: st.current.push(c), escaped: false }
            } else if st.current.len() != 0 {
                LexState { tokens: st.tokens.push(st.current), current: Seq::empty(), escaped: false }
            } else {
                LexState { tokens: st.tokens, current: Seq::empty(), escaped: false }
            }
        } else if c == '\\' {
            LexState { tokens: st.tokens, current: st.current, escaped: true }
        } else {
            LexState { tokens: st.tokens, current: st.current.push(c), escaped: st.escaped }
        }
    }
}

/// The names of a path, in order.
pub open spec fn lex_tokens(chars: Seq<char>) -> Seq<Seq<char>> {
    let st = lex_state(chars);
    if st.current.len() != 0 {
        st.tokens.push(st.current)
    } else {
        st.tokens
    }
}

/// Appends `c` to `s`: the standard library's `String::push`.
#[verifier::external_body]
fn push_char(s: &mut String, c: char)
    ensures
        final(s)@ == old(s)@.push(c),
{
    s.push(c)
}

/// The strings' characters.
pub open spec fn strings_view(v: Seq<String>) -> Seq<Seq<char>> {
    v.map_values(|s: String| s@)
}

/// Splits a path into its names at unescaped `/`, dropping empty names;
/// `\` escapes a following `/`.
pub fn lexer(path: &String) -> (r: Vec<String>)
    ensures
        strings_view(r@) == lex_tokens(path@),
{
    broadcast use vstd::string::group_string_axioms;

    let mut curr_name = String::new();
    let mut tokens: Vec<String> = Vec::new();
    let mut is_escape = false;
    let ghost chars = path@;
    for c in it: path.as_str().chars()
        invariant
            chars == path@,
            it.seq() == chars,
            ({
                let st = lex_state(chars.take(it.index() as int));
                &&& strings_view(tokens@) == st.tokens
                &&& curr_name@ == st.current
                &&& is_escape == st.escaped
            }),
    {
        let ghost i = it.index() as int;
        assert(chars.take(i + 1).drop_last() =~= chars.take(i));
        assert(chars.take(i + 1).last() == c);
        if c == '/' {
            if is_escape {
                push_char(&mut curr_name, c);
                is_escape = false;
            } else {
                if !curr_name.as_str().is_empty() {
                    let ghost before = strings_view(tokens@);
                    tokens.push(curr_name.clone());
                    assert(strings_view(tokens@) =~= before.push(curr_name@));
                }
                curr_name = String::new();
            }
        } else if c == '\\' {
            is_escape = true;
        } else {
            push_char(&mut curr_name, c);
        }
    }
    assert(chars.take(chars.len() as int) =~= chars);
    if !curr_name.as_str().is_empty() {
        let ghost before = strings_view(tokens@);
        tokens.push(curr_name);
        assert(strings_view(tokens@) =~= before.push(lex_state(chars).current));
    }
    tokens
}

proof fn lemma_lex_state(chars: Seq<char>)
    ensures
        forall|k: int|
            0 <= k < lex_state(chars).tokens.len() ==> (#[trigger] lex_state(chars).tokens[k]).len()
                > 0,
        !chars.contains('\\') ==> {
            &&& !lex_state(chars).escaped
            &&& !lex_state(chars).current.contains('/')
            &&& forall|k: int|
                0 <= k < lex_state(chars).tokens.len() ==> !(
                #[trigger] lex_state(chars).tokens[k]).contains('/')
        },
    decreases chars.len(),
{
    if chars.len() > 0 {
        let front = chars.drop_last();
        lemma_lex_state(front);
        let st0 = lex_state(front);
        let now = lex_state(chars);
        assert forall|k: int| 0 <= k < now.tokens.len() implies (#[trigger] now.tokens[k]).len() > 0 by {
            if k < st0.tokens.len() {
                assert(now.tokens[k] == st0.tokens[k]);
            }
        }
        if !chars.contains('\\') {
            assert(!front.contains('\\')) by {
                if front.contains('\\') {
                    let k = choose|k: int| 0 <= k < front.len() && front[k] == '\\';
                    assert(chars[k] == '\\');
                }
            }
            assert(chars[chars.len() - 1] != '\\');
            let st = lex_state(front);
            let c = chars.last();
            assert forall|k: int| 0 <= k < now.tokens.len() implies !(#[trigger] now.tokens[k]).contains('/') by {
                if k < st0.tokens.len() {
                    assert(now.tokens[k] == st0.tokens[k]);
                }
            }
            if c != '/' {
                assert forall|j: int| 0 <= j < st.current.push(c).len() implies st.current.push(c)[j]
                    != '/' by {
                    if j < st.current.len() {
                        assert(!st.current.contains('/'));
                        assert(st.current[j] != '/');
                    }
                }
            }
        }
    }
}

/// Every name the lexer returns is nonempty, and a path without `\` gives
/// names without `/`.
pub proof fn law_lexer_tokens(chars: Seq<char>)
    ensures
        forall|k: int| 0 <= k < lex_tokens(chars).len() ==> (#[trigger] lex_tokens(chars)[k]).len() > 0,
        !chars.contains('\\') ==> forall|k: int|
            0 <= k < lex_tokens(chars).len() ==> !(#[trigger] lex_tokens(chars)[k]).contains('/'),
{
    lemma_lex_state(chars);
}

/// Finds the first directory entry named `name`.
pub fn find_dirent(dirents: &Vec<(String, usize)>, name: &String) -> (r: Option<usize>)
    ensures
        match r {
            Some(i) => {
                &&& i < dirents@.len()
                &&& dirents@[i as int].0@ == name@
                &&& forall|j: int| 0 <= j < i ==> (#[trigger] dirents@[j]).0@ != name@
            },
            None => forall|j: int| 0 <= j < dirents@.len() ==> (#[trigger] dirents@[j]).0@ != name@,
        },
{
    let mut i: usize = 0;
    while i < dirents.len()
        invariant
            i <= dirents@.len(),
            forall|j: int| 0 <= j < i ==> (#[trigger] dirents@[j]).0@ != name@,
        decreases dirents@.len() - i,
    {
        if dirents[i].0 == *name {
            return Some(i);
        }
        i = i + 1;
    }
    None
}

/// Where the entries stored in a directory block end: the first offset,
/// from `off` on, whose 2-byte name length is 0. `None` when the entries run
/// past the end of the block before such an offset.
pub open spec fn dirents_end(b: Seq<u8>, off: int) -> Option<int>
    decreases b.len() - off,
{
    if off < 0 || off + 2 > b.len() {
        None
    } else if le_u16_at(b, off) == 0 {
        Some(off)
    } else if off + 6 + le_u16_at(b, off) > b.len() {
        None
    } else {
        dirents_end(b, off + 6 + le_u16_at(b, off))
    }
}

/// Finds where a new directory entry of `entry_len` bytes goes in a
/// directory block: after the entries already there, which end at the first
/// zero name length; `None` when it does not fit before the end of the block.
pub fn dirent_slot(buf: &[u8], entry_len: usize) -> (r: Option<usize>)
    requires
        dirents_end(buf@, BLOCK_HEADER_SIZE as int) is Some,
        buf@.len() <= BLOCK_SIZE,
    ensures
        ({
            let end = dirents_end(buf@, BLOCK_HEADER_SIZE as int)->0;
            match r {
                Some(off) => off == end && BLOCK_SIZE - end >= entry_len,
                None => BLOCK_SIZE - end < entry_len,
            }
        }),
{
    let mut offset = BLOCK_HEADER_SIZE;
    loop
        invariant
            buf@.len() <= BLOCK_SIZE,
            dirents_end(buf@, offset as int) == dirents_end(buf@, BLOCK_HEADER_SIZE as int),
            dirents_end(buf@, offset as int) is Some,
        ensures
            dirents_end(buf@, BLOCK_HEADER_SIZE as int) == Some(offset as int),
        decreases buf@.len() - offset,
    {
        let len = u16_from_le_bytes(slice_subrange(buf, offset, offset + 2));
        if len == 0 {
            break;
        }
        offset += 2 + len as usize + 4;
    }
    if BLOCK_SIZE - offset < entry_len {
        None
    } else {
        Some(offset)
    }
}

/// Where a new directory entry goes.
#[derive(Clone, Copy, Debug, PartialEq, Eq, Structural)]
pub enum DirentPlace {
    /// In the directory's block `index` (in logical order), at byte `offset`.
    InBlock { index: usize, offset: usize },
    /// In a new block, added as logical block `logical`.
    NewBlock { logical: u32 },
}

/// Where an entry of `entry_len` bytes fits in directory block `b`: at the
/// end of its entries, when there is room for it before the end of the
/// block.
pub open spec fn slot_in(b: Seq<u8>, entry_len: int) -> Option<int> {
    let end = dirents_end(b, BLOCK_HEADER_SIZE as int)->0;
    if BLOCK_SIZE - end >= entry_len {
        Some(end)
    } else {
        None
    }
}

/// Chooses where a new entry of `entry_len` bytes goes in a directory whose
/// blocks, in logical order, are `blocks`: the first block with room for
/// it, after its entries; when none has room, a new block appended after
/// the last.
pub fn dirent_place(blocks: &Vec<Vec<u8>>, entry_len: usize) -> (r: DirentPlace)
    requires
        blocks@.len() <= u32::MAX,
        forall|i: int|
            0 <= i < blocks@.len() ==> dirents_end(#[trigger] blocks@[i]@, BLOCK_HEADER_SIZE as int) is Some
                && blocks@[i]@.len() <= BLOCK_SIZE,
    ensures
        match r {
            DirentPlace::InBlock { index, offset } => {
                &&& index < blocks@.len()
                &&& slot_in(blocks@[index as int]@, entry_len as int) == Some(offset as int)
                &&& forall|j: int| 0 <= j < index ==> slot_in(#[trigger] blocks@[j]@, entry_len as int) is None
            },
            DirentPlace::NewBlock { logical } => {
                &&& logical == blocks@.len()
                &&& forall|j: int|
                    0 <= j < blocks@.len() ==> slot_in(#[trigger] blocks@[j]@, entry_len as int) is None
            },
        },
{
    let mut i: usize = 0;
    while i < blocks.len()
        invariant
            i <= blocks@.len(),
            blocks@.len() <= u32::MAX,
            forall|j: int|
                0 <= j < blocks@.len() ==> dirents_end(#[trigger] blocks@[j]@, BLOCK_HEADER_SIZE as int) is Some
                    && blocks@[j]@.len() <= BLOCK_SIZE,
            forall|j: int| 0 <= j < i ==> slot_in(#[trigger] blocks@[j]@, entry_len as int) is None,
        decreases blocks@.len() - i,
    {
        assert(dirents_end(blocks@[i as int]@, BLOCK_HEADER_SIZE as int) is Some);
        if let Some(offset) = dirent_slot(blocks[i].as_slice(), entry_len) {
            return DirentPlace::InBlock { index: i, offset };
        }
        i = i + 1;
    }
    DirentPlace::NewBlock { logical: blocks.len() as u32 }
}

proof fn lemma_extent_blocks_len(exts: Seq<Extent>)
    requires
        forall|j: int| 0 <= j < exts.len() ==> #[trigger] exts[j].length > 0,
    ensures
        extent_blocks(exts).len() >= exts.len(),
        exts.len() > 0 ==> extent_blocks(exts).len() >= exts.last().length + exts.len() - 1,
    decreases exts.len(),
{
    if exts.len() > 0 {
        let front = exts.drop_last();
        assert forall|j: int| 0 <= j < front.len() implies #[trigger] front[j].length > 0 by {
            assert(front[j] == exts[j]);
        }
        lemma_extent_blocks_len(front);
        assert(exts[exts.len() - 1].length > 0);
    }
}

/// Allocates one block: the first free block of the block bitmap is marked
/// used and returned; with no free block the bitmap is left alone.
pub fn allocate_block(bitmap: &mut [u8]) -> (r: Result<u32, FileError>)
    requires
        bit_count(old(bitmap)@) <= u32::MAX,
    ensures
        final(bitmap)@.len() == old(bitmap)@.len(),
        match r {
            Ok(b) => {
                &&& free_entries(old(bitmap)@).len() > 0
                &&& b == free_entries(old(bitmap)@)[0]
                &&& bits(final(bitmap)@) == bits(old(bitmap)@).update(b as int, true)
                &&& free_entries(final(bitmap)@).len() + 1 == free_entries(old(bitmap)@).len()
            },
            Err(e) => {
                &&& e == FileError::NoMoreBlocks
                &&& free_entries(old(bitmap)@).len() == 0
                &&& final(bitmap)@ == old(bitmap)@
            },
        },
{
    let new_extent = find_blocks(bitmap, 1);
    if new_extent.len() == 0 {
        proof {
            if free_entries(bitmap@).len() > 0 {
                assert(extent_blocks(new_extent@) =~= Seq::<int>::empty());
                assert(free_entries(bitmap@).take(1).len() == 1);
            }
        }
        return Err(FileError::NoMoreBlocks);
    }
    let ghost old_bits = bits(bitmap@);
    let ghost old_bm = bitmap@;
    proof {
        let ex = new_extent@;
        lemma_extent_blocks_len(ex);
        assert(ex.len() == 1);
        assert(ex.drop_last() =~= Seq::<Extent>::empty());
        assert(extent_blocks(ex) =~= block_run(ex[0].physical_start as int, ex[0].length as int));
        assert(extent_blocks(ex)[0] == free_entries(bitmap@)[0]);
        crate::bitmaps::lemma_free_entry_facts(bitmap@, 0);
        assert(extents_within(ex, bit_count(bitmap@)));
    }
    mark_blocks_used(bitmap, new_extent.as_slice());
    let b = new_extent[0].physical_start;
    proof {
        let ex = new_extent@;
        assert(ex[0].length == 1 && ex[0].physical_start == b);
        assert forall|x: int| #![auto] covered(ex, x) == (x == b) by {
            assert(ex.drop_last() =~= Seq::<Extent>::empty());
            assert(!covered(ex.drop_last(), x));
            assert(ex.last() == ex[0]);
        }
        assert(bits(bitmap@) =~= old_bits.update(b as int, true));
        crate::bitmaps::lemma_take_free_entry(old_bm, bitmap@, b as int);
    }
    Ok(b)
}

/// Whether a directory's bytes hold a whole number of entries.
pub fn dirents_are_complete(buf: &[u8]) -> (r: bool)
    ensures
        r == dirents_complete(buf@),
{
    let mut offset: usize = 0;
    while offset < buf.len()
        invariant
            offset <= buf@.len(),
            dirents_complete(buf@) == dirents_complete(buf@.skip(offset as int)),
        decreases buf@.len() - offset,
    {
        let ghost rest = buf@.skip(offset as int);
        if buf.len() - offset < 2 {
            return false;
        }
        let name_len = u16_from_le_bytes(slice_subrange(buf, offset, offset + 2));
        assert(buf@.subrange(offset as int, offset + 2) =~= rest.subrange(0, 2));
        if buf.len() - offset - 2 < name_len as usize + 4 {
            return false;
        }
        offset = offset + 6 + name_len as usize;
        assert(buf@.skip(offset as int) =~= rest.skip(name_len + 6));
    }
    assert(buf@.skip(offset as int) =~= Seq::<u8>::empty());
    true
}

/// Whether the entries stored in a directory block end, at a zero name
/// length, before they run past the end of the block.
pub fn dirents_end_in_block(buf: &[u8]) -> (r: bool)
    ensures
        r == dirents_end(buf@, BLOCK_HEADER_SIZE as int) is Some,
{
    let mut offset = BLOCK_HEADER_SIZE;
    loop
        invariant
            BLOCK_HEADER_SIZE <= offset,
            dirents_end(buf@, offset as int) == dirents_end(buf@, BLOCK_HEADER_SIZE as int),
        decreases buf@.len() - offset,
    {
        if offset > buf.len() || buf.len() - offset < 2 {
            return false;
        }
        let len = u16_from_le_bytes(slice_subrange(buf, offset, offset + 2));
        if len == 0 {
            return true;
        }
        if buf.len() - offset < 6 + len as usize {
            return false;
        }
        offset = offset + 6 + len as usize;
    }
}

/// Where a path lookup starts: the root directory for an empty or absolute
/// path, else the current directory.
pub fn path_start(path: &String, current: usize) -> (r: usize)
    ensures
        r == if path@.len() == 0 || path@[0] == '/' {
            ROOT_INODE_NUM
        } else {
            current
        },
{
    if path.as_str().is_empty() || starts_with_slash(path) {
        ROOT_INODE_NUM
    } else {
        current
    }
}

/// Whether the path starts with `/`.
fn starts_with_slash(path: &String) -> (r: bool)
    ensures
        r == (path@.len() > 0 && path@[0] == '/'),
{
    broadcast use vstd::string::group_string_axioms;

    let mut first: Option<char> = None;
    let ghost chars = path@;
    for c in it: path.as_str().chars()
        invariant
            chars == path@,
            it.seq() == chars,
            first == (if it.index() == 0 {
                None::<char>
            } else {
                Some(chars[0])
            }),
    {
        let ghost i = it.index() as int;
        assert(chars.take(i + 1).last() == c);
        if first.is_none() {
            first = Some(c);
        }
    }
    match first {
        Some(c) => c == '/',
        None => false,
    }
}

/// Names joined into one path, with a `/` between each two.
pub open spec fn join_names(ts: Seq<Seq<char>>) -> Seq<char>
    decreases ts.len(),
{
    if ts.len() == 0 {
        Seq::empty()
    } else if ts.len() == 1 {
        ts[0]
    } else {
        join_names(ts.drop_last()) + seq!['/'] + ts.last()
    }
}

/// A path with its leading and trailing slashes dropped and every run of
/// slashes between two names made a single slash.
pub open spec fn squeeze_slashes(p: Seq<char>) -> Seq<char>
    decreases p.len(),
{
    if p.len() == 0 {
        Seq::empty()
    } else {
        let front = p.drop_last();
        let s = squeeze_slashes(front);
        if p.last() == '/' {
            s
        } else if front.len() > 0 && front.last() == '/' && s.len() > 0 {
            s + seq!['/', p.last()]
        } else {
            s.push(p.last())
        }
    }
}

proof fn lemma_lex_squeeze(chars: Seq<char>)
    requires
        !chars.contains('\\'),
    ensures
        ({
            let st = lex_state(chars);
            &&& (st.current.len() == 0) == (chars.len() == 0 || chars.last() == '/')
            &&& (join_names(st.tokens).len() > 0) == (st.tokens.len() > 0)
            &&& squeeze_slashes(chars) == if st.current.len() > 0 {
                if st.tokens.len() > 0 {
                    join_names(st.tokens) + seq!['/'] + st.current
                } else {
                    st.current
                }
            } else {
                join_names(st.tokens)
            }
        }),
    decreases chars.len(),
{
    lemma_lex_state(chars);
    if chars.len() > 0 {
        let front = chars.drop_last();
        assert(!front.contains('\\')) by {
            if front.contains('\\') {
                let k = choose|k: int| 0 <= k < front.len() && front[k] == '\\';
                assert(chars[k] == '\\');
            }
        }
        assert(chars[chars.len() - 1] != '\\');
        lemma_lex_squeeze(front);
        lemma_lex_state(front);
        let st = lex_state(front);
        let now = lex_state(chars);
        let c = chars.last();
        if st.tokens.len() > 0 {
            assert(st.tokens[st.tokens.len() - 1].len() > 0);
        }
        if now.tokens.len() > 0 {
            assert(now.tokens[now.tokens.len() - 1].len() > 0);
            assert(now.tokens.drop_last() == st.tokens || now.tokens == st.tokens);
        }
        if c == '/' {
            if st.current.len() != 0 {
                assert(now.tokens == st.tokens.push(st.current));
                assert(now.tokens.drop_last() =~= st.tokens);
            }
        } else {
            assert(now.current == st.current.push(c));
            if st.current.len() > 0 {
                assert(join_names(st.tokens) + seq!['/'] + st.current.push(c) =~= (join_names(st.tokens)
                    + seq!['/'] + st.current).push(c));
            } else {
                assert(st.current.push(c) =~= seq![c]);
                assert(join_names(st.tokens) + seq!['/'] + seq![c] =~= join_names(st.tokens) + seq!['/', c]);
                assert(Seq::<char>::empty().push(c) =~= seq![c]);
            }
        }
    }
}

/// For a path without `\`, the lexer's names are the pieces of the path
/// between slashes, empty pieces dropped: each is nonempty and holds no
/// `/`, and joined with `/` between them they give back the path with its
/// leading and trailing slashes dropped and each run of slashes made one.
pub proof fn law_lexer_splits_at_slashes(chars: Seq<char>)
    requires
        !chars.contains('\\'),
    ensures
        join_names(lex_tokens(chars)) == squeeze_slashes(chars),
        forall|k: int| 0 <= k < lex_tokens(chars).len() ==> (#[trigger] lex_tokens(chars)[k]).len() > 0,
        forall|k: int| 0 <= k < lex_tokens(chars).len() ==> !(#[trigger] lex_tokens(chars)[k]).contains('/'),
{
    lemma_lex_squeeze(chars);
    law_lexer_tokens(chars);
    let st = lex_state(chars);
    if st.current.len() != 0 {
        assert(st.tokens.push(st.current).drop_last() =~= st.tokens);
    }
}

} // verus!
