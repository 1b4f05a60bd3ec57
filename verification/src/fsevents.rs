//! The core decoder: flag words, headers, records and whole buffers.
//!
//! The byte-level grammar is stated by the `parse_*` spec functions; the
//! executable decoders are proved to return exactly what those functions
//! denote.

use vstd::prelude::*;
use vstd::bytes::{
    lemma_auto_spec_u32_to_from_le_bytes, lemma_auto_spec_u64_to_from_le_bytes,
    spec_u32_from_le_bytes, spec_u32_to_le_bytes, spec_u64_from_le_bytes, spec_u64_to_le_bytes,
    u32_from_le_bytes, u64_from_le_bytes,
};
use vstd::slice::slice_subrange;
use vstd::utf8::{decode_utf8, valid_utf8};

verus! {

/// Signature opening a block in the older record layout (no node field).
pub const DISKLOGGERV1: u32 = 0x444C5331;

/// Signature opening a block in the newer record layout (trailing node field).
pub const DISKLOGGERV2: u32 = 0x444C5332;

/// Record layout of one block, resolved once from the block's signature.
#[derive(Clone, Copy, Debug)]
pub enum Layout {
    V1,
    V2,
}

/// One decoded filesystem-change record.
#[derive(Debug)]
pub struct FsEvents {
    /// Names of the change kinds set in the record's flag word, joined with commas.
    pub flags: String,
    /// Stored path, always with a single leading `/`.
    pub path: String,
    /// Node identifier; explicit in the newer layout, zero in the older one.
    pub node: u64,
    /// Journal sequence number of the event.
    pub event_id: u64,
}

/// The 12-byte structure opening every block.
#[derive(Debug)]
pub struct FsEventsHeader {
    pub signature: u32,
    pub padding: u32,
    pub stream_size: u32,
}

/// A malformed buffer: short header, undersized stream, or truncated record.
#[derive(Debug)]
pub struct ParseError;

/// The fields of one record as they stand in the byte stream, before the path
/// is decoded to text: the mathematical value the decoders are specified over.
#[verifier::ext_equal]
pub ghost struct RawRecord {
    /// Path bytes up to (not including) the terminating zero byte.
    pub path: Seq<u8>,
    pub event_id: u64,
    pub flags: u32,
    pub node: u64,
}

/// The little-endian 32-bit integer stored at `pos`.
pub open spec fn le_u32_at(data: Seq<u8>, pos: int) -> u32
    recommends
        0 <= pos,
        pos + 4 <= data.len(),
{
    spec_u32_from_le_bytes(data.subrange(pos, pos + 4))
}

/// The little-endian 64-bit integer stored at `pos`.
pub open spec fn le_u64_at(data: Seq<u8>, pos: int) -> u64
    recommends
        0 <= pos,
        pos + 8 <= data.len(),
{
    spec_u64_from_le_bytes(data.subrange(pos, pos + 8))
}

/// The record layout a block signature selects, if it is recognized.
pub open spec fn layout_of(sig: u32) -> Option<Layout> {
    if sig == DISKLOGGERV1 {
        Some(Layout::V1)
    } else if sig == DISKLOGGERV2 {
        Some(Layout::V2)
    } else {
        None
    }
}

/// Position of the first zero byte in `data[pos..end]`, if any.
pub open spec fn find_nul(data: Seq<u8>, pos: int, end: int) -> Option<int>
    recommends
        0 <= pos,
        end <= data.len(),
    decreases end - pos,
{
    if pos >= end {
        None
    } else if data[pos] == 0 {
        Some(pos)
    } else {
        find_nul(data, pos + 1, end)
    }
}

/// What lossy UTF-8 decoding makes of a byte sequence: valid parts kept,
/// invalid sequences replaced, named so contracts can speak of it. Valid
/// UTF-8 decodes unchanged (stated where the name is applied).
pub uninterp spec fn utf8_lossy_of(bytes: Seq<u8>) -> Seq<char>;

/// The stored path for raw path bytes: the lossily decoded text with exactly
/// one leading slash added when the text does not already begin with one.
pub open spec fn stored_path(raw: Seq<u8>) -> Seq<char> {
    let text = utf8_lossy_of(raw);
    if text.len() > 0 && text[0] == '/' {
        text
    } else {
        seq!['/'] + text
    }
}

/// The fixed table of known change kinds: bit values in increasing order,
/// each with its symbolic name.
pub open spec fn flag_table() -> Seq<(u32, Seq<char>)> {
    seq![
        (0x01u32, "Created"@),
        (0x02u32, "Removed"@),
        (0x04u32, "InodeMetadataModified"@),
        (0x08u32, "Renamed"@),
        (0x10u32, "Modified"@),
        (0x20u32, "Exchange"@),
        (0x40u32, "FinderInfoModified"@),
        (0x80u32, "DirectoryCreated"@),
        (0x100u32, "PermissionChanged"@),
        (0x200u32, "ExtendedAttributeModified"@),
        (0x400u32, "ExtenedAttributeRemoved"@),
        (0x800u32, "DocumentCreated"@),
        (0x1000u32, "DocumentRevision"@),
        (0x2000u32, "UnmountPending"@),
        (0x4000u32, "ItemCloned"@),
        (0x10000u32, "NotificationClone"@),
        (0x20000u32, "ItemTruncated"@),
        (0x40000u32, "DirectoryEvent"@),
        (0x80000u32, "LastHardLinkRemoved"@),
        (0x100000u32, "IsHardLink"@),
        (0x400000u32, "IsSymbolicLink"@),
        (0x800000u32, "IsFile"@),
        (0x1000000u32, "IsDirectory"@),
        (0x2000000u32, "Mount"@),
        (0x4000000u32, "Unmount"@),
        (0x20000000u32, "EndOfTransaction"@),
    ]
}

/// Names of the table entries from index `i` on whose bit is set in `w`.
pub open spec fn names_from(w: u32, i: int) -> Seq<Seq<char>>
    decreases flag_table().len() - i,
{
    if i < 0 || i >= flag_table().len() {
        Seq::empty()
    } else if w & flag_table()[i].0 != 0 {
        seq![flag_table()[i].1] + names_from(w, i + 1)
    } else {
        names_from(w, i + 1)
    }
}

/// The ordered names of all change kinds set in the flag word `w`.
pub open spec fn flag_names(w: u32) -> Seq<Seq<char>> {
    names_from(w, 0)
}

/// `names[i..]` joined, each name preceded by a comma.
pub open spec fn join_tail(names: Seq<Seq<char>>, i: int) -> Seq<char>
    decreases names.len() - i,
{
    if i < 0 || i >= names.len() {
        Seq::empty()
    } else {
        ","@ + names[i] + join_tail(names, i + 1)
    }
}

/// The names joined with a comma between each pair.
pub open spec fn join_names(names: Seq<Seq<char>>) -> Seq<char> {
    if names.len() == 0 {
        Seq::empty()
    } else {
        names[0] + join_tail(names, 1)
    }
}

/// The flags text of a record with flag word `w`.
pub open spec fn flags_text(w: u32) -> Seq<char> {
    join_names(flag_names(w))
}

/// One record decoded from `data[pos..end]`, with the position just past it:
/// path bytes up to a zero byte, the zero byte, an 8-byte event id, a 4-byte
/// flag word and, in the newer layout only, an 8-byte node id.
pub open spec fn parse_record_at(data: Seq<u8>, pos: int, end: int, layout: Layout) -> Option<
    (RawRecord, int),
>
    recommends
        0 <= pos <= end <= data.len(),
{
    match find_nul(data, pos, end) {
        None => None,
        Some(z) => {
            let fixed: int = match layout {
                Layout::V1 => 12,
                Layout::V2 => 20,
            };
            if z + 1 + fixed > end {
                None
            } else {
                Some(
                    (
                        RawRecord {
                            path: data.subrange(pos, z),
                            event_id: le_u64_at(data, z + 1),
                            flags: le_u32_at(data, z + 9),
                            node: match layout {
                                Layout::V1 => 0u64,
                                Layout::V2 => le_u64_at(data, z + 13),
                            },
                        },
                        z + 1 + fixed,
                    ),
                )
            }
        },
    }
}

/// All records packed in the block `data[pos..end]`. The block must hold at
/// least one record and every byte must belong to some record; anything else
/// (including an empty block) is a parse failure, `None`.
pub open spec fn parse_records(data: Seq<u8>, pos: int, end: int, layout: Layout) -> Option<
    Seq<RawRecord>,
>
    recommends
        0 <= pos <= end <= data.len(),
    decreases end - pos,
{
    match parse_record_at(data, pos, end, layout) {
        None => None,
        Some((r, n)) => {
            // a decoded record always advances the cursor; the guard makes the
            // recursion visibly decreasing
            if pos < n <= end {
                if n == end {
                    Some(seq![r])
                } else {
                    match parse_records(data, n, end, layout) {
                        None => None,
                        Some(rest) => Some(seq![r] + rest),
                    }
                }
            } else {
                None
            }
        },
    }
}

/// All records in the buffer from `pos` on: zero or more blocks, each a
/// 12-byte header followed by `stream_size - 12` bytes of records. An
/// unrecognized signature ends decoding silently; a non-empty remainder
/// shorter than a header, a stream size under 12, a stream running past the
/// buffer, or a malformed block is a parse failure, `None`.
pub open spec fn parse_buffer(data: Seq<u8>, pos: int) -> Option<Seq<RawRecord>>
    recommends
        0 <= pos <= data.len(),
    decreases data.len() - pos,
{
    if pos >= data.len() {
        Some(Seq::empty())
    } else if pos + 12 > data.len() {
        None
    } else {
        match layout_of(le_u32_at(data, pos)) {
            None => Some(Seq::empty()),
            Some(layout) => {
                let size = le_u32_at(data, pos + 8) as int;
                if size < 12 {
                    None
                } else if pos + size > data.len() {
                    None
                } else {
                    match parse_records(data, pos + 12, pos + size, layout) {
                        None => None,
                        Some(recs) => {
                            match parse_buffer(data, pos + size) {
                                None => None,
                                Some(rest) => Some(recs + rest),
                            }
                        },
                    }
                }
            },
        }
    }
}

/// How a decoded record relates to the raw fields it was decoded from.
pub open spec fn event_matches(ev: FsEvents, r: RawRecord) -> bool {
    &&& ev.path@ == stored_path(r.path)
    &&& ev.flags@ == flags_text(r.flags)
    &&& ev.node == r.node
    &&& ev.event_id == r.event_id
}

/// Pointwise `event_matches` over whole sequences.
pub open spec fn events_match(evs: Seq<FsEvents>, rs: Seq<RawRecord>) -> bool {
    &&& evs.len() == rs.len()
    &&& forall|i: int| 0 <= i < rs.len() ==> event_matches(#[trigger] evs[i], rs[i])
}

/// The table entry at index `k`, as executable values.
fn flag_entry(k: usize) -> (r: (u32, &'static str))
    requires
        k < flag_table().len(),
    ensures
        r.0 == flag_table()[k as int].0,
        r.1@ == flag_table()[k as int].1,
{
    match k {
        0 => (0x01, "Created"),
        1 => (0x02, "Removed"),
        2 => (0x04, "InodeMetadataModified"),
        3 => (0x08, "Renamed"),
        4 => (0x10, "Modified"),
        5 => (0x20, "Exchange"),
        6 => (0x40, "FinderInfoModified"),
        7 => (0x80, "DirectoryCreated"),
        8 => (0x100, "PermissionChanged"),
        9 => (0x200, "ExtendedAttributeModified"),
        10 => (0x400, "ExtenedAttributeRemoved"),
        11 => (0x800, "DocumentCreated"),
        12 => (0x1000, "DocumentRevision"),
        13 => (0x2000, "UnmountPending"),
        14 => (0x4000, "ItemCloned"),
        15 => (0x10000, "NotificationClone"),
        16 => (0x20000, "ItemTruncated"),
        17 => (0x40000, "DirectoryEvent"),
        18 => (0x80000, "LastHardLinkRemoved"),
        19 => (0x100000, "IsHardLink"),
        20 => (0x400000, "IsSymbolicLink"),
        21 => (0x800000, "IsFile"),
        22 => (0x1000000, "IsDirectory"),
        23 => (0x2000000, "Mount"),
        24 => (0x4000000, "Unmount"),
        _ => (0x20000000, "EndOfTransaction"),
    }
}

impl FsEvents {
    /// Names of the change kinds set in `flags`, in increasing bit-value order.
    pub fn match_flags(flags: &u32) -> (r: Vec<String>)
        ensures
            r.deep_view() == flag_names(*flags),
    {
        let w: u32 = *flags;
        let mut list: Vec<String> = Vec::new();
        let mut k: usize = 0;
        while k < 26
            invariant
                k <= 26,
                flag_table().len() == 26,
                flag_names(w) == list.deep_view() + names_from(w, k as int),
            decreases 26 - k,
        {
            let entry = flag_entry(k);
            if w & entry.0 != 0 {
                let ghost old_list = list.deep_view();
                list.push(String::from_str(entry.1));
                proof {
                    assert(list.deep_view() =~~= old_list + seq![flag_table()[k as int].1]);
                    assert(old_list + (seq![flag_table()[k as int].1] + names_from(w, k + 1))
                        =~~= (old_list + seq![flag_table()[k as int].1]) + names_from(w, k + 1));
                }
            }
            k = k + 1;
        }
        proof {
            assert(list.deep_view() + names_from(w, 26) =~~= list.deep_view());
        }
        list
    }
}

/// A raw record that the byte format can represent under `layout`: its path
/// holds no zero byte, and the older layout stores no node value.
pub open spec fn wf_record(r: RawRecord, layout: Layout) -> bool {
    &&& forall|i: int| 0 <= i < r.path.len() ==> r.path[i] != 0
    &&& (layout is V1 ==> r.node == 0)
}

/// Pointwise `wf_record`.
pub open spec fn wf_records(rs: Seq<RawRecord>, layout: Layout) -> bool {
    forall|i: int| 0 <= i < rs.len() ==> wf_record(#[trigger] rs[i], layout)
}

/// The bytes of one record under `layout`: path bytes, a zero byte, the event
/// id, the flag word and, in the newer layout, the node id.
pub open spec fn encode_record(r: RawRecord, layout: Layout) -> Seq<u8> {
    r.path + seq![0u8] + spec_u64_to_le_bytes(r.event_id) + spec_u32_to_le_bytes(r.flags) + (
    match layout {
        Layout::V1 => Seq::<u8>::empty(),
        Layout::V2 => spec_u64_to_le_bytes(r.node),
    })
}

/// The bytes of a record sequence packed back to back.
pub open spec fn encode_records(rs: Seq<RawRecord>, layout: Layout) -> Seq<u8>
    decreases rs.len(),
{
    if rs.len() == 0 {
        Seq::empty()
    } else {
        encode_record(rs[0], layout) + encode_records(rs.drop_first(), layout)
    }
}

/// The 12 bytes of a block header.
pub open spec fn header_bytes(sig: u32, padding: u32, stream_size: u32) -> Seq<u8> {
    spec_u32_to_le_bytes(sig) + spec_u32_to_le_bytes(padding) + spec_u32_to_le_bytes(stream_size)
}

/// A found zero byte is inside the range, the bytes before it are non-zero,
/// and it is the zero byte the search names.
proof fn lemma_find_nul_some(data: Seq<u8>, pos: int, end: int)
    requires
        0 <= pos,
        end <= data.len(),
        find_nul(data, pos, end) is Some,
    ensures
        pos <= find_nul(data, pos, end).unwrap() < end,
        data[find_nul(data, pos, end).unwrap()] == 0,
    decreases end - pos,
{
    if pos < end && data[pos] != 0 {
        lemma_find_nul_some(data, pos + 1, end);
    }
}

/// Scanning may skip a prefix known to hold no zero byte.
proof fn lemma_find_nul_skip(data: Seq<u8>, pos: int, i: int, end: int)
    requires
        0 <= pos <= i <= end,
        end <= data.len(),
        forall|j: int| pos <= j < i ==> data[j] != 0,
    ensures
        find_nul(data, pos, end) == find_nul(data, i, end),
    decreases i - pos,
{
    if pos < i {
        lemma_find_nul_skip(data, pos + 1, i, end);
    }
}

/// Relies on String::from_utf8_lossy: the result depends on the bytes alone —
/// valid parts are kept and invalid sequences replaced with the replacement
/// character — and bytes that are valid UTF-8 (vstd's model) decode unchanged,
/// as its documentation states.
#[verifier::external_body]
fn decode_path_text(bytes: &[u8]) -> (r: String)
    ensures
        r@ == utf8_lossy_of(bytes@),
        valid_utf8(bytes@) ==> r@ == decode_utf8(bytes@),
{
    String::from_utf8_lossy(bytes).into_owned()
}

impl FsEvents {
    /// Decode one record from `data[pos..end]`; on success also return the
    /// position just past it.
    pub fn get_fsevent_data(data: &Vec<u8>, pos: usize, end: usize, layout: Layout) -> (res:
        Result<(FsEvents, usize), ParseError>)
        requires
            pos <= end <= data@.len(),
        ensures
            match parse_record_at(data@, pos as int, end as int, layout) {
                Some(pr) => res matches Ok(o) && event_matches(o.0, pr.0) && o.1 == pr.1,
                None => res is Err,
            },
    {
        let mut z: usize = pos;
        while z < end && data[z] != 0
            invariant
                pos <= z <= end <= data@.len(),
                forall|j: int| pos <= j < z ==> data@[j] != 0,
            decreases end - z,
        {
            z = z + 1;
        }
        proof {
            lemma_find_nul_skip(data@, pos as int, z as int, end as int);
        }
        if z == end {
            // no terminating zero byte inside the block
            return Err(ParseError);
        }
        assert(find_nul(data@, pos as int, end as int) == Some(z as int));
        let fixed: usize = match layout {
            Layout::V1 => 12,
            Layout::V2 => 20,
        };
        if end - z < fixed + 1 {
            // the fixed-width fields would run past the block
            return Err(ParseError);
        }
        let path_text = decode_path_text(slice_subrange(data.as_slice(), pos, z));
        let event_id = u64_from_le_bytes(slice_subrange(data.as_slice(), z + 1, z + 9));
        let flag_word = u32_from_le_bytes(slice_subrange(data.as_slice(), z + 9, z + 13));
        let node: u64 = match layout {
            Layout::V1 => 0,
            Layout::V2 => u64_from_le_bytes(slice_subrange(data.as_slice(), z + 13, z + 21)),
        };
        let starts_with_slash = path_text.as_str().unicode_len() > 0 && path_text.as_str().get_char(
            0,
        ) == '/';
        let path = if starts_with_slash {
            path_text
        } else {
            let mut p = String::from_str("/");
            p.append(path_text.as_str());
            proof {
                reveal_strlit("/");
                assert(p@ =~= seq!['/'] + path_text@);
            }
            p
        };
        let names = FsEvents::match_flags(&flag_word);
        let flags = join_flag_names(&names);
        let ev = FsEvents { flags, path, node, event_id };
        Ok((ev, z + 1 + fixed))
    }

    /// Decode every record packed in the block `data[pos..end]`.
    pub fn get_fsevent(data: &Vec<u8>, pos: usize, end: usize, layout: Layout) -> (res: Result<
        Vec<FsEvents>,
        ParseError,
    >)
        requires
            pos <= end <= data@.len(),
        ensures
            match parse_records(data@, pos as int, end as int, layout) {
                Some(rs) => res matches Ok(evs) && events_match(evs@, rs),
                None => res is Err,
            },
    {
        let mut out: Vec<FsEvents> = Vec::new();
        let ghost mut done: Seq<RawRecord> = Seq::empty();
        let mut cur: usize = pos;
        loop
            invariant
                pos <= cur <= end <= data@.len(),
                events_match(out@, done),
                match parse_records(data@, cur as int, end as int, layout) {
                    Some(rest) => parse_records(data@, pos as int, end as int, layout) == Some(
                        done + rest,
                    ),
                    None => parse_records(data@, pos as int, end as int, layout) is None,
                },
            decreases end - cur,
        {
            let step = FsEvents::get_fsevent_data(data, cur, end, layout);
            match step {
                Err(e) => {
                    return Err(e);
                },
                Ok((ev, n)) => {
                    proof {
                        let pr = parse_record_at(data@, cur as int, end as int, layout).unwrap();
                        lemma_find_nul_some(data@, cur as int, end as int);
                        let ghost old_done = done;
                        done = done.push(pr.0);
                        assert(done =~= old_done + seq![pr.0]);
                    }
                    out.push(ev);
                    assert(events_match(out@, done));
                    if n == end {
                        proof {
                            let pr = parse_record_at(data@, cur as int, end as int, layout)
                                .unwrap();
                            assert(parse_records(data@, cur as int, end as int, layout) == Some(
                                seq![pr.0],
                            ));
                            assert(done.drop_last() + seq![pr.0] =~= done);
                        }
                        return Ok(out);
                    }
                    proof {
                        let pr = parse_record_at(data@, cur as int, end as int, layout).unwrap();
                        let old_done = done.drop_last();
                        if parse_records(data@, pr.1, end as int, layout) is Some {
                            let rest = parse_records(data@, pr.1, end as int, layout).unwrap();
                            assert(old_done + (seq![pr.0] + rest) =~= done + rest);
                        }
                    }
                    cur = n;
                },
            }
        }
    }
}

impl FsEvents {
    /// Read the 12-byte header stored at `pos`: signature, padding and stream
    /// size, each a little-endian 32-bit integer.
    pub fn fsevents_header(data: &Vec<u8>, pos: usize) -> (res: Result<FsEventsHeader, ParseError>)
        requires
            pos <= data@.len(),
        ensures
            pos + 12 <= data@.len() ==> (res matches Ok(h) && h.signature == le_u32_at(
                data@,
                pos as int,
            ) && h.padding == le_u32_at(data@, pos as int + 4) && h.stream_size == le_u32_at(
                data@,
                pos as int + 8,
            )),
            pos + 12 > data@.len() ==> res is Err,
    {
        if data.len() - pos < 12 {
            return Err(ParseError);
        }
        let signature = u32_from_le_bytes(slice_subrange(data.as_slice(), pos, pos + 4));
        let padding = u32_from_le_bytes(slice_subrange(data.as_slice(), pos + 4, pos + 8));
        let stream_size = u32_from_le_bytes(slice_subrange(data.as_slice(), pos + 8, pos + 12));
        Ok(FsEventsHeader { signature, padding, stream_size })
    }

    /// Decode a whole decompressed buffer: walk its blocks in order and return
    /// every record. An empty buffer holds no records; an unrecognized
    /// signature at a block boundary ends the walk silently.
    pub fn fsevents_data(data: &Vec<u8>) -> (res: Result<Vec<FsEvents>, ParseError>)
        ensures
            match parse_buffer(data@, 0) {
                Some(rs) => res matches Ok(evs) && events_match(evs@, rs),
                None => res is Err,
            },
            data@.len() == 0 ==> (res matches Ok(evs) && evs@.len() == 0),
    {
        let mut total: Vec<FsEvents> = Vec::new();
        let ghost mut done: Seq<RawRecord> = Seq::empty();
        let mut pos: usize = 0;
        loop
            invariant
                pos <= data@.len(),
                events_match(total@, done),
                match parse_buffer(data@, pos as int) {
                    Some(rest) => parse_buffer(data@, 0) == Some(done + rest),
                    None => parse_buffer(data@, 0) is None,
                },
            decreases data@.len() - pos,
        {
            if pos == data.len() {
                proof {
                    assert(done + Seq::<RawRecord>::empty() =~= done);
                }
                return Ok(total);
            }
            let header = match FsEvents::fsevents_header(data, pos) {
                Err(e) => {
                    return Err(e);
                },
                Ok(h) => h,
            };
            let layout = if header.signature == DISKLOGGERV1 {
                Layout::V1
            } else if header.signature == DISKLOGGERV2 {
                Layout::V2
            } else {
                // unrecognized trailing bytes are a benign end marker
                proof {
                    assert(done + Seq::<RawRecord>::empty() =~= done);
                }
                return Ok(total);
            };
            if header.stream_size < 12 {
                return Err(ParseError);
            }
            let size = header.stream_size as usize;
            if data.len() - pos < size {
                return Err(ParseError);
            }
            let bend = pos + size;
            let mut evs = match FsEvents::get_fsevent(data, pos + 12, bend, layout) {
                Err(e) => {
                    return Err(e);
                },
                Ok(evs) => evs,
            };
            proof {
                let recs = parse_records(data@, pos + 12, bend as int, layout).unwrap();
                let old_done = done;
                done = done + recs;
                if parse_buffer(data@, bend as int) is Some {
                    let rest = parse_buffer(data@, bend as int).unwrap();
                    assert(old_done + (recs + rest) =~= done + rest);
                }
            }
            total.append(&mut evs);
            assert(events_match(total@, done));
            pos = bend;
        }
    }
}

/// A zero byte found in a range is still the one found in any wider range.
proof fn lemma_find_nul_extend(data: Seq<u8>, pos: int, end: int, end2: int)
    requires
        0 <= pos,
        end <= end2 <= data.len(),
        find_nul(data, pos, end) is Some,
    ensures
        find_nul(data, pos, end2) == find_nul(data, pos, end),
    decreases end - pos,
{
    if pos < end && data[pos] != 0 {
        lemma_find_nul_extend(data, pos + 1, end, end2);
    }
}

/// Decoding the encoding: a block that holds exactly the bytes of a non-empty
/// well-formed record sequence decodes back to that sequence.
proof fn lemma_parse_encoded_records(data: Seq<u8>, pos: int, rs: Seq<RawRecord>, layout: Layout)
    requires
        0 <= pos,
        pos + encode_records(rs, layout).len() <= data.len(),
        data.subrange(pos, pos + encode_records(rs, layout).len()) =~= encode_records(rs, layout),
        rs.len() > 0,
        wf_records(rs, layout),
    ensures
        parse_records(data, pos, pos + encode_records(rs, layout).len(), layout) == Some(rs),
    decreases rs.len(),
{
    lemma_auto_spec_u32_to_from_le_bytes();
    lemma_auto_spec_u64_to_from_le_bytes();
    let enc = encode_records(rs, layout);
    let r0 = rs[0];
    let enc0 = encode_record(r0, layout);
    let rest = encode_records(rs.drop_first(), layout);
    assert(enc =~= enc0 + rest);
    let end = pos + enc.len();
    let plen = r0.path.len() as int;
    let fixed: int = match layout {
        Layout::V1 => 12,
        Layout::V2 => 20,
    };
    assert(enc0.len() == plen + 1 + fixed);
    let z = pos + plen;
    assert forall|j: int| 0 <= j < enc0.len() implies data[pos + j] == enc0[j] by {
        assert(data[pos + j] == data.subrange(pos, end)[j]);
    }
    assert forall|j: int| pos <= j < z implies data[j] != 0 by {
        assert(data[j] == enc0[j - pos]);
        assert(enc0[j - pos] == r0.path[j - pos]);
    }
    assert(enc0[plen] == 0);
    assert(data[z] == 0);
    lemma_find_nul_skip(data, pos, z, end);
    assert(find_nul(data, pos, end) == Some(z));
    assert(data.subrange(pos, z) =~= r0.path);
    assert forall|j: int| 0 <= j < 8 implies data.subrange(z + 1, z + 9)[j] == spec_u64_to_le_bytes(
        r0.event_id,
    )[j] by {
        let k = plen + 1 + j;
        assert(data[pos + k] == enc0[k]);
        assert(enc0[k] == spec_u64_to_le_bytes(r0.event_id)[j]);
    }
    assert(data.subrange(z + 1, z + 9) =~= spec_u64_to_le_bytes(r0.event_id));
    assert forall|j: int| 0 <= j < 4 implies data.subrange(z + 9, z + 13)[j]
        == spec_u32_to_le_bytes(r0.flags)[j] by {
        let k = plen + 9 + j;
        assert(data[pos + k] == enc0[k]);
        assert(enc0[k] == spec_u32_to_le_bytes(r0.flags)[j]);
    }
    assert(data.subrange(z + 9, z + 13) =~= spec_u32_to_le_bytes(r0.flags));
    if layout is V2 {
        assert forall|j: int| 0 <= j < 8 implies data.subrange(z + 13, z + 21)[j]
            == spec_u64_to_le_bytes(r0.node)[j] by {
            let k = plen + 13 + j;
            assert(data[pos + k] == enc0[k]);
            assert(enc0[k] == spec_u64_to_le_bytes(r0.node)[j]);
        }
        assert(data.subrange(z + 13, z + 21) =~= spec_u64_to_le_bytes(r0.node));
    }
    let pr = parse_record_at(data, pos, end, layout).unwrap();
    assert(pr.0 =~= r0);
    let n = pos + enc0.len();
    assert(pr.1 == n);
    if rs.len() == 1 {
        assert(rest.len() == 0);
        assert(n == end);
        assert(seq![r0] =~= rs);
    } else {
        assert(rs.drop_first().len() > 0);
        assert(rest.len() > 0);
        assert forall|j: int| 0 <= j < rest.len() implies data.subrange(n, n + rest.len())[j]
            == rest[j] by {
            let k = enc0.len() + j;
            assert(data[pos + k] == data.subrange(pos, end)[k]);
            assert(enc[k] == rest[j]);
        }
        assert(data.subrange(n, n + rest.len()) =~= rest);
        lemma_parse_encoded_records(data, n, rs.drop_first(), layout);
        assert(seq![r0] + rs.drop_first() =~= rs);
    }
}

/// LAW: a buffer built as one newer-layout header whose stream size is 12 plus
/// the byte length of a non-empty well-formed record sequence, followed by
/// exactly those record bytes, decodes to exactly that sequence — every byte
/// of the block is accounted for and nothing is left unconsumed.
pub proof fn lemma_encoded_stream_round_trip(rs: Seq<RawRecord>, padding: u32)
    requires
        rs.len() > 0,
        wf_records(rs, Layout::V2),
        12 + encode_records(rs, Layout::V2).len() <= u32::MAX,
    ensures
        parse_buffer(
            header_bytes(
                DISKLOGGERV2,
                padding,
                (12 + encode_records(rs, Layout::V2).len()) as u32,
            ) + encode_records(rs, Layout::V2),
            0,
        ) == Some(rs),
{
    lemma_auto_spec_u32_to_from_le_bytes();
    lemma_auto_spec_u64_to_from_le_bytes();
    let enc = encode_records(rs, Layout::V2);
    let n = enc.len() as int;
    let size = (12 + n) as u32;
    let hdr = header_bytes(DISKLOGGERV2, padding, size);
    let buf = hdr + enc;
    assert(hdr.len() == 12);
    assert(encode_record(rs[0], Layout::V2).len() >= 21);
    assert(enc =~= encode_record(rs[0], Layout::V2) + encode_records(rs.drop_first(), Layout::V2));
    assert(n >= 21);
    assert(buf.subrange(0, 4) =~= spec_u32_to_le_bytes(DISKLOGGERV2));
    assert(le_u32_at(buf, 0) == DISKLOGGERV2);
    assert(buf.subrange(8, 12) =~= spec_u32_to_le_bytes(size));
    assert(le_u32_at(buf, 8) == size);
    assert(size as int == 12 + n);
    assert(buf.subrange(12, 12 + n) =~= enc);
    lemma_parse_encoded_records(buf, 12, rs, Layout::V2);
    assert(parse_buffer(buf, 12 + n) == Some(Seq::<RawRecord>::empty()));
    assert(rs + Seq::<RawRecord>::empty() =~= rs);
}

/// LAW: a record decoded under the older layout always has node zero; the
/// same raw bytes, with the eight node bytes present after them, decode under
/// the newer layout to the same path, event id and flags, with the node read
/// from those eight bytes.
pub proof fn lemma_node_by_layout(data: Seq<u8>, pos: int, end: int)
    requires
        0 <= pos <= end,
        end + 8 <= data.len(),
        parse_record_at(data, pos, end, Layout::V1) is Some,
    ensures
        parse_record_at(data, pos, end, Layout::V1).unwrap().0.node == 0,
        ({
            let (r, n) = parse_record_at(data, pos, end, Layout::V1).unwrap();
            parse_record_at(data, pos, end + 8, Layout::V2) == Some(
                (
                    RawRecord {
                        path: r.path,
                        event_id: r.event_id,
                        flags: r.flags,
                        node: le_u64_at(data, n),
                    },
                    n + 8,
                ),
            )
        }),
{
    lemma_find_nul_extend(data, pos, end, end + 8);
    lemma_find_nul_some(data, pos, end);
}

/// Join decoded flag names with a comma between each pair.
fn join_flag_names(list: &Vec<String>) -> (r: String)
    ensures
        r@ == join_names(list.deep_view()),
{
    let mut out = String::new();
    if list.len() == 0 {
        return out;
    }
    out.append(list[0].as_str());
    let mut k: usize = 1;
    while k < list.len()
        invariant
            1 <= k <= list@.len(),
            join_names(list.deep_view()) == out@ + join_tail(list.deep_view(), k as int),
        decreases list@.len() - k,
    {
        let ghost old_out = out@;
        out.append(",");
        out.append(list[k].as_str());
        proof {
            assert(out@ =~= old_out + (","@ + list.deep_view()[k as int]));
            assert(old_out + (","@ + list.deep_view()[k as int] + join_tail(
                list.deep_view(),
                k + 1,
            )) =~~= (old_out + (","@ + list.deep_view()[k as int])) + join_tail(
                list.deep_view(),
                k + 1,
            ));
        }
        k = k + 1;
    }
    proof {
        assert(out@ + join_tail(list.deep_view(), list@.len() as int) =~= out@);
    }
    out
}

} // verus!
