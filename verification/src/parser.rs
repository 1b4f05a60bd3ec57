//! Decompression, whole-file parsing and the batch layer.

use vstd::prelude::*;
use crate::fsevents::{events_match, parse_buffer, FsEvents, ParseError, RawRecord};
use crate::size::{get_file_size, MAX_FILE_SIZE};

verus! {

/// What `flate2` inflates a gzip stream to, named so contracts can speak of
/// it: `None` for a stream it cannot decode, otherwise the inflated bytes.
pub uninterp spec fn gunzip_of(data: Seq<u8>) -> Option<Seq<u8>>;

/// Relies on flate2::read::MultiGzDecoder: inflating an in-memory multi-member
/// gzip stream — both whether it succeeds and what it yields — is a function
/// of the input bytes alone; a stream it cannot decode yields `None` here.
#[verifier::external_body]
fn decompress_bytes(data: &Vec<u8>) -> (r: Option<Vec<u8>>)
    ensures
        r is Some <==> gunzip_of(data@) is Some,
        r matches Some(out) ==> Some(out@) == gunzip_of(data@),
{
    let mut decoder = flate2::read::MultiGzDecoder::new(data.as_slice());
    let mut out = Vec::new();
    match std::io::Read::read_to_end(&mut decoder, &mut out) {
        Ok(_) => Some(out),
        Err(_) => None,
    }
}

/// Decode a whole decompressed journal buffer into its record sequence.
pub fn parse_fsevents(data: &Vec<u8>) -> (res: Result<Vec<FsEvents>, ParseError>)
    ensures
        match parse_buffer(data@, 0) {
            Some(rs) => res matches Ok(evs) && events_match(evs@, rs),
            None => res is Err,
        },
        data@.len() == 0 ==> (res matches Ok(evs) && evs@.len() == 0),
{
    FsEvents::fsevents_data(data)
}

/// Well-known journal directory on current systems.
pub fn get_fseventsd() -> (r: String)
    ensures
        r@ == "/System/Volumes/Data/.fseventsd/"@,
{
    String::from_str("/System/Volumes/Data/.fseventsd/")
}

/// Well-known journal directory on older systems.
pub fn get_fseventsd_legacy() -> (r: String)
    ensures
        r@ == "/.fseventsd"@,
{
    String::from_str("/.fseventsd")
}

/// A directory entry names a journal file unless it is the well-known control
/// file `fseventsd-uuid`.
pub open spec fn is_journal_name(name: Seq<char>) -> bool {
    name != "fseventsd-uuid"@
}

/// The journal-file names among a directory's entries, in order.
pub open spec fn journal_names(names: Seq<Seq<char>>) -> Seq<Seq<char>> {
    names.filter(|n: Seq<char>| is_journal_name(n))
}

/// Keep the journal files among a directory's entries: every entry except the
/// control file `fseventsd-uuid`, in their given order.
pub fn fseventsd(entries: &Vec<String>) -> (r: Vec<String>)
    ensures
        r.deep_view() == journal_names(entries.deep_view()),
{
    let excluded = String::from_str("fseventsd-uuid");
    let mut out: Vec<String> = Vec::new();
    let mut i: usize = 0;
    while i < entries.len()
        invariant
            i <= entries@.len(),
            excluded@ == "fseventsd-uuid"@,
            out.deep_view() == journal_names(entries.deep_view().take(i as int)),
        decreases entries@.len() - i,
    {
        let ghost old_out = out.deep_view();
        if !(entries[i] == excluded) {
            out.push(entries[i].clone());
            proof {
                assert(out.deep_view() =~~= old_out.push(entries.deep_view()[i as int]));
            }
        }
        proof {
            reveal(Seq::filter);
            let names = entries.deep_view();
            assert(names.take(i + 1).drop_last() =~~= names.take(i as int));
            assert(names.take(i + 1).last() == names[i as int]);
            assert(out.deep_view() =~~= journal_names(names.take(i + 1)));
        }
        i = i + 1;
    }
    proof {
        reveal(Seq::filter);
        assert(entries.deep_view().take(entries@.len() as int) =~~= entries.deep_view());
    }
    out
}

/// One journal file handed to the batch layer: its size as the filesystem
/// reports it, and its raw (still compressed) contents.
pub struct FsEventsFile {
    pub size: u64,
    pub data: Vec<u8>,
}

/// Outcome of a batch run: every record decoded from the files that passed the
/// size guard, decompressed and parsed, with the counts of files skipped by
/// the guard and of files that failed decompression or parsing.
pub struct FsEventsBatch {
    pub records: Vec<FsEvents>,
    pub skipped: usize,
    pub failed: usize,
}

/// Spec-level outcome of a batch run.
pub ghost struct BatchOutcome {
    pub records: Seq<RawRecord>,
    pub skipped: int,
    pub failed: int,
}

/// What one file contributes to a batch: nothing but a skip count at or above
/// the size ceiling; nothing but a failure count when its stream does not
/// decompress or its buffer does not parse; its full record sequence otherwise.
pub open spec fn file_outcome(f: FsEventsFile) -> BatchOutcome {
    if f.size >= MAX_FILE_SIZE {
        BatchOutcome { records: Seq::empty(), skipped: 1, failed: 0 }
    } else {
        match gunzip_of(f.data@) {
            None => BatchOutcome { records: Seq::empty(), skipped: 0, failed: 1 },
            Some(buffer) => match parse_buffer(buffer, 0) {
                None => BatchOutcome { records: Seq::empty(), skipped: 0, failed: 1 },
                Some(recs) => BatchOutcome { records: recs, skipped: 0, failed: 0 },
            },
        }
    }
}

/// Batch outcome over a file sequence: per-file contributions concatenated in
/// file order.
pub open spec fn batch_spec(files: Seq<FsEventsFile>) -> BatchOutcome
    decreases files.len(),
{
    if files.len() == 0 {
        BatchOutcome { records: Seq::empty(), skipped: 0, failed: 0 }
    } else {
        let prev = batch_spec(files.drop_last());
        let last = file_outcome(files.last());
        BatchOutcome {
            records: prev.records + last.records,
            skipped: prev.skipped + last.skipped,
            failed: prev.failed + last.failed,
        }
    }
}

/// Decode a batch of journal files. Files at or above the size ceiling are
/// skipped unread; a file that fails decompression or parsing contributes no
/// records and is counted as failed; every other file contributes its full
/// record sequence, in file order.
pub fn parse_fseventsd_data(files: &Vec<FsEventsFile>) -> (r: FsEventsBatch)
    ensures
        events_match(r.records@, batch_spec(files@).records),
        r.skipped == batch_spec(files@).skipped,
        r.failed == batch_spec(files@).failed,
{
    let mut records: Vec<FsEvents> = Vec::new();
    let mut skipped: usize = 0;
    let mut failed: usize = 0;
    let ghost mut done: Seq<RawRecord> = Seq::empty();
    let mut i: usize = 0;
    while i < files.len()
        invariant
            i <= files@.len(),
            events_match(records@, done),
            done == batch_spec(files@.take(i as int)).records,
            skipped == batch_spec(files@.take(i as int)).skipped,
            failed == batch_spec(files@.take(i as int)).failed,
            skipped + failed <= i,
        decreases files@.len() - i,
    {
        let ghost old_done = done;
        let file = &files[i];
        if !get_file_size(file.size) {
            skipped = skipped + 1;
        } else {
            match decompress_bytes(&file.data) {
                None => {
                    failed = failed + 1;
                },
                Some(buffer) => {
                    match parse_fsevents(&buffer) {
                        Err(_) => {
                            failed = failed + 1;
                        },
                        Ok(mut evs) => {
                            proof {
                                let recs = parse_buffer(buffer@, 0).unwrap();
                                done = done + recs;
                            }
                            records.append(&mut evs);
                            proof {
                                assert(events_match(records@, done));
                            }
                        },
                    }
                },
            }
        }
        proof {
            assert(files@.take(i + 1).drop_last() =~= files@.take(i as int));
            assert(files@.take(i + 1).last() == files@[i as int]);
            if done != old_done {
                assert(done =~= batch_spec(files@.take(i + 1)).records);
            }
            assert(done == batch_spec(files@.take(i + 1)).records);
        }
        i = i + 1;
    }
    proof {
        assert(files@.take(files@.len() as int) =~= files@);
    }
    FsEventsBatch { records, skipped, failed }
}

/// Removing a file whose contribution holds no records leaves the batch's
/// records unchanged and its counts reduced by that file's own counts.
proof fn lemma_batch_remove(files: Seq<FsEventsFile>, i: int)
    requires
        0 <= i < files.len(),
        file_outcome(files[i]).records == Seq::<RawRecord>::empty(),
    ensures
        batch_spec(files).records == batch_spec(files.remove(i)).records,
        batch_spec(files).skipped == batch_spec(files.remove(i)).skipped + file_outcome(
            files[i],
        ).skipped,
        batch_spec(files).failed == batch_spec(files.remove(i)).failed + file_outcome(
            files[i],
        ).failed,
    decreases files.len(),
{
    if i == files.len() - 1 {
        assert(files.remove(i) =~= files.drop_last());
        assert(batch_spec(files.drop_last()).records + Seq::<RawRecord>::empty() =~= batch_spec(
            files.drop_last(),
        ).records);
    } else {
        lemma_batch_remove(files.drop_last(), i);
        assert(files.remove(i).drop_last() =~= files.drop_last().remove(i));
        assert(files.remove(i).last() == files.last());
        assert(batch_spec(files).records =~= batch_spec(files.remove(i)).records);
    }
}

/// LAW: a file at or above the size ceiling is excluded from decompression and
/// decoding — it contributes no records, whatever its bytes hold — and is
/// recorded as skipped; the rest of the batch stands unchanged.
pub proof fn lemma_oversize_file_skipped(files: Seq<FsEventsFile>, i: int)
    requires
        0 <= i < files.len(),
        files[i].size >= MAX_FILE_SIZE,
    ensures
        batch_spec(files).records == batch_spec(files.remove(i)).records,
        batch_spec(files).skipped == batch_spec(files.remove(i)).skipped + 1,
        batch_spec(files).failed == batch_spec(files.remove(i)).failed,
{
    lemma_batch_remove(files, i);
}

/// LAW: a file that fails decompression, or whose decompressed buffer fails to
/// parse, contributes zero records to a multi-file batch and is counted as
/// failed, while every other file's records stand unchanged.
pub proof fn lemma_failed_file_isolated(files: Seq<FsEventsFile>, i: int)
    requires
        0 <= i < files.len(),
        files[i].size < MAX_FILE_SIZE,
        gunzip_of(files[i].data@) matches Some(buffer) ==> parse_buffer(buffer, 0) is None,
    ensures
        batch_spec(files).records == batch_spec(files.remove(i)).records,
        batch_spec(files).skipped == batch_spec(files.remove(i)).skipped,
        batch_spec(files).failed == batch_spec(files.remove(i)).failed + 1,
{
    lemma_batch_remove(files, i);
}

} // verus!
