//! The archives that releases of the tool come in: the program is their first entry.
use std::io::Read;

use vstd::prelude::*;

use crate::text::parse_unsigned;
#[allow(unused_imports)]
use crate::text::{decimal, numbers_are_read_back, parsed_unsigned};

verus! {

/// The length of a header in a tar archive; everything in one starts at a multiple of it.
pub const BLOCK: u64 = 512;

/// Why no program could be taken out of a zip archive.
#[derive(Clone, Copy, Debug, PartialEq, Eq, Structural)]
pub enum ZipFault {
    Open,
    Empty,
    Extract,
}

/// Why no program could be taken out of a compressed tar archive.
#[derive(Clone, Copy, Debug, PartialEq, Eq, Structural)]
pub enum TarFault {
    Open,
    Empty,
    Entry,
    Extract,
}

/// What entry `index` of the zip archive in `bytes` holds, or at which stage reading it fails: the
/// directory of the archive, the header of the entry, or its contents.
pub uninterp spec fn zip_entry(bytes: Seq<u8>, index: nat) -> Result<Seq<u8>, ZipFault>;

/// What a gzip decoder gives of `bytes` until their end or the first fault in them.
pub uninterp spec fn gunzipped(bytes: Seq<u8>) -> Seq<u8>;

/// The size that a header of a tar archive states, where it can be read.
pub uninterp spec fn stated_size(header: Seq<u8>) -> Option<u64>;

/// The records of an extended header of a tar archive, each a key and a value, or nothing where it
/// is malformed.
pub uninterp spec fn pax_records(bytes: Seq<u8>) -> Seq<Option<(Seq<u8>, Seq<u8>)>>;

/// What the first entry of the gzip-compressed tar archive in `bytes` holds, or at which stage
/// reading it fails: the archive, its end before any entry, the header of the entry, or its
/// contents.
pub uninterp spec fn tar_gz_first_entry(bytes: Seq<u8>) -> Result<Seq<u8>, TarFault>;

/// Whether the bytes, or the fault, are the same.
pub open spec fn is_outcome<F>(out: Result<Vec<u8>, F>, outcome: Result<Seq<u8>, F>) -> bool {
    match (out, outcome) {
        (Ok(bytes), Ok(expected)) => bytes@ == expected,
        (Err(fault), Err(expected)) => fault == expected,
        _ => false,
    }
}

/// Reads an entry of a zip archive with `zip::ZipArchive`: `new`, `by_index`, and the contents of
/// the entry to their end. Claims that the outcome depends on the bytes of the archive and the
/// index alone; what it is for given bytes is left to the crate. Memory for the contents is taken
/// to be there.
#[verifier::external_body]
fn read_zip_entry(bytes: &Vec<u8>, index: usize) -> (out: Result<Vec<u8>, ZipFault>)
    ensures
        is_outcome(out, zip_entry(bytes@, index as nat)),
{
    let cursor = std::io::Cursor::new(bytes.as_slice());
    let mut archive = zip::ZipArchive::new(cursor).map_err(|_| ZipFault::Open)?;
    let mut entry = archive.by_index(index).map_err(|_| ZipFault::Empty)?;
    let mut out: Vec<u8> = Vec::new();
    std::io::copy(&mut entry, &mut out).map_err(|_| ZipFault::Extract)?;
    Ok(out)
}

/// The part of `s` from `start` on, at most `n` long.
pub open spec fn part_of(s: Seq<u8>, start: nat, n: nat) -> Seq<u8> {
    let from = if start < s.len() {
        start
    } else {
        s.len()
    };
    let to = if start + n < s.len() {
        start + n
    } else {
        s.len()
    };
    s.subrange(from as int, to as int)
}

/// Decompresses `bytes` with `flate2::read::GzDecoder`, until their end or the first fault. It is
/// read byte by byte, so that nothing is lost that stands before a fault: reading it in larger
/// pieces gives no more. Claims that what comes out depends on the bytes alone; what it is for
/// given bytes is left to the crate. Memory for it is taken to be there.
#[verifier::external_body]
fn gunzip(bytes: &Vec<u8>) -> (out: Vec<u8>)
    ensures
        out@ == gunzipped(bytes@),
{
    let decoder = flate2::read::GzDecoder::new(std::io::Cursor::new(bytes.as_slice()));
    decoder.bytes().map_while(Result::ok).collect()
}

/// `tar::Header::entry_size` of the header in `block`. Claims that it depends on the bytes of the
/// header alone.
#[verifier::external_body]
fn read_size(block: &Vec<u8>) -> (out: Option<u64>)
    requires
        block@.len() == BLOCK,
    ensures
        out == stated_size(block@),
{
    tar::Header::from_byte_slice(block.as_slice()).entry_size().ok()
}

pub open spec fn record_views(records: Seq<Option<(Vec<u8>, Vec<u8>)>>) -> Seq<
    Option<(Seq<u8>, Seq<u8>)>,
> {
    records.map_values(
        |record: Option<(Vec<u8>, Vec<u8>)>|
            match record {
                Some((key, value)) => Some((key@, value@)),
                None => None,
            },
    )
}

/// Lists the records that `tar::PaxExtensions` gives of an extended header. Claims that they
/// depend on the bytes of the header alone.
#[verifier::external_body]
fn read_pax_records(bytes: &Vec<u8>) -> (out: Vec<Option<(Vec<u8>, Vec<u8>)>>)
    ensures
        record_views(out@) == pax_records(bytes@),
{
    tar::PaxExtensions::new(bytes.as_slice())
        .map(|record| record.ok().map(|r| (r.key_bytes().to_vec(), r.value_bytes().to_vec())))
        .collect()
}

/// The bytes of `size`.
pub open spec fn size_key() -> Seq<u8> {
    seq![115u8, 105u8, 122u8, 101u8]
}

pub open spec fn byte_chars(bytes: Seq<u8>) -> Seq<char> {
    bytes.map_values(|b: u8| b as char)
}

/// The size in the records of an extended header: that of the first record for it, where no
/// record before it is malformed and its value is a number.
pub open spec fn recorded_size(records: Seq<Option<(Seq<u8>, Seq<u8>)>>) -> Option<nat>
    decreases records.len(),
{
    if records.len() == 0 {
        None
    } else {
        match records[0] {
            None => None,
            Some((key, value)) => if key == size_key() {
                parsed_unsigned(byte_chars(value), u64::MAX as nat)
            } else {
                recorded_size(records.skip(1))
            },
        }
    }
}

/// Where the format of a header is noted: the bytes of `ustar` and what follows them.
pub open spec fn has_magic(header: Seq<u8>, magic: Seq<u8>) -> bool {
    header.subrange(257, 265) == magic
}

pub open spec fn gnu_magic() -> Seq<u8> {
    seq![117u8, 115u8, 116u8, 97u8, 114u8, 32u8, 32u8, 0u8]
}

pub open spec fn posix_magic() -> Seq<u8> {
    seq![117u8, 115u8, 116u8, 97u8, 114u8, 0u8, 48u8, 48u8]
}

/// Whether a header only describes the member behind it: a long name (`L`), a long link (`K`) or
/// an extended header (`x`).
pub open spec fn announces_member(header: Seq<u8>) -> bool {
    &&& header[156] == 76 || header[156] == 75 || header[156] == 120
    &&& has_magic(header, gnu_magic()) || has_magic(header, posix_magic())
}

/// Whether a header is that of a sparse file (`S`) with more headers behind it.
pub open spec fn is_extended_sparse(header: Seq<u8>) -> bool {
    &&& header[156] == 83
    &&& has_magic(header, gnu_magic())
    &&& header[482] == 1
}

/// Where the member whose header stands at `at` ends: behind the header and its contents, filled
/// up to whole blocks.
pub open spec fn member_end(at: nat, size: nat) -> nat {
    at + BLOCK as nat + (size + BLOCK as nat - 1) as nat / BLOCK as nat * BLOCK as nat
}

/// Whether the end of a member can be counted in 64 bits.
pub open spec fn end_is_counted(at: nat, size: nat) -> bool {
    size + BLOCK - 1 <= u64::MAX && member_end(at, size) <= u64::MAX
}

/// Whether the count of the bytes up to the end of a sparse file overflows, once each of its
/// further headers, the next of which stands at `at`, has been added to `end`.
pub open spec fn headers_overflow(data: Seq<u8>, at: nat, end: nat) -> bool
    decreases data.len() - at,
{
    if at + BLOCK > data.len() {
        false
    } else if end + BLOCK > u64::MAX {
        true
    } else {
        data[at as int + 504] == 1 && headers_overflow(data, at + BLOCK as nat, end + BLOCK as nat)
    }
}

/// Whether the count of the bytes of a tar archive overflows before its next entry is reached,
/// from the header at `at` on. `pax_size` is the size out of an extended header before it.
pub open spec fn count_overflows(data: Seq<u8>, at: nat, pax_size: Option<nat>) -> bool
    decreases
            (if at < data.len() {
                data.len() - at
            } else {
                0
            }),
{
    if at + BLOCK > data.len() {
        false
    } else {
        let header = part_of(data, at, BLOCK as nat);
        match stated_size(header) {
            None => false,
            Some(size) => if announces_member(header) {
                &&& end_is_counted(at, size as nat)
                &&& count_overflows(
                    data,
                    member_end(at, size as nat),
                    if header[156] == 120 {
                        recorded_size(
                            pax_records(part_of(data, at + BLOCK as nat, size as nat)),
                        )
                    } else {
                        pax_size
                    },
                )
            } else {
                let actual = match pax_size {
                    Some(n) => n,
                    None => size as nat,
                };
                &&& is_extended_sparse(header)
                &&& end_is_counted(at, actual)
                &&& headers_overflow(data, at + BLOCK as nat, member_end(at, actual))
            },
        }
    }
}

/// Reads the first entry of a gzip-compressed tar archive with `flate2::read::GzDecoder` and
/// `tar::Archive`: `entries`, the first of them, and its contents to their end. No more is
/// decompressed than that takes. Claims that the outcome depends on the bytes of the archive
/// alone; what it is for given bytes is left to the crates. Left out are archives on which the
/// count of bytes in `tar` overflows. Memory for the contents is taken to be there.
#[verifier::external_body]
fn read_tar_gz_entry(bytes: &Vec<u8>) -> (out: Result<Vec<u8>, TarFault>)
    requires
        !count_overflows(gunzipped(bytes@), 0, None),
    ensures
        is_outcome(out, tar_gz_first_entry(bytes@)),
{
    let decoder = flate2::read::GzDecoder::new(std::io::Cursor::new(bytes.as_slice()));
    let mut archive = tar::Archive::new(decoder);
    let mut entries = archive.entries().map_err(|_| TarFault::Open)?;
    let first = entries.next().ok_or(TarFault::Empty)?;
    let mut entry = first.map_err(|_| TarFault::Entry)?;
    let mut out: Vec<u8> = Vec::new();
    std::io::copy(&mut entry, &mut out).map_err(|_| TarFault::Extract)?;
    Ok(out)
}

fn chars_of_bytes(bytes: &Vec<u8>) -> (out: Vec<char>)
    ensures
        out@ == byte_chars(bytes@),
{
    let mut out: Vec<char> = Vec::new();
    let mut i: usize = 0;
    while i < bytes.len()
        invariant
            i <= bytes@.len(),
            out@.len() == i,
            forall|j: int| 0 <= j < i ==> #[trigger] out@[j] == bytes@[j] as char,
        decreases bytes@.len() - i,
    {
        out.push(bytes[i] as char);
        i = i + 1;
    }
    assert(out@ =~= byte_chars(bytes@));
    out
}

fn find_recorded_size(records: &Vec<Option<(Vec<u8>, Vec<u8>)>>) -> (out: Option<u64>)
    ensures
        match out {
            Some(n) => recorded_size(record_views(records@)) == Some(n as nat),
            None => recorded_size(record_views(records@)) is None,
        },
{
    let ghost all = record_views(records@);
    let mut i: usize = 0;
    assert(all.skip(0) =~= all);
    while i < records.len()
        invariant
            all == record_views(records@),
            i <= records@.len(),
            recorded_size(all) == recorded_size(all.skip(i as int)),
        decreases records@.len() - i,
    {
        assert(all.skip(i as int)[0] == all[i as int]);
        assert(all.skip(i as int).skip(1) =~= all.skip(i + 1));
        match &records[i] {
            None => {
                return None;
            },
            Some((key, value)) => {
                if key.len() == 4 && key[0] == 115 && key[1] == 105 && key[2] == 122 && key[3]
                    == 101 {
                    assert(key@ =~= size_key());
                    return parse_unsigned(&chars_of_bytes(value), u64::MAX);
                }
                assert(key@ != size_key()) by {
                    if key@ == size_key() {
                        assert(key@.len() == 4 && key@[0] == 115 && key@[1] == 105 && key@[2] == 122
                            && key@[3] == 101);
                    }
                }
            },
        }
        i = i + 1;
    }
    assert(all.skip(i as int) =~= Seq::empty());
    None
}

fn magic_is(header: &Vec<u8>, sixth: u8, seventh: u8, last: u8) -> (out: bool)
    requires
        header@.len() == BLOCK,
    ensures
        out == has_magic(
            header@,
            seq![117u8, 115u8, 116u8, 97u8, 114u8, sixth, seventh, last],
        ),
{
    let out: bool = header[257] == 117 && header[258] == 115 && header[259] == 116 && header[260]
        == 97 && header[261] == 114 && header[262] == sixth && header[263] == seventh && header[264]
        == last;
    proof {
        let magic = seq![117u8, 115u8, 116u8, 97u8, 114u8, sixth, seventh, last];
        let part = header@.subrange(257, 265);
        assert(part[0] == header@[257] && part[1] == header@[258] && part[2] == header@[259]
            && part[3] == header@[260] && part[4] == header@[261] && part[5] == header@[262]
            && part[6] == header@[263] && part[7] == header@[264]);
        if out {
            assert(part =~= magic);
        } else if part == magic {
            assert(magic[0] == 117 && magic[1] == 115 && magic[2] == 116 && magic[3] == 97
                && magic[4] == 114 && magic[5] == sixth && magic[6] == seventh && magic[7]
                == last);
        }
    }
    out
}

/// Computes where a member ends, where that can be counted.
fn end_of_member(at: u64, size: u64) -> (out: Option<u64>)
    ensures
        match out {
            Some(end) => end_is_counted(at as nat, size as nat) && end == member_end(
                at as nat,
                size as nat,
            ),
            None => !end_is_counted(at as nat, size as nat),
        },
{
    if size > u64::MAX - (BLOCK - 1) {
        return None;
    }
    let filled: u64 = (size + (BLOCK - 1)) / BLOCK * BLOCK;
    if at > u64::MAX - BLOCK || filled > u64::MAX - BLOCK - at {
        return None;
    }
    Some(at + BLOCK + filled)
}

/// Copies part of `data`.
fn copy_part(data: &Vec<u8>, start: u64, n: u64) -> (out: Vec<u8>)
    ensures
        out@ == part_of(data@, start as nat, n as nat),
{
    let mut out: Vec<u8> = Vec::new();
    let len: usize = data.len();
    if start >= len as u64 {
        assert(out@ =~= part_of(data@, start as nat, n as nat));
        return out;
    }
    let from: usize = start as usize;
    let to: usize = if n < (len - from) as u64 {
        from + n as usize
    } else {
        len
    };
    let mut i: usize = from;
    while i < to
        invariant
            from <= i <= to <= data@.len(),
            out@ == data@.subrange(from as int, i as int),
        decreases to - i,
    {
        out.push(data[i]);
        i = i + 1;
    }
    out
}

/// Counts the further headers of a sparse file.
fn do_headers_overflow(data: &Vec<u8>, start: u64, member_end: u64) -> (out: bool)
    ensures
        out == headers_overflow(data@, start as nat, member_end as nat),
{
    let mut at: u64 = start;
    let mut end: u64 = member_end;
    loop
        invariant
            headers_overflow(data@, start as nat, member_end as nat) == headers_overflow(
                data@,
                at as nat,
                end as nat,
            ),
        decreases data@.len() - at,
    {
        let block: Vec<u8> = copy_part(data, at, BLOCK);
        if block.len() < BLOCK as usize {
            return false;
        }
        if end > u64::MAX - BLOCK {
            return true;
        }
        assert(block@[504] == data@[at as int + 504]);
        if block[504] != 1 {
            return false;
        }
        assert(data.len() <= usize::MAX);
        at = at + BLOCK;
        end = end + BLOCK;
    }
}

/// Looks at the headers of a tar archive up to its first entry.
fn does_count_overflow(data: &Vec<u8>) -> (out: bool)
    ensures
        out == count_overflows(data@, 0, None),
{
    let mut at: u64 = 0;
    let mut pax_size: Option<u64> = None;
    loop
        invariant
            count_overflows(data@, 0, None) == count_overflows(
                data@,
                at as nat,
                match pax_size {
                    Some(n) => Some(n as nat),
                    None => None,
                },
            ),
        decreases
                (if at < data@.len() {
                    data@.len() - at
                } else {
                    0
                }),
    {
        let header: Vec<u8> = copy_part(data, at, BLOCK);
        if header.len() < BLOCK as usize {
            return false;
        }
        assert(data.len() <= usize::MAX);
        let size: u64 = match read_size(&header) {
            Some(size) => size,
            None => {
                return false;
            },
        };
        let kind: u8 = header[156];
        let is_gnu: bool = magic_is(&header, 32, 32, 0);
        if (kind == 76 || kind == 75 || kind == 120) && (is_gnu || magic_is(&header, 0, 48, 48)) {
            let end: u64 = match end_of_member(at, size) {
                Some(end) => end,
                None => {
                    return false;
                },
            };
            if kind == 120 {
                let records: Vec<u8> = copy_part(data, at + BLOCK, size);
                pax_size = find_recorded_size(&read_pax_records(&records));
            }
            at = end;
        } else {
            if !(kind == 83 && is_gnu && header[482] == 1) {
                return false;
            }
            let actual: u64 = match pax_size {
                Some(n) => n,
                None => size,
            };
            return match end_of_member(at, actual) {
                Some(end) => do_headers_overflow(data, at + BLOCK, end),
                None => false,
            };
        }
    }
}

/// Reads the first entry of a gzip-compressed tar archive. One whose headers cannot be counted
/// has no entry that can be read.
fn first_tar_entry(bytes: &Vec<u8>) -> (out: Result<Vec<u8>, TarFault>)
    ensures
        is_outcome(out, tar_outcome(bytes@)),
{
    if does_count_overflow(&gunzip(bytes)) {
        Err(TarFault::Entry)
    } else {
        read_tar_gz_entry(bytes)
    }
}

pub open spec fn zip_fault_text(fault: ZipFault) -> Seq<char> {
    match fault {
        ZipFault::Open => "opening downloaded .zip"@,
        ZipFault::Empty => "the .zip is empty"@,
        ZipFault::Extract => "extracting the binary from the .zip"@,
    }
}

pub open spec fn tar_fault_text(fault: TarFault) -> Seq<char> {
    match fault {
        TarFault::Open => "reading the .tar.gz"@,
        TarFault::Empty => "the .tar.gz is empty"@,
        TarFault::Entry => "reading the .tar.gz entry"@,
        TarFault::Extract => "extracting the binary from the .tar.gz"@,
    }
}

/// The program, or what the user is told, after a zip archive was read with this outcome.
pub open spec fn is_zip_result(
    out: Result<Vec<u8>, String>,
    outcome: Result<Seq<u8>, ZipFault>,
) -> bool {
    match (out, outcome) {
        (Ok(bytes), Ok(expected)) => bytes@ == expected,
        (Err(message), Err(fault)) => message@ == zip_fault_text(fault),
        _ => false,
    }
}

/// The program, or what the user is told, after a compressed tar archive was read with this
/// outcome.
pub open spec fn is_tar_result(
    out: Result<Vec<u8>, String>,
    outcome: Result<Seq<u8>, TarFault>,
) -> bool {
    match (out, outcome) {
        (Ok(bytes), Ok(expected)) => bytes@ == expected,
        (Err(message), Err(fault)) => message@ == tar_fault_text(fault),
        _ => false,
    }
}

/// Puts a fault of a zip archive into words.
pub fn zip_binary(outcome: Result<Vec<u8>, ZipFault>) -> (out: Result<Vec<u8>, String>)
    ensures
        match outcome {
            Ok(bytes) => out == Ok::<Vec<u8>, String>(bytes),
            Err(fault) => out matches Err(message) && message@ == zip_fault_text(fault),
        },
{
    match outcome {
        Ok(bytes) => Ok(bytes),
        Err(ZipFault::Open) => Err("opening downloaded .zip".to_owned()),
        Err(ZipFault::Empty) => Err("the .zip is empty".to_owned()),
        Err(ZipFault::Extract) => Err("extracting the binary from the .zip".to_owned()),
    }
}

/// Puts a fault of a compressed tar archive into words.
pub fn tar_binary(outcome: Result<Vec<u8>, TarFault>) -> (out: Result<Vec<u8>, String>)
    ensures
        match outcome {
            Ok(bytes) => out == Ok::<Vec<u8>, String>(bytes),
            Err(fault) => out matches Err(message) && message@ == tar_fault_text(fault),
        },
{
    match outcome {
        Ok(bytes) => Ok(bytes),
        Err(TarFault::Open) => Err("reading the .tar.gz".to_owned()),
        Err(TarFault::Empty) => Err("the .tar.gz is empty".to_owned()),
        Err(TarFault::Entry) => Err("reading the .tar.gz entry".to_owned()),
        Err(TarFault::Extract) => Err("extracting the binary from the .tar.gz".to_owned()),
    }
}

/// What the first entry of a compressed tar archive holds, or why it cannot be read.
pub open spec fn tar_outcome(bytes: Seq<u8>) -> Result<Seq<u8>, TarFault> {
    if count_overflows(gunzipped(bytes), 0, None) {
        Err(TarFault::Entry)
    } else {
        tar_gz_first_entry(bytes)
    }
}

/// Takes the program out of a downloaded archive: the contents of its first entry.
pub fn download_and_extract(bytes: &Vec<u8>, is_zip: bool) -> (out: Result<Vec<u8>, String>)
    ensures
        is_zip ==> is_zip_result(out, zip_entry(bytes@, 0)),
        !is_zip ==> is_tar_result(out, tar_outcome(bytes@)),
{
    if is_zip {
        zip_binary(read_zip_entry(bytes, 0))
    } else {
        tar_binary(first_tar_entry(bytes))
    }
}

/// What comes out of reading an archive is handed on: the bytes as they are, and each fault in the
/// words for it.
pub proof fn faults_are_put_into_words(
    out: Result<Vec<u8>, String>,
    zip: Result<Seq<u8>, ZipFault>,
    tar: Result<Seq<u8>, TarFault>,
)
    ensures
        is_zip_result(out, zip) ==> match zip {
            Ok(bytes) => out matches Ok(o) && o@ == bytes,
            Err(ZipFault::Open) => out matches Err(e) && e@ == "opening downloaded .zip"@,
            Err(ZipFault::Empty) => out matches Err(e) && e@ == "the .zip is empty"@,
            Err(ZipFault::Extract) => out matches Err(e) && e@
                == "extracting the binary from the .zip"@,
        },
        is_tar_result(out, tar) ==> match tar {
            Ok(bytes) => out matches Ok(o) && o@ == bytes,
            Err(TarFault::Open) => out matches Err(e) && e@ == "reading the .tar.gz"@,
            Err(TarFault::Empty) => out matches Err(e) && e@ == "the .tar.gz is empty"@,
            Err(TarFault::Entry) => out matches Err(e) && e@ == "reading the .tar.gz entry"@,
            Err(TarFault::Extract) => out matches Err(e) && e@
                == "extracting the binary from the .tar.gz"@,
        },
{
}

/// The part of some bytes from `start` on, `n` long, is that part, and what there is of it where
/// they end before.
pub proof fn parts_are_cut_at_the_end(a: Seq<u8>, b: Seq<u8>, c: Seq<u8>, n: nat)
    requires
        n == b.len() || (n >= b.len() && c.len() == 0),
    ensures
        part_of(a + b + c, a.len(), n) == b,
{
    assert(part_of(a + b + c, a.len(), n) =~= b);
}

/// Only a sparse file is ever refused for its size: an archive without a header that says `S` is
/// not, whatever else it holds.
pub proof fn only_sparse_files_are_refused(data: Seq<u8>, at: nat, pax_size: Option<nat>)
    requires
        forall|p: nat| #![trigger data[p as int + 156]] p + 512 <= data.len() ==> data[p as int + 156]
            != 83,
    ensures
        !count_overflows(data, at, pax_size),
    decreases
            (if at < data.len() {
                data.len() - at
            } else {
                0
            }),
{
    if at + BLOCK <= data.len() {
        let header = part_of(data, at, BLOCK as nat);
        assert(header[156] == data[at as int + 156]);
        if let Some(size) = stated_size(header) {
            if announces_member(header) {
                let next = member_end(at, size as nat);
                only_sparse_files_are_refused(data, next, pax_size);
                only_sparse_files_are_refused(
                    data,
                    next,
                    recorded_size(pax_records(part_of(data, at + BLOCK as nat, size as nat))),
                );
            }
        }
    }
}

proof fn lemma_headers_overflow_near_the_end(data: Seq<u8>, at: nat, end: nat)
    requires
        headers_overflow(data, at, end),
    ensures
        end + data.len() - at + 512 > u64::MAX,
        at + 512 <= data.len(),
    decreases data.len() - at,
{
    if end + BLOCK <= u64::MAX {
        lemma_headers_overflow_near_the_end(data, at + BLOCK as nat, end + BLOCK as nat);
    }
}

/// An archive that starts with a sparse file is refused only where the size that the header states
/// comes within the length of the archive of what can be counted.
pub proof fn only_immense_sizes_are_refused(data: Seq<u8>)
    requires
        data.len() >= 512,
        data[156] == 83,
        count_overflows(data, 0, None),
    ensures
        stated_size(data.take(512)) matches Some(size) && size + data.len() + 1024 > u64::MAX,
{
    let header = part_of(data, 0, BLOCK as nat);
    assert(header =~= data.take(512));
    assert(header[156] == data[156]);
    if let Some(size) = stated_size(header) {
        lemma_headers_overflow_near_the_end(data, BLOCK as nat, member_end(0, size as nat));
    }
}

/// An archive that is refused for its size counts as one whose entry cannot be read; any other is
/// left to be read.
pub proof fn refused_archives_have_no_entry(bytes: Seq<u8>)
    ensures
        count_overflows(gunzipped(bytes), 0, None) ==> tar_outcome(bytes) == Err::<
            Seq<u8>,
            TarFault,
        >(TarFault::Entry),
        !count_overflows(gunzipped(bytes), 0, None) ==> tar_outcome(bytes) == tar_gz_first_entry(
            bytes,
        ),
{
}

/// The size in an extended header is the number of the first record with the key `size`. It has
/// none where there is no such record or a malformed one stands before it.
pub proof fn the_first_size_counts(
    before: Seq<Option<(Seq<u8>, Seq<u8>)>>,
    value: Seq<u8>,
    n: nat,
    after: Seq<Option<(Seq<u8>, Seq<u8>)>>,
)
    requires
        forall|k: int|
            0 <= k < before.len() ==> (#[trigger] before[k] matches Some((key, v)) && key != seq![
                's' as u8,
                'i' as u8,
                'z' as u8,
                'e' as u8,
            ]),
        value.len() == decimal(n).len(),
        forall|k: int| 0 <= k < value.len() ==> #[trigger] value[k] as int == decimal(n)[k] as int,
    ensures
        recorded_size(
            before + seq![Some((seq!['s' as u8, 'i' as u8, 'z' as u8, 'e' as u8], value))] + after,
        ) == (if n <= u64::MAX {
            Some(n)
        } else {
            None
        }),
        recorded_size(before + seq![None] + after) is None,
        recorded_size(before) is None,
    decreases before.len(),
{
    let key = seq!['s' as u8, 'i' as u8, 'z' as u8, 'e' as u8];
    let sized = before + seq![Some((key, value))] + after;
    let broken = before + seq![None] + after;
    if before.len() == 0 {
        assert(key =~= size_key());
        assert(sized[0] == Some((key, value)));
        assert(broken[0] is None);
        assert(byte_chars(value) =~= decimal(n));
        numbers_are_read_back(n, u64::MAX as nat);
    } else {
        assert(key =~= size_key());
        assert(before[0] is Some);
        assert(sized[0] == before[0] && broken[0] == before[0]);
        assert(sized.skip(1) =~= before.skip(1) + seq![Some((key, value))] + after);
        assert(broken.skip(1) =~= before.skip(1) + seq![None] + after);
        assert forall|k: int| 0 <= k < before.skip(1).len() implies (
        #[trigger] before.skip(1)[k] matches Some((key, v)) && key != seq![
            's' as u8,
            'i' as u8,
            'z' as u8,
            'e' as u8,
        ]) by {
            assert(before.skip(1)[k] == before[k + 1]);
        }
        the_first_size_counts(before.skip(1), value, n, after);
    }
}

/// A header has its kind at byte 156 and its format at byte 257: `ustar` and two spaces and a
/// zero, or `ustar`, a zero and `00`. A long name, a long link and an extended header announce the
/// member behind them, in either format. A sparse file goes on behind its header in the first
/// format only, where byte 482 is one.
pub proof fn headers_are_known_by_their_bytes(header: Seq<u8>)
    requires
        header.len() == 512,
    ensures
        announces_member(header) <==> {
            &&& header[156] == 'L' as u8 || header[156] == 'K' as u8 || header[156] == 'x' as u8
            &&& header[257] == 'u' as u8 && header[258] == 's' as u8 && header[259] == 't' as u8
                && header[260] == 'a' as u8 && header[261] == 'r' as u8
            &&& (header[262] == 32 && header[263] == 32 && header[264] == 0) || (header[262] == 0
                && header[263] == 48 && header[264] == 48)
        },
        is_extended_sparse(header) <==> {
            &&& header[156] == 'S' as u8
            &&& header[257] == 'u' as u8 && header[258] == 's' as u8 && header[259] == 't' as u8
                && header[260] == 'a' as u8 && header[261] == 'r' as u8
            &&& header[262] == 32 && header[263] == 32 && header[264] == 0
            &&& header[482] == 1
        },
{
    let magic = header.subrange(257, 265);
    assert(magic.len() == 8);
    assert(magic[0] == header[257] && magic[1] == header[258] && magic[2] == header[259]
        && magic[3] == header[260] && magic[4] == header[261] && magic[5] == header[262]
        && magic[6] == header[263] && magic[7] == header[264]);
    let gnu = gnu_magic();
    let posix = posix_magic();
    assert(gnu.len() == 8 && gnu[0] == 'u' as u8 && gnu[1] == 's' as u8 && gnu[2] == 't' as u8
        && gnu[3] == 'a' as u8 && gnu[4] == 'r' as u8 && gnu[5] == 32 && gnu[6] == 32 && gnu[7]
        == 0);
    assert(posix.len() == 8 && posix[0] == 'u' as u8 && posix[1] == 's' as u8 && posix[2]
        == 't' as u8 && posix[3] == 'a' as u8 && posix[4] == 'r' as u8 && posix[5] == 0
        && posix[6] == 48 && posix[7] == 48);
    if forall|k: int| 0 <= k < 8 ==> magic[k] == gnu[k] {
        assert(magic =~= gnu);
    }
    if forall|k: int| 0 <= k < 8 ==> magic[k] == posix[k] {
        assert(magic =~= posix);
    }
    assert(header[156] == 83 <==> header[156] == 'S' as u8);
}

/// Whether `next` is where the member behind one of `size` bytes at `at` starts: behind its header
/// and its contents, in whole blocks.
pub open spec fn follows_member(next: nat, at: nat, size: nat) -> bool {
    &&& (next - at) % 512 == 0
    &&& size <= next - at - 512 < size + 512
}

proof fn lemma_next_member(next: nat, at: nat, size: nat)
    requires
        follows_member(next, at, size),
    ensures
        next == member_end(at, size),
        end_is_counted(at, size) == (size + 511 <= u64::MAX && next <= u64::MAX),
{
}

/// A sparse file's headers run over what can be counted where some header does that exists and that
/// all before it lead to: each but the last says, with a one in its byte 504, that another
/// follows.
pub proof fn headers_follow_one_another(data: Seq<u8>, at: nat, end: nat)
    ensures
        headers_overflow(data, at, end) <==> exists|k: nat|
            {
                &&& at + 512 * (k + 1) <= data.len()
                &&& end + 512 * (k + 1) > u64::MAX
                &&& #[trigger] leads_to(data, at, k)
            },
    decreases data.len() - at,
{
    let next = at + 512;
    if at + 512 <= data.len() {
        headers_follow_one_another(data, next, end + 512);
        assert(leads_to(data, at, 0));
        if headers_overflow(data, at, end) {
            if end + 512 > u64::MAX {
                assert(at + 512 * (0 + 1) <= data.len() && end + 512 * (0 + 1) > u64::MAX
                    && leads_to(data, at, 0));
            } else {
                let k = choose|k: nat|
                    {
                        &&& next + 512 * (k + 1) <= data.len()
                        &&& end + 512 + 512 * (k + 1) > u64::MAX
                        &&& #[trigger] leads_to(data, next, k)
                    };
                assert forall|j: nat| j < k + 1 implies #[trigger] goes_on(data, at, j) by {
                    if j > 0 {
                        assert(goes_on(data, next, (j - 1) as nat));
                    }
                }
                assert(leads_to(data, at, k + 1));
            }
        }
        if exists|k: nat|
            {
                &&& at + 512 * (k + 1) <= data.len()
                &&& end + 512 * (k + 1) > u64::MAX
                &&& #[trigger] leads_to(data, at, k)
            } {
            let k = choose|k: nat|
                {
                    &&& at + 512 * (k + 1) <= data.len()
                    &&& end + 512 * (k + 1) > u64::MAX
                    &&& #[trigger] leads_to(data, at, k)
                };
            if k > 0 {
                let shorter = (k - 1) as nat;
                assert(goes_on(data, at, 0));
                assert forall|j: nat| j < shorter implies #[trigger] goes_on(data, next, j) by {
                    assert(goes_on(data, at, j + 1));
                }
                assert(leads_to(data, next, shorter));
            }
        }
    }
}

/// Whether the first `k` of the headers at `at` each say that another follows.
pub open spec fn leads_to(data: Seq<u8>, at: nat, k: nat) -> bool {
    forall|j: nat| j < k ==> #[trigger] goes_on(data, at, j)
}

/// Whether header `j` of those at `at` says that another follows.
pub open spec fn goes_on(data: Seq<u8>, at: nat, j: nat) -> bool {
    data[(at + 512 * j + 504) as int] == 1
}

/// A member that announces the one behind it is passed over, if its end can be counted; an
/// extended header leaves its size for what follows, and the others keep what there was.
pub proof fn announcing_members_are_passed_over(
    data: Seq<u8>,
    at: nat,
    left: Option<nat>,
    size: u64,
    next: nat,
)
    requires
        at + 512 <= data.len(),
        stated_size(data.subrange(at as int, at as int + 512)) == Some(size),
        announces_member(data.subrange(at as int, at as int + 512)),
        follows_member(next, at, size as nat),
    ensures
        data[at as int + 156] != 'x' as u8 ==> count_overflows(data, at, left) == (size + 511
            <= u64::MAX && next <= u64::MAX && count_overflows(data, next, left)),
        data[at as int + 156] == 'x' as u8 && at + 512 + size <= data.len() ==> count_overflows(
            data,
            at,
            left,
        ) == (size + 511 <= u64::MAX && next <= u64::MAX && count_overflows(
            data,
            next,
            recorded_size(pax_records(data.subrange(at as int + 512, at as int + 512 + size))),
        )),
{
    let header = part_of(data, at, 512);
    assert(header =~= data.subrange(at as int, at as int + 512));
    assert(header[156] == data[at as int + 156]);
    lemma_next_member(next, at, size as nat);
    if at + 512 + size <= data.len() {
        assert(part_of(data, at + 512, size as nat) =~= data.subrange(at as int + 512, at as int + 512 + size));
    }
}

/// A member that announces nothing decides. It runs over what can be counted just where it is a
/// sparse file that goes on behind its header, its own end can be counted, and its headers run
/// over. The size that an extended header left for it counts before the one in its header. Nothing
/// runs over where no header is left or its size cannot be read.
pub proof fn members_that_announce_nothing_decide(
    data: Seq<u8>,
    at: nat,
    left: Option<nat>,
    size: u64,
    next: nat,
)
    requires
        at + 512 <= data.len(),
        follows_member(
            next,
            at,
            match left {
                Some(n) => n,
                None => size as nat,
            },
        ),
    ensures
        stated_size(data.subrange(at as int, at as int + 512)) == Some(size) && !announces_member(
            data.subrange(at as int, at as int + 512),
        ) ==> count_overflows(data, at, left) == {
            &&& is_extended_sparse(data.subrange(at as int, at as int + 512))
            &&& next <= u64::MAX
            &&& (match left {
                Some(n) => n,
                None => size as nat,
            }) + 511 <= u64::MAX
            &&& headers_overflow(data, at + 512, next)
        },
        stated_size(data.subrange(at as int, at as int + 512)) is None ==> !count_overflows(
            data,
            at,
            left,
        ),
        !count_overflows(data.take(at as int + 511), at, left),
{
    let header = part_of(data, at, 512);
    assert(header =~= data.subrange(at as int, at as int + 512));
    lemma_next_member(
        next,
        at,
        match left {
            Some(n) => n,
            None => size as nat,
        },
    );
}

/// An outcome is that of an archive where both give the same bytes, or both the same fault.
pub proof fn outcomes_are_bytes_or_faults(
    out: Result<Vec<u8>, TarFault>,
    bytes: Seq<u8>,
    fault: TarFault,
)
    ensures
        is_outcome(out, Ok(bytes)) <==> (out matches Ok(o) && o@ == bytes),
        is_outcome(out, Err(fault)) <==> out == Err::<Vec<u8>, TarFault>(fault),
{
}

} // verus!
