//! The form in which snapshots are kept on disk.
//!
//! A snapshot file holds the bytes of a snapshot, compressed if the settings
//! say so, followed by their checksum in eight bytes, in the order of the
//! machine. It is written under a name that says that it is not complete, and
//! then renamed.

use crate::types::Lsn;
use vstd::bytes::{u64_from_le_bytes, u64_to_le_bytes};
use vstd::bytes::{spec_u64_from_le_bytes, spec_u64_to_le_bytes};
use vstd::prelude::*;
use vstd::string::{StrSliceExecFns, StringExecFns};

verus! {

/// The level at which snapshots are compressed.
pub const COMPRESSION_LEVEL: i32 = 5;

/// `std::io::Error`, which the compression library reports; nothing is said of
/// what is in it.
#[verifier::external_type_specification]
#[verifier::external_body]
pub struct ExIoError(std::io::Error);

/// Compressing `data` at `level` may have this outcome: the frame that comes
/// out, or `None` for an error.
pub uninterp spec fn zstd_compresses(data: Seq<u8>, level: i32, outcome: Option<Seq<u8>>) -> bool;

/// Decompressing `frame` into a buffer of at least `capacity` bytes may have
/// this outcome: the data that come out, or `None` for an error.
pub uninterp spec fn zstd_decompresses(
    frame: Seq<u8>,
    capacity: usize,
    outcome: Option<Seq<u8>>,
) -> bool;

/// What an outside call has given, with errors left unexplained.
pub open spec fn outcome(r: Result<Vec<u8>, std::io::Error>) -> Option<Seq<u8>> {
    match r {
        Ok(bytes) => Some(bytes@),
        Err(_) => None,
    }
}

/// If `frame` was made out of some data, then nothing but these data comes out
/// of it, and they do come out if there is room for them.
pub open spec fn undoes_compression(
    frame: Seq<u8>,
    capacity: usize,
    outcome: Option<Seq<u8>>,
) -> bool {
    forall|data: Seq<u8>| #[trigger]
        zstd_compresses(data, COMPRESSION_LEVEL, Some(frame)) ==> {
            &&& outcome matches Some(unpacked) ==> unpacked == data
            &&& data.len() <= capacity ==> outcome is Some
        }
}

/// The compression library can set aside a buffer for so many bytes.
pub open spec fn compressible(len: nat) -> bool {
    len + len / 256 + 64 <= isize::MAX
}

/// Calls `zstd::block::compress`.
///
/// Its outcome is one that the library may have for the arguments. Which of
/// several frames comes out depends on the machine, and whether any does, on
/// memory; neither is said here.
#[verifier::external_body]
fn zstd_compress(data: &Vec<u8>, level: i32) -> (r: Result<Vec<u8>, std::io::Error>)
    requires
        compressible(data@.len()),
    ensures
        zstd_compresses(data@, level, outcome(r)),
{
    zstd::block::compress(data, level)
}

/// Calls `zstd::block::decompress`.
///
/// Its outcome is one that the library may have for the arguments. A frame that
/// came out of compression at the level of snapshots gives back what went into
/// it, if that is no longer than `capacity`. If it is longer, then it is not
/// said whether there is an error, since the buffer may turn out larger than
/// asked for. Nor is it said what other bytes give: whether the library takes
/// them can depend on the buffer in more ways than by having room.
#[verifier::external_body]
fn zstd_decompress(frame: &Vec<u8>, capacity: usize) -> (r: Result<Vec<u8>, std::io::Error>)
    requires
        capacity <= isize::MAX,
    ensures
        zstd_decompresses(frame@, capacity, outcome(r)),
        undoes_compression(frame@, capacity, outcome(r)),
{
    zstd::block::decompress(frame, capacity)
}

/// Why a snapshot cannot be written or read.
#[derive(Clone, Copy, PartialEq, Eq, Structural, Debug)]
pub enum SnapshotFileError {
    /// The file has no room for a checksum.
    TooShort,
    /// The checksum is not that of the bytes before it.
    CrcMismatch,
    /// The bytes could not be compressed or decompressed.
    Compression,
}

/// `crc` is what the checksum function gives for `body`.
pub open spec fn checks<F: Fn(&Vec<u8>) -> u64>(crc64: F, body: Seq<u8>, crc: u64) -> bool {
    exists|bytes: &Vec<u8>| bytes@ == body && #[trigger] call_ensures(crc64, (bytes,), crc)
}

/// The order of the bytes of a checksum.
#[derive(Clone, Copy, PartialEq, Eq, Structural, Debug)]
pub enum ByteOrder {
    LowestFirst,
    HighestFirst,
}

/// The bytes of a checksum.
pub open spec fn crc_bytes(crc: u64, order: ByteOrder) -> Seq<u8> {
    match order {
        ByteOrder::LowestFirst => spec_u64_to_le_bytes(crc),
        ByteOrder::HighestFirst => spec_u64_to_le_bytes(crc).reverse(),
    }
}

/// The checksum that `bytes` stand for.
pub open spec fn crc_from(bytes: Seq<u8>, order: ByteOrder) -> u64 {
    match order {
        ByteOrder::LowestFirst => spec_u64_from_le_bytes(bytes),
        ByteOrder::HighestFirst => spec_u64_from_le_bytes(bytes.reverse()),
    }
}

/// A snapshot file with the given bytes and checksum.
pub open spec fn sealed(body: Seq<u8>, crc: u64, order: ByteOrder) -> Seq<u8> {
    body + crc_bytes(crc, order)
}

/// `body` is what may be kept of the bytes of a snapshot.
pub open spec fn stores(raw_bytes: Seq<u8>, use_compression: bool, body: Seq<u8>) -> bool {
    if use_compression {
        zstd_compresses(raw_bytes, COMPRESSION_LEVEL, Some(body))
    } else {
        body == raw_bytes
    }
}

/// `file` is what a snapshot file holds for the bytes of a snapshot.
pub open spec fn encodes<F: Fn(&Vec<u8>) -> u64>(
    crc64: F,
    order: ByteOrder,
    raw_bytes: Seq<u8>,
    use_compression: bool,
    file: Seq<u8>,
) -> bool {
    exists|body: Seq<u8>, crc: u64|
        {
            &&& stores(raw_bytes, use_compression, body)
            &&& #[trigger] checks(crc64, body, crc)
            &&& file == sealed(body, crc, order)
        }
}

/// `r` is what comes out of a file: the bytes of a snapshot, or why there are
/// none.
pub open spec fn decodes<F: Fn(&Vec<u8>) -> u64>(
    crc64: F,
    order: ByteOrder,
    file: Seq<u8>,
    use_compression: bool,
    io_buf_size: usize,
    r: Result<Vec<u8>, SnapshotFileError>,
) -> bool {
    let body = file.take(file.len() - 8);
    let expected = crc_from(file.skip(file.len() - 8), order);
    if file.len() < 8 {
        r == Err::<Vec<u8>, _>(SnapshotFileError::TooShort)
    } else {
        exists|crc: u64| #[trigger]
            checks(crc64, body, crc) && if crc != expected {
                r == Err::<Vec<u8>, _>(SnapshotFileError::CrcMismatch)
            } else if use_compression {
                match r {
                    Ok(raw_bytes) => {
                        &&& zstd_decompresses(body, io_buf_size, Some(raw_bytes@))
                        &&& undoes_compression(body, io_buf_size, Some(raw_bytes@))
                    },
                    Err(e) => {
                        &&& e == SnapshotFileError::Compression
                        &&& zstd_decompresses(body, io_buf_size, None)
                        &&& undoes_compression(body, io_buf_size, None)
                    },
                }
            } else {
                r matches Ok(raw_bytes) && raw_bytes@ == body
            }
    }
}

/// The checksum function gives one checksum for given bytes.
pub open spec fn checks_one_way<F: Fn(&Vec<u8>) -> u64>(crc64: F) -> bool {
    forall|body: Seq<u8>, a: u64, b: u64| #[trigger]
        checks(crc64, body, a) && #[trigger] checks(crc64, body, b) ==> a == b
}

/// Turns bytes around.
fn reversed(bytes: &Vec<u8>) -> (r: Vec<u8>)
    ensures
        r@ == bytes@.reverse(),
{
    let mut out: Vec<u8> = Vec::with_capacity(bytes.len());
    let mut i: usize = bytes.len();
    while i > 0
        invariant
            i <= bytes@.len(),
            out@ =~= bytes@.reverse().take(bytes@.len() - i),
        decreases i,
    {
        i -= 1;
        out.push(bytes[i]);
    }
    assert(out@ =~= bytes@.reverse());
    out
}

/// Puts a checksum behind the bytes that are to be stored, if there are any.
pub fn seal<F: Fn(&Vec<u8>) -> u64>(
    stored: Result<Vec<u8>, std::io::Error>,
    order: ByteOrder,
    crc64: F,
) -> (r: Result<Vec<u8>, SnapshotFileError>)
    requires
        forall|bytes: &Vec<u8>| call_requires(crc64, (bytes,)),
    ensures
        match stored {
            Ok(body) => exists|crc: u64| #[trigger]
                checks(crc64, body@, crc) && (r matches Ok(file) && file@ == sealed(
                    body@,
                    crc,
                    order,
                )),
            Err(_) => r == Err::<Vec<u8>, _>(SnapshotFileError::Compression),
        },
{
    match stored {
        Ok(bytes) => {
            let ghost body = bytes@;
            let crc: u64 = crc64(&bytes);
            assert(checks(crc64, body, crc));
            let mut file = bytes;
            let lowest_first = u64_to_le_bytes(crc);
            let mut trailer = match order {
                ByteOrder::LowestFirst => lowest_first,
                ByteOrder::HighestFirst => reversed(&lowest_first),
            };
            file.append(&mut trailer);
            assert(file@ =~= sealed(body, crc, order));
            Ok(file)
        },
        Err(_) => Err(SnapshotFileError::Compression),
    }
}

/// Makes the contents of a snapshot file out of the bytes of a snapshot.
///
/// There is an error if and only if compression is asked for and fails.
pub fn encode_snapshot<F: Fn(&Vec<u8>) -> u64>(
    raw_bytes: Vec<u8>,
    use_compression: bool,
    order: ByteOrder,
    crc64: F,
) -> (r: Result<Vec<u8>, SnapshotFileError>)
    requires
        use_compression ==> compressible(raw_bytes@.len()),
        forall|bytes: &Vec<u8>| call_requires(crc64, (bytes,)),
    ensures
        match r {
            Ok(file) => encodes(crc64, order, raw_bytes@, use_compression, file@),
            Err(e) => {
                &&& e == SnapshotFileError::Compression
                &&& use_compression
                &&& zstd_compresses(raw_bytes@, COMPRESSION_LEVEL, None)
            },
        },
{
    let ghost raw = raw_bytes@;
    let stored = if use_compression {
        zstd_compress(&raw_bytes, COMPRESSION_LEVEL)
    } else {
        Ok(raw_bytes)
    };
    assert(outcome(stored) matches Some(body) ==> stores(raw, use_compression, body));
    seal(stored, order, crc64)
}

/// Gets the bytes of a snapshot out of the contents of a snapshot file.
pub fn decode_snapshot<F: Fn(&Vec<u8>) -> u64>(
    file: Vec<u8>,
    use_compression: bool,
    io_buf_size: usize,
    order: ByteOrder,
    crc64: F,
) -> (r: Result<Vec<u8>, SnapshotFileError>)
    requires
        use_compression ==> io_buf_size <= isize::MAX,
        forall|bytes: &Vec<u8>| call_requires(crc64, (bytes,)),
    ensures
        decodes(crc64, order, file@, use_compression, io_buf_size, r),
{
    if file.len() < 8 {
        return Err(SnapshotFileError::TooShort);
    }
    let mut buf = file;
    let len: usize = buf.len();
    let crc_expected_bytes = buf.split_off(len - 8);
    let lowest_first = match order {
        ByteOrder::LowestFirst => crc_expected_bytes,
        ByteOrder::HighestFirst => reversed(&crc_expected_bytes),
    };
    let crc_expected: u64 = u64_from_le_bytes(lowest_first.as_slice());
    let crc_actual: u64 = crc64(&buf);
    proof {
        assert(buf@ =~= file@.take(file@.len() - 8));
        assert(crc_expected_bytes@ =~= file@.skip(file@.len() - 8));
        assert(checks(crc64, buf@, crc_actual));
    }
    if crc_expected != crc_actual {
        return Err(SnapshotFileError::CrcMismatch);
    }
    if use_compression {
        match zstd_decompress(&buf, io_buf_size) {
            Ok(bytes) => Ok(bytes),
            Err(_) => Err(SnapshotFileError::Compression),
        }
    } else {
        Ok(buf)
    }
}

/// What is read from a snapshot file is what was written to it, unless it was
/// compressed and is longer than the room that is set aside for it.
pub proof fn law_a_written_snapshot_is_read_back<F: Fn(&Vec<u8>) -> u64>(
    crc64: F,
    order: ByteOrder,
    raw_bytes: Seq<u8>,
    use_compression: bool,
    io_buf_size: usize,
    file: Seq<u8>,
    r: Result<Vec<u8>, SnapshotFileError>,
)
    requires
        checks_one_way(crc64),
        encodes(crc64, order, raw_bytes, use_compression, file),
        decodes(crc64, order, file, use_compression, io_buf_size, r),
    ensures
        match r {
            Ok(read) => read@ == raw_bytes,
            Err(e) => use_compression && raw_bytes.len() > io_buf_size,
        },
{
    vstd::bytes::lemma_auto_spec_u64_to_from_le_bytes();
    let (body, crc) = choose|body: Seq<u8>, crc: u64|
        {
            &&& stores(raw_bytes, use_compression, body)
            &&& #[trigger] checks(crc64, body, crc)
            &&& file == sealed(body, crc, order)
        };
    assert(file.take(file.len() - 8) =~= body);
    assert(file.skip(file.len() - 8) =~= crc_bytes(crc, order));
    assert(spec_u64_to_le_bytes(crc).reverse().reverse() =~= spec_u64_to_le_bytes(crc));
}

/// The digits of `n`.
pub open spec fn decimal(n: nat) -> Seq<char>
    decreases n,
{
    if n < 10 {
        seq![digit(n)]
    } else {
        decimal(n / 10).push(digit(n % 10))
    }
}

/// The digit of a number below ten.
pub open spec fn digit(n: nat) -> char {
    ('0' as u32 + n) as char
}

/// Puts a digit behind `s`.
fn push_digit(s: &mut String, n: u64)
    requires
        n < 10,
    ensures
        final(s)@ == old(s)@.push(digit(n as nat)),
{
    proof {
        reveal_strlit("0");
        reveal_strlit("1");
        reveal_strlit("2");
        reveal_strlit("3");
        reveal_strlit("4");
        reveal_strlit("5");
        reveal_strlit("6");
        reveal_strlit("7");
        reveal_strlit("8");
        reveal_strlit("9");
    }
    match n {
        0 => s.append("0"),
        1 => s.append("1"),
        2 => s.append("2"),
        3 => s.append("3"),
        4 => s.append("4"),
        5 => s.append("5"),
        6 => s.append("6"),
        7 => s.append("7"),
        8 => s.append("8"),
        _ => s.append("9"),
    }
    assert(s@ =~= old(s)@.push(digit(n as nat)));
}

/// Puts the digits of `n` behind `s`.
fn push_decimal(s: &mut String, n: u64)
    ensures
        final(s)@ == old(s)@ + decimal(n as nat),
    decreases n,
{
    if n >= 10 {
        push_decimal(s, n / 10);
    }
    push_digit(s, n % 10);
    assert(s@ =~= old(s)@ + decimal(n as nat));
}

/// The name of the file that holds the snapshot up to `max_lsn`.
pub fn snapshot_path(prefix: &str, max_lsn: Lsn) -> (r: String)
    ensures
        r@ == prefix@ + seq!['.'] + decimal(max_lsn as nat),
{
    proof {
        reveal_strlit(".");
    }
    let mut path = String::new();
    path.append(prefix);
    path.append(".");
    push_decimal(&mut path, max_lsn);
    assert(path@ =~= prefix@ + seq!['.'] + decimal(max_lsn as nat));
    path
}

/// The name under which that file is written before it is complete.
pub fn snapshot_path_in_motion(prefix: &str, max_lsn: Lsn) -> (r: String)
    ensures
        r@ == prefix@ + seq!['.'] + decimal(max_lsn as nat) + ".in___motion"@,
{
    let mut path = snapshot_path(prefix, max_lsn);
    path.append(".in___motion");
    path
}

/// `end` is what `s` ends with.
pub open spec fn ends_with(s: Seq<char>, end: Seq<char>) -> bool {
    end.len() <= s.len() && s.skip(s.len() - end.len()) == end
}

/// Whether a snapshot file is to be removed now that there is a newer one at
/// `current`: it is, unless its name is what `current` ends with.
pub fn is_superseded(current: &str, file_name: &str) -> (r: bool)
    ensures
        r == !ends_with(current@, file_name@),
{
    let n: usize = current.unicode_len();
    let k: usize = file_name.unicode_len();
    if k > n {
        return true;
    }
    let mut i: usize = 0;
    while i < k
        invariant
            i <= k <= n,
            n == current@.len(),
            k == file_name@.len(),
            forall|j: int| 0 <= j < i ==> current@[n - k + j] == #[trigger] file_name@[j],
        decreases k - i,
    {
        if current.get_char(n - k + i) != file_name.get_char(i) {
            assert(current@.skip(n - k)[i as int] != file_name@[i as int]);
            return true;
        }
        i += 1;
    }
    assert(current@.skip(n - k) =~= file_name@);
    false
}

/// Out of the times at which the snapshot files were created, the place of the
/// one to be read: the newest, and of several newest the last.
pub fn newest(created: &Vec<i128>) -> (r: Option<usize>)
    ensures
        match r {
            None => created@.len() == 0,
            Some(i) => {
                &&& i < created@.len()
                &&& forall|j: int|
                    0 <= j < created@.len() ==> #[trigger] created@[j] <= created@[i as int]
                &&& forall|j: int|
                    i < j < created@.len() ==> #[trigger] created@[j] < created@[i as int]
            },
        },
{
    if created.len() == 0 {
        return None;
    }
    let mut best: usize = 0;
    let mut i: usize = 1;
    while i < created.len()
        invariant
            best < i <= created@.len(),
            forall|j: int| 0 <= j < i ==> #[trigger] created@[j] <= created@[best as int],
            forall|j: int| best < j < i ==> #[trigger] created@[j] < created@[best as int],
        decreases created@.len() - i,
    {
        if created[i] >= created[best] {
            best = i;
        }
        i += 1;
    }
    Some(best)
}

} // verus!
