//! What is in a snapshot file, byte by byte, and what it is called.

use crate::snapshot_file::{
    checks, compressible, crc_bytes, crc_from, decimal, decodes, encodes, ends_with, sealed, stores,
    undoes_compression, zstd_compresses, zstd_decompresses, ByteOrder, SnapshotFileError,
};
use vstd::bytes::{spec_u64_from_le_bytes, spec_u64_to_le_bytes};
use vstd::prelude::*;

verus! {

/// `bytes` stand for `crc` in the given order.
pub open spec fn stands_for(bytes: Seq<u8>, crc: u64, order: ByteOrder) -> bool {
    &&& bytes.len() == 8
    &&& forall|i: int|
        0 <= i < 8 ==> #[trigger] bytes[i] == match order {
            ByteOrder::LowestFirst => spec_u64_to_le_bytes(crc)[i],
            ByteOrder::HighestFirst => spec_u64_to_le_bytes(crc)[7 - i],
        }
}

/// A checksum is eight bytes in the given order, and comes out of them again.
pub proof fn law_a_checksum_is_eight_bytes(crc: u64, order: ByteOrder, bytes: Seq<u8>)
    ensures
        stands_for(crc_bytes(crc, order), crc, order),
        crc_from(crc_bytes(crc, order), order) == crc,
        stands_for(bytes, crc, order) ==> crc_from(bytes, order) == crc,
        bytes.len() == 8 ==> stands_for(bytes, crc_from(bytes, order), order),
{
    vstd::bytes::lemma_auto_spec_u64_to_from_le_bytes();
    let low = spec_u64_to_le_bytes(crc);
    assert(low.len() == 8);
    assert(low.reverse().reverse() =~= low);
    if stands_for(bytes, crc, order) {
        match order {
            ByteOrder::LowestFirst => {
                assert(bytes =~= low);
            },
            ByteOrder::HighestFirst => {
                assert(bytes.reverse() =~= low);
            },
        }
    }
    if bytes.len() == 8 {
        match order {
            ByteOrder::LowestFirst => {
                assert(spec_u64_to_le_bytes(spec_u64_from_le_bytes(bytes)) == bytes);
            },
            ByteOrder::HighestFirst => {
                let turned = bytes.reverse();
                assert(spec_u64_to_le_bytes(spec_u64_from_le_bytes(turned)) == turned);
                assert forall|i: int| 0 <= i < 8 implies bytes[i] == turned[7 - i] by {}
            },
        }
    }
}

/// A file is the stored bytes, all of them, and behind them the checksum.
pub proof fn law_a_file_is_the_bytes_and_the_checksum(body: Seq<u8>, crc: u64, order: ByteOrder)
    ensures
        sealed(body, crc, order).len() == body.len() + 8,
        sealed(body, crc, order).take(body.len() as int) == body,
        stands_for(sealed(body, crc, order).skip(body.len() as int), crc, order),
{
    law_a_checksum_is_eight_bytes(crc, order, body);
    assert(sealed(body, crc, order).take(body.len() as int) =~= body);
    assert(sealed(body, crc, order).skip(body.len() as int) =~= crc_bytes(crc, order));
}

/// A file that is written holds the bytes of the snapshot as they are, or what
/// the compression library made of them at the fifth level, and the checksum
/// of just these bytes.
pub proof fn law_what_a_written_file_holds<F: Fn(&Vec<u8>) -> u64>(
    crc64: F,
    order: ByteOrder,
    raw_bytes: Seq<u8>,
    use_compression: bool,
    file: Seq<u8>,
)
    requires
        encodes(crc64, order, raw_bytes, use_compression, file),
    ensures
        file.len() >= 8,
        exists|bytes: &Vec<u8>, crc: u64|
            {
                &&& #[trigger] call_ensures(crc64, (bytes,), crc)
                &&& bytes@ == file.take(file.len() - 8)
                &&& stands_for(file.skip(file.len() - 8), crc, order)
                &&& !use_compression ==> bytes@ == raw_bytes
                &&& use_compression ==> zstd_compresses(raw_bytes, 5, Some(bytes@))
            },
{
    let (body, crc) = choose|body: Seq<u8>, crc: u64|
        {
            &&& stores(raw_bytes, use_compression, body)
            &&& #[trigger] checks(crc64, body, crc)
            &&& file == sealed(body, crc, order)
        };
    law_a_file_is_the_bytes_and_the_checksum(body, crc, order);
    let bytes = choose|bytes: &Vec<u8>|
        bytes@ == body && #[trigger] call_ensures(crc64, (bytes,), crc);
    assert(call_ensures(crc64, (bytes,), crc));
}

/// A file with room for a checksum is read if and only if the checksum at its
/// end is that of all bytes before it; what is read is these bytes, or what the
/// compression library makes of them in the room that is set aside.
pub proof fn law_what_is_read_from_a_file<F: Fn(&Vec<u8>) -> u64>(
    crc64: F,
    order: ByteOrder,
    file: Seq<u8>,
    use_compression: bool,
    io_buf_size: usize,
    r: Result<Vec<u8>, SnapshotFileError>,
)
    requires
        decodes(crc64, order, file, use_compression, io_buf_size, r),
    ensures
        file.len() < 8 <==> r == Err::<Vec<u8>, _>(SnapshotFileError::TooShort),
        file.len() >= 8 ==> exists|bytes: &Vec<u8>, crc: u64|
            {
                let body = file.take(file.len() - 8);
                let intact = stands_for(file.skip(file.len() - 8), crc, order);
                &&& #[trigger] call_ensures(crc64, (bytes,), crc)
                &&& bytes@ == body
                &&& !intact <==> r == Err::<Vec<u8>, _>(SnapshotFileError::CrcMismatch)
                &&& intact && !use_compression ==> (r matches Ok(read) && read@ == body)
                &&& intact && use_compression ==> match r {
                    Ok(read) => zstd_decompresses(body, io_buf_size, Some(read@)),
                    Err(e) => e == SnapshotFileError::Compression && zstd_decompresses(
                        body,
                        io_buf_size,
                        None,
                    ),
                }
            },
{
    if file.len() >= 8 {
        let body = file.take(file.len() - 8);
        let trailer = file.skip(file.len() - 8);
        let expected = crc_from(trailer, order);
        let crc = choose|crc: u64| #[trigger]
            checks(crc64, body, crc) && if crc != expected {
                r == Err::<Vec<u8>, _>(SnapshotFileError::CrcMismatch)
            } else if use_compression {
                match r {
                    Ok(raw_bytes) => {
                        &&& zstd_decompresses(body, io_buf_size, Some(raw_bytes@))
                        &&& undoes_compression(
                            body,
                            io_buf_size,
                            Some(raw_bytes@),
                        )
                    },
                    Err(e) => {
                        &&& e == SnapshotFileError::Compression
                        &&& zstd_decompresses(body, io_buf_size, None)
                        &&& undoes_compression(body, io_buf_size, None)
                    },
                }
            } else {
                r matches Ok(raw_bytes) && raw_bytes@ == body
            };
        law_a_checksum_is_eight_bytes(crc, order, trailer);
        law_a_checksum_is_eight_bytes(expected, order, trailer);
        let bytes = choose|bytes: &Vec<u8>|
            bytes@ == body && #[trigger] call_ensures(crc64, (bytes,), crc);
        assert(call_ensures(crc64, (bytes,), crc));
    }
}

/// The number that digits stand for.
pub open spec fn number(digits: Seq<char>) -> int
    decreases digits.len(),
{
    if digits.len() == 0 {
        0
    } else {
        10 * number(digits.drop_last()) + (digits.last() as int - 48)
    }
}

/// The digits of a number are digits, stand for it, and have no zero before
/// them. So different sequence numbers give different file names.
pub proof fn law_a_number_is_written_in_digits(n: nat)
    ensures
        decimal(n).len() > 0,
        forall|i: int| 0 <= i < decimal(n).len() ==> '0' <= #[trigger] decimal(n)[i] <= '9',
        number(decimal(n)) == n,
        n > 0 ==> decimal(n)[0] != '0',
        n == 0 ==> decimal(n) == seq!['0'],
    decreases n,
{
    reveal_with_fuel(number, 2);
    if n >= 10 {
        law_a_number_is_written_in_digits(n / 10);
        assert(decimal(n).drop_last() =~= decimal(n / 10));
        assert forall|i: int| 0 <= i < decimal(n).len() implies '0' <= #[trigger] decimal(n)[i]
            <= '9' by {
            if i < decimal(n / 10).len() {
                assert(decimal(n)[i] == decimal(n / 10)[i]);
            }
        }
    } else {
        assert(decimal(n).drop_last().len() == 0);
    }
}

/// A name ends with another if and only if it is something and that behind it.
pub proof fn law_what_a_name_ends_with(name: Seq<char>, end: Seq<char>)
    ensures
        ends_with(name, end) <==> exists|start: Seq<char>| name == #[trigger] (start + end),
{
    if ends_with(name, end) {
        let start = name.take(name.len() - end.len());
        assert(name =~= start + end);
    }
    if exists|start: Seq<char>| name == #[trigger] (start + end) {
        let start = choose|start: Seq<char>| name == #[trigger] (start + end);
        assert(name.skip(name.len() - end.len()) =~= end);
    }
}

/// What goes twice into the largest buffer, with a little to spare, can be
/// compressed, and so can everything shorter than what can be.
pub proof fn law_what_can_be_compressed(len: nat, shorter: nat)
    requires
        shorter <= len,
    ensures
        2 * len + 64 <= isize::MAX ==> compressible(len),
        compressible(len) ==> compressible(shorter),
{
}

} // verus!
