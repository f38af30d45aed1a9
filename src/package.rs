//! Assembly of a whole variable file: header, compressed payload, trailer
//! and checksum.
use vstd::prelude::*;
use crate::checksum::{byte_sum, checksum_of, compute_checksum, lemma_byte_sum_concat, parts_sum};
use crate::compress::{compress, encode, lemma_encode_len};
use crate::header::{fill_header, header_of, Calc, DATASIZE_OFFSET, EXT_LEN};

verus! {

/// Largest program image that fits on the calculator.
pub const MAX_ROM_SIZE: usize = 4096;

/// Why a program image could not be packaged.
#[derive(Clone, Copy, Debug, PartialEq, Eq, Structural)]
pub enum ConvertError {
    /// The image is longer than `MAX_ROM_SIZE` bytes.
    InvalidInputSize,
}

/// The six bytes after the payload that name its type, `ch8`.
pub open spec fn trailer() -> Seq<u8> {
    seq![0x00u8, 0x63, 0x68, 0x38, 0x00, 0xF8]
}

/// The checksummed range: the header from its datasize field on, the
/// payload, and the trailer.
pub open spec fn checked_range(header: Seq<u8>, payload: Seq<u8>) -> Seq<u8> {
    header.subrange(DATASIZE_OFFSET as int, header.len() as int) + payload + trailer()
}

/// The variable file for the image `rom`.
pub open spec fn output_file(calc: Calc, folder: Seq<u8>, name: Seq<u8>, rom: Seq<u8>) -> Seq<u8> {
    let payload = encode(rom);
    let header = header_of(calc, folder, name, payload.len() as int, EXT_LEN as int);
    header + payload + trailer() + checksum_of(checked_range(header, payload))
}

/// Packages the image `rom` as a variable file for `calc`, in the folder
/// `folder` under the name `name`. Images longer than `MAX_ROM_SIZE` bytes
/// are refused.
pub fn convert(calc: Calc, folder: &[u8], name: &[u8], rom: Vec<u8>) -> (r: Result<
    Vec<u8>,
    ConvertError,
>)
    ensures
        r is Err <==> rom@.len() > MAX_ROM_SIZE,
        r is Err ==> r == Err::<Vec<u8>, ConvertError>(ConvertError::InvalidInputSize),
        r matches Ok(out) ==> out@ == output_file(calc, folder@, name@, rom@),
{
    if rom.len() > MAX_ROM_SIZE {
        return Err(ConvertError::InvalidInputSize);
    }
    let ghost image = rom@;
    let payload = compress(rom);
    proof {
        lemma_encode_len(image);
    }
    let header = fill_header(calc, folder, name, payload.len(), EXT_LEN);
    let magic: [u8; 6] = [0x00, 0x63, 0x68, 0x38, 0x00, 0xF8];
    assert(magic@ =~= trailer());
    let (_, checked_header) = header.as_slice().split_at(DATASIZE_OFFSET);
    let payload_bytes = payload.as_slice();
    let magic_bytes = magic.as_slice();
    let parts: [&[u8]; 3] = [checked_header, payload_bytes, magic_bytes];
    let sum = compute_checksum(parts.as_slice());
    proof {
        let p = parts@;
        assert(p.drop_last().drop_last().drop_last() =~= Seq::<&[u8]>::empty());
        assert(p.drop_last().drop_last().last() == checked_header);
        assert(p.drop_last().last() == payload_bytes);
        assert(p.last() == magic_bytes);
        lemma_byte_sum_concat(checked_header@, payload@);
        lemma_byte_sum_concat(checked_header@ + payload@, trailer());
        assert(checked_header@ + payload@ + trailer() =~= checked_range(header@, payload@));
        assert(parts_sum(p.drop_last().drop_last().drop_last()) == 0);
        assert(parts_sum(p.drop_last().drop_last()) == byte_sum(checked_header@));
        assert(parts_sum(p.drop_last()) == byte_sum(checked_header@) + byte_sum(payload@));
        assert(parts_sum(p) == byte_sum(checked_range(header@, payload@)));
    }
    let mut out: Vec<u8> = header;
    let mut payload = payload;
    out.append(&mut payload);
    let mut tail: Vec<u8> = Vec::new();
    tail.push(0x00);
    tail.push(0x63);
    tail.push(0x68);
    tail.push(0x38);
    tail.push(0x00);
    tail.push(0xF8);
    tail.push(sum[0]);
    tail.push(sum[1]);
    out.append(&mut tail);
    proof {
        assert(out@ =~= output_file(calc, folder@, name@, image));
    }
    Ok(out)
}

} // verus!
