//! The fixed 91-byte variable-file header.
use vstd::prelude::*;

verus! {

/// The calculator a variable file is made for.
#[derive(Clone, Copy, Debug, PartialEq, Eq, Structural)]
pub enum Calc {
    TI89,
    TI92P,
    V200,
}

/// Size of the header in bytes.
pub const HEADER_SIZE: usize = 91;

/// Offset of the datasize field, where the checksummed range starts.
pub const DATASIZE_OFFSET: usize = 86;

/// Length of the in-file type extension, `ch8`.
pub const EXT_LEN: usize = 3;

/// Width of the folder and variable name fields.
pub const NAME_LEN: usize = 8;

/// Version of the file format, major part.
pub const MAJOR_VERSION: u8 = 1;

/// Version of the file format, minor part.
pub const MINOR_VERSION: u8 = 0;

/// Version of the file format, patch part.
pub const PATCH_VERSION: u8 = 0;

/// The 8-byte signature: `**TI89**` for the TI-89, `**TI92P*` for the others.
pub open spec fn signature_of(calc: Calc) -> Seq<u8> {
    match calc {
        Calc::TI89 => seq![0x2Au8, 0x2A, 0x54, 0x49, 0x38, 0x39, 0x2A, 0x2A],
        _ => seq![0x2Au8, 0x2A, 0x54, 0x49, 0x39, 0x32, 0x50, 0x2A],
    }
}

/// The first `n` bytes of `s`, padded with zeros on the right.
pub open spec fn clip_pad(s: Seq<u8>, n: nat) -> Seq<u8> {
    Seq::new(n, |k: int| if k < s.len() { s[k] } else { 0u8 })
}

/// Two big-endian bytes of a value below 65536.
pub open spec fn be16(v: int) -> Seq<u8> {
    seq![(v / 256) as u8, (v % 256) as u8]
}

/// Four little-endian bytes of a value below 2^32.
pub open spec fn le32(v: int) -> Seq<u8> {
    seq![
        (v % 256) as u8,
        (v / 256 % 256) as u8,
        (v / 65536 % 256) as u8,
        (v / 16777216) as u8,
    ]
}

/// Value of the header's size field.
pub open spec fn size_field(datasize: int, ext_len: int) -> int {
    HEADER_SIZE + datasize + 5 + ext_len
}

/// Value of the header's datasize field.
pub open spec fn datasize_field(datasize: int, ext_len: int) -> int {
    datasize + 3 + ext_len + 3
}

/// The header for a payload of `datasize` bytes, field by field.
pub open spec fn header_of(
    calc: Calc,
    folder: Seq<u8>,
    name: Seq<u8>,
    datasize: int,
    ext_len: int,
) -> Seq<u8> {
    signature_of(calc) + seq![0x01u8, 0x00] + clip_pad(folder, 8) + Seq::new(40, |k: int| 0u8)
        + seq![0x01u8, 0x00, 0x52, 0x00, 0x00, 0x00] + clip_pad(name, 8) + seq![
        0x1Cu8,
        0x00,
        0x00,
        0x00,
    ] + le32(size_field(datasize, ext_len)) + seq![0xA5u8, 0x5A, 0x00, 0x00, 0x00, 0x00]
        + be16(datasize_field(datasize, ext_len)) + seq![
        MAJOR_VERSION,
        MINOR_VERSION,
        PATCH_VERSION,
    ]
}

/// One device gets its own signature; the other two share a second one.
pub proof fn lemma_signature_selection()
    ensures
        signature_of(Calc::TI92P) == signature_of(Calc::V200),
        signature_of(Calc::TI89) != signature_of(Calc::TI92P),
        signature_of(Calc::TI89).len() == 8,
        signature_of(Calc::TI92P).len() == 8,
{
    assert(signature_of(Calc::TI89)[4] != signature_of(Calc::TI92P)[4]);
}

/// In every header the signature fills bytes 0 to 8, and each name field holds
/// the first 8 bytes of its name, or the whole name followed by zeros when
/// it is shorter.
pub proof fn lemma_header_fields(
    calc: Calc,
    folder: Seq<u8>,
    name: Seq<u8>,
    datasize: int,
    ext_len: int,
)
    ensures
        ({
            let h = header_of(calc, folder, name, datasize, ext_len);
            &&& h.len() == HEADER_SIZE
            &&& h.subrange(0, 8) == signature_of(calc)
            &&& name.len() >= NAME_LEN ==> h.subrange(64, 72) == name.subrange(0, 8)
            &&& name.len() < NAME_LEN ==> h.subrange(64, 72) == name + Seq::new(
                (8 - name.len()) as nat,
                |k: int| 0u8,
            )
            &&& folder.len() >= NAME_LEN ==> h.subrange(10, 18) == folder.subrange(0, 8)
            &&& folder.len() < NAME_LEN ==> h.subrange(10, 18) == folder + Seq::new(
                (8 - folder.len()) as nat,
                |k: int| 0u8,
            )
        }),
{
    let h = header_of(calc, folder, name, datasize, ext_len);
    assert(h.subrange(0, 8) =~= signature_of(calc));
    assert(h.subrange(64, 72) =~= clip_pad(name, 8));
    assert(h.subrange(10, 18) =~= clip_pad(folder, 8));
    if name.len() >= NAME_LEN {
        assert(clip_pad(name, 8) =~= name.subrange(0, 8));
    } else {
        assert(clip_pad(name, 8) =~= name + Seq::new((8 - name.len()) as nat, |k: int| 0u8));
    }
    if folder.len() >= NAME_LEN {
        assert(clip_pad(folder, 8) =~= folder.subrange(0, 8));
    } else {
        assert(clip_pad(folder, 8) =~= folder + Seq::new((8 - folder.len()) as nat, |k: int| 0u8));
    }
}

/// Appends `bytes` to `out`.
fn append(out: &mut Vec<u8>, bytes: &[u8])
    ensures
        final(out)@ == old(out)@ + bytes@,
{
    let mut k: usize = 0;
    while k < bytes.len()
        invariant
            k <= bytes@.len(),
            out@ == old(out)@ + bytes@.subrange(0, k as int),
        decreases bytes@.len() - k,
    {
        out.push(bytes[k]);
        k += 1;
        proof {
            assert(out@ =~= old(out)@ + bytes@.subrange(0, k as int));
        }
    }
    proof {
        assert(bytes@.subrange(0, k as int) =~= bytes@);
    }
}

/// Appends the first `n` bytes of `src`, padded with zeros to `n` bytes.
pub fn strncpy(dest: &mut Vec<u8>, src: &[u8], n: usize)
    ensures
        final(dest)@ == old(dest)@ + clip_pad(src@, n as nat),
{
    let mut k: usize = 0;
    while k < n
        invariant
            k <= n,
            dest@ == old(dest)@ + clip_pad(src@, n as nat).subrange(0, k as int),
        decreases n - k,
    {
        let b: u8 = if k < src.len() {
            src[k]
        } else {
            0
        };
        dest.push(b);
        k += 1;
        proof {
            assert(dest@ =~= old(dest)@ + clip_pad(src@, n as nat).subrange(0, k as int));
        }
    }
    proof {
        assert(clip_pad(src@, n as nat).subrange(0, k as int) =~= clip_pad(src@, n as nat));
    }
}

/// Builds the header for a payload of `datasize` compressed bytes, with the
/// folder and variable names clipped or zero-padded to 8 bytes.
pub fn fill_header(calc: Calc, folder: &[u8], name: &[u8], datasize: usize, ext_len: usize) -> (header: Vec<u8>)
    requires
        datasize + 3 + ext_len + 3 <= 0xFFFF,
    ensures
        header@ == header_of(calc, folder@, name@, datasize as int, ext_len as int),
        header@.len() == HEADER_SIZE,
{
    let mut header: Vec<u8> = Vec::new();
    let signature: [u8; 8] = match calc {
        Calc::TI89 => [0x2A, 0x2A, 0x54, 0x49, 0x38, 0x39, 0x2A, 0x2A],
        _ => [0x2A, 0x2A, 0x54, 0x49, 0x39, 0x32, 0x50, 0x2A],
    };
    assert(signature@ =~= signature_of(calc));
    append(&mut header, signature.as_slice());
    let fill1: [u8; 2] = [0x01, 0x00];
    append(&mut header, fill1.as_slice());
    strncpy(&mut header, folder, NAME_LEN);
    let desc: [u8; 40] = [0; 40];
    assert(desc@ =~= Seq::new(40, |k: int| 0u8));
    append(&mut header, desc.as_slice());
    let fill2: [u8; 6] = [0x01, 0x00, 0x52, 0x00, 0x00, 0x00];
    append(&mut header, fill2.as_slice());
    strncpy(&mut header, name, NAME_LEN);
    let fill3: [u8; 4] = [0x1C, 0x00, 0x00, 0x00];
    append(&mut header, fill3.as_slice());
    let size: u32 = (HEADER_SIZE + datasize + 5 + ext_len) as u32;
    let size_bytes: [u8; 4] = [
        (size % 256) as u8,
        (size / 256 % 256) as u8,
        (size / 65536 % 256) as u8,
        (size / 16777216) as u8,
    ];
    append(&mut header, size_bytes.as_slice());
    let fill4: [u8; 6] = [0xA5, 0x5A, 0x00, 0x00, 0x00, 0x00];
    append(&mut header, fill4.as_slice());
    let field: u16 = (datasize + 3 + ext_len + 3) as u16;
    let field_bytes: [u8; 2] = [(field / 256) as u8, (field % 256) as u8];
    append(&mut header, field_bytes.as_slice());
    let version: [u8; 3] = [MAJOR_VERSION, MINOR_VERSION, PATCH_VERSION];
    append(&mut header, version.as_slice());
    proof {
        assert(header@ =~= header_of(calc, folder@, name@, datasize as int, ext_len as int));
    }
    header
}

} // verus!
