//! The GZIP member (RFC 1952) around a DEFLATE stream.

use vstd::prelude::*;
use crate::deflate::deflate;
use crate::inflate::inflate;

verus! {

/// The IEEE 802.3 CRC-32 of a byte string.
pub uninterp spec fn crc32_of(data: Seq<u8>) -> u32;

/// Relies on `crc32fast::hash`: the CRC-32 of `data`, which depends on the
/// bytes alone and is 0 for no bytes.
#[verifier::external_body]
fn crc32(data: &[u8]) -> (r: u32)
    ensures
        r == crc32_of(data@),
        data@.len() == 0 ==> r == 0,
{
    crc32fast::hash(data)
}

/// The four bytes of `v`, least significant first.
pub open spec fn le32(v: u32) -> Seq<u8> {
    seq![
        (v % 256) as u8,
        ((v / 256) % 256) as u8,
        ((v / 65536) % 256) as u8,
        (v / 16777216) as u8,
    ]
}

/// Magic, method (deflate), flags (FNAME), MTIME, XFL, OS (Unix), then the
/// zero-terminated file name.
pub open spec fn gzip_header(mtime: u32, file_name: Seq<u8>) -> Seq<u8> {
    seq![0x1fu8, 0x8bu8, 0x08u8, 0x08u8] + le32(mtime) + seq![0x00u8, 0x03u8] + file_name + seq![
        0x00u8,
    ]
}

/// CRC-32 and size modulo 2^32 of the uncompressed data.
pub open spec fn gzip_trailer(data: Seq<u8>) -> Seq<u8> {
    le32(crc32_of(data)) + le32((data.len() % 0x1_0000_0000) as u32)
}

/// The trailer of empty data: CRC 0 and size 0.
pub open spec fn empty_trailer() -> Seq<u8> {
    seq![0u8, 0u8, 0u8, 0u8, 0u8, 0u8, 0u8, 0u8]
}

fn push_le32(out: &mut Vec<u8>, v: u32)
    ensures
        final(out)@ == old(out)@ + le32(v),
{
    out.push((v % 256) as u8);
    out.push(((v / 256) % 256) as u8);
    out.push(((v / 65536) % 256) as u8);
    out.push((v / 16777216) as u8);
    proof {
        assert(out@ =~= old(out)@ + le32(v));
    }
}

fn push_all(out: &mut Vec<u8>, bytes: &[u8])
    ensures
        final(out)@ == old(out)@ + bytes@,
{
    let mut i: usize = 0;
    while i < bytes.len()
        invariant
            i <= bytes@.len(),
            out@ == old(out)@ + bytes@.take(i as int),
        decreases bytes@.len() - i,
    {
        out.push(bytes[i]);
        i = i + 1;
        proof {
            assert(out@ =~= old(out)@ + bytes@.take(i as int));
        }
    }
    proof {
        assert(bytes@.take(bytes@.len() as int) =~= bytes@);
    }
}

/// A GZIP member holding the already compressed `deflated` form of `data`.
pub fn gzip_member(data: &[u8], deflated: &[u8], file_name: &[u8], mtime: u32) -> (r: Vec<u8>)
    ensures
        r@ == gzip_header(mtime, file_name@) + deflated@ + gzip_trailer(data@),
        data@.len() == 0 ==> r@ == gzip_header(mtime, file_name@) + deflated@ + empty_trailer(),
{
    let mut out: Vec<u8> = Vec::new();
    out.push(0x1f);
    out.push(0x8b);
    out.push(0x08);
    out.push(0x08);
    push_le32(&mut out, mtime);
    out.push(0x00);
    out.push(0x03);
    push_all(&mut out, file_name);
    out.push(0x00);
    push_all(&mut out, deflated);
    let crc = crc32(data);
    push_le32(&mut out, crc);
    let size = (data.len() as u64 % 0x1_0000_0000) as u32;
    push_le32(&mut out, size);
    proof {
        assert(out@ =~= gzip_header(mtime, file_name@) + deflated@ + gzip_trailer(data@));
        if data@.len() == 0 {
            assert(gzip_trailer(data@) =~= empty_trailer());
        }
    }
    out
}

/// Compresses `data` into a complete GZIP member named `file_name`.
pub fn gzip_compress(data: &[u8], file_name: &[u8], mtime: u32) -> (r: Vec<u8>)
    ensures
        exists|d: Seq<u8>|
            {
                &&& r@ == gzip_header(mtime, file_name@) + d + gzip_trailer(data@)
                &&& data@.len() == 0 ==> d.len() == 0 && r@ == gzip_header(mtime, file_name@)
                    + empty_trailer()
                &&& data@.len() > 0 ==> inflate(d) == Some(data@)
            },
{
    let deflated = deflate(data);
    let r = gzip_member(data, &deflated, file_name, mtime);
    proof {
        if data@.len() == 0 {
            assert(gzip_header(mtime, file_name@) + deflated@ =~= gzip_header(mtime, file_name@));
        }
    }
    r
}

} // verus!
