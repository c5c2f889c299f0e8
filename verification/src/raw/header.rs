//! The header: the first 256 bytes of an archive.
//!
//! | bytes    | field                                               |
//! |----------|-----------------------------------------------------|
//! | 0..30    | signature                                           |
//! | 30..32   | version, lowest byte first                          |
//! | 32       | whether the blocks are encrypted: 0 or 1            |
//! | 33..49   | checksum: what the key makes of a known plain text  |
//! | 49..256  | zero                                                |

use vstd::prelude::*;
use crate::blowfish::{Blowfish, BlowfishView, spec_encrypt, lemma_encrypt_len};
use crate::bytes::{
    bytes_eq, copy_range, le_bytes, le_value, zeros, push_bytes, push_zeros, lemma_le_bytes_len,
    lemma_le_roundtrip, lemma_le_value_bound, lemma_pow256_values,
};
use crate::constants::{
    PK2_CHECKSUM, PK2_CHECKSUM_FIELD_SIZE, PK2_FILE_HEADER_SIZE, PK2_SIGNATURE,
    PK2_SIGNATURE_SIZE, PK2_VERSION,
};
use crate::error::{Error, IoError, Pk2Result};

verus! {

/// What a header holds.
pub struct PackHeaderView {
    pub signature: Seq<u8>,
    pub version: u16,
    pub encrypted: bool,
    pub verify: Seq<u8>,
}

impl PackHeaderView {
    /// Whether the signature and the checksum have the lengths of their
    /// fields.
    pub open spec fn wf(self) -> bool {
        self.signature.len() == PK2_SIGNATURE_SIZE && self.verify.len()
            == PK2_CHECKSUM_FIELD_SIZE
    }
}

/// The checksum field for a cipher: the encryption of the known plain text,
/// and zeros up to 16 bytes.
pub open spec fn spec_checksum(v: BlowfishView) -> Seq<u8> {
    spec_encrypt(v, PK2_CHECKSUM@) + zeros(8)
}

/// The header of an archive that is not encrypted.
pub open spec fn plain_header() -> PackHeaderView {
    PackHeaderView {
        signature: PK2_SIGNATURE@,
        version: PK2_VERSION,
        encrypted: false,
        verify: zeros(16),
    }
}

/// The header of an archive that is encrypted with the cipher `v`.
pub open spec fn encrypted_header(v: BlowfishView) -> PackHeaderView {
    PackHeaderView {
        signature: PK2_SIGNATURE@,
        version: PK2_VERSION,
        encrypted: true,
        verify: spec_checksum(v),
    }
}

/// The stored form of a header: 256 bytes.
pub open spec fn spec_encode_header(h: PackHeaderView) -> Seq<u8> {
    h.signature + le_bytes(h.version as nat, 2) + seq![if h.encrypted { 1u8 } else { 0u8 }]
        + h.verify + zeros(207)
}

/// The header that the first 256 bytes of `bytes` stand for.
pub open spec fn spec_decode_header(bytes: Seq<u8>) -> PackHeaderView {
    PackHeaderView {
        signature: bytes.subrange(0, 30),
        version: le_value(bytes.subrange(30, 32)) as u16,
        encrypted: bytes[32] != 0,
        verify: bytes.subrange(33, 49),
    }
}

/// What reading a header from the front of `bytes` gives.
pub open spec fn spec_read_header(bytes: Seq<u8>) -> Pk2Result<PackHeaderView> {
    if bytes.len() < PK2_FILE_HEADER_SIZE {
        Err(Error::Io(IoError::UnexpectedEof))
    } else {
        Ok(spec_decode_header(bytes))
    }
}

/// A header that is stored and read back is the same header, whatever
/// follows it.
pub proof fn lemma_decode_encode_header(h: PackHeaderView, rest: Seq<u8>)
    requires
        h.wf(),
    ensures
        spec_encode_header(h).len() == PK2_FILE_HEADER_SIZE,
        spec_read_header(spec_encode_header(h) + rest) == Ok::<PackHeaderView, Error>(h),
{
    let bytes = spec_encode_header(h) + rest;
    lemma_pow256_values();
    lemma_le_bytes_len(h.version as nat, 2);
    lemma_le_roundtrip(h.version as nat, 2);
    assert(bytes.subrange(0, 30) =~= h.signature);
    assert(bytes.subrange(30, 32) =~= le_bytes(h.version as nat, 2));
    assert(bytes.subrange(33, 49) =~= h.verify);
}

/// The checksum field is 16 bytes long.
pub proof fn lemma_checksum_len(v: BlowfishView)
    ensures
        spec_checksum(v).len() == PK2_CHECKSUM_FIELD_SIZE,
{
    lemma_encrypt_len(v, PK2_CHECKSUM@);
}

/// The header of an archive.
#[derive(Debug)]
pub struct PackHeader {
    signature: Vec<u8>,
    version: u16,
    encrypted: bool,
    verify: Vec<u8>,
}

impl View for PackHeader {
    type V = PackHeaderView;

    closed spec fn view(&self) -> PackHeaderView {
        PackHeaderView {
            signature: self.signature@,
            version: self.version,
            encrypted: self.encrypted,
            verify: self.verify@,
        }
    }
}

/// The checksum field for `bf`.
pub fn checksum(bf: &Blowfish) -> (r: Vec<u8>)
    ensures
        r@ == spec_checksum(bf@),
        r@.len() == PK2_CHECKSUM_FIELD_SIZE,
{
    let mut buf: Vec<u8> = Vec::new();
    push_bytes(&mut buf, PK2_CHECKSUM.as_slice());
    assert(buf@ =~= PK2_CHECKSUM@);
    bf.encrypt(&mut buf);
    push_zeros(&mut buf, 8);
    buf
}

impl Default for PackHeader {
    /// The header of an archive that is not encrypted.
    fn default() -> (r: Self)
        ensures
            r@ == plain_header(),
            r@.wf(),
    {
        let mut signature: Vec<u8> = Vec::new();
        push_bytes(&mut signature, PK2_SIGNATURE.as_slice());
        assert(signature@ =~= PK2_SIGNATURE@);
        let mut verify: Vec<u8> = Vec::new();
        push_zeros(&mut verify, PK2_CHECKSUM_FIELD_SIZE);
        assert(verify@ =~= zeros(16));
        PackHeader { signature, version: PK2_VERSION, encrypted: false, verify }
    }
}

impl PackHeader {
    /// The header of an archive that is encrypted with `bf`.
    pub fn new_encrypted(bf: &Blowfish) -> (r: Self)
        ensures
            r@ == encrypted_header(bf@),
            r@.wf(),
    {
        let mut signature: Vec<u8> = Vec::new();
        push_bytes(&mut signature, PK2_SIGNATURE.as_slice());
        assert(signature@ =~= PK2_SIGNATURE@);
        PackHeader { signature, version: PK2_VERSION, encrypted: true, verify: checksum(bf) }
    }

    /// Whether the blocks of the archive are encrypted.
    pub fn encrypted(&self) -> (r: bool)
        ensures
            r == self@.encrypted,
    {
        self.encrypted
    }

    /// The version that the header carries.
    pub fn version(&self) -> (r: u16)
        ensures
            r == self@.version,
    {
        self.version
    }

    /// Reads a header from the first 256 bytes of `bytes`.
    pub fn from_reader(bytes: &[u8]) -> (r: Pk2Result<Self>)
        ensures
            match r {
                Ok(header) => spec_read_header(bytes@) == Ok::<PackHeaderView, Error>(header@)
                    && header@.wf(),
                Err(e) => spec_read_header(bytes@) == Err::<PackHeaderView, Error>(e),
            },
    {
        if bytes.len() < PK2_FILE_HEADER_SIZE {
            return Err(Error::Io(IoError::UnexpectedEof));
        }
        let signature = copy_range(bytes, 0, 30);
        proof {
            lemma_le_value_bound(bytes@.subrange(30, 32));
            lemma_pow256_values();
            crate::bytes::lemma_le_value_two(bytes@.subrange(30, 32));
        }
        let version = (bytes[30] as u16) + (bytes[31] as u16) * 0x100;
        let encrypted = bytes[32] != 0;
        let verify = copy_range(bytes, 33, 49);
        Ok(PackHeader { signature, version, encrypted, verify })
    }

    /// Appends the 256 stored bytes of the header to `out`.
    pub fn to_writer(&self, out: &mut Vec<u8>)
        requires
            self@.wf(),
        ensures
            final(out)@ == old(out)@ + spec_encode_header(self@),
            final(out)@.len() == old(out)@.len() + PK2_FILE_HEADER_SIZE,
    {
        proof {
            lemma_le_bytes_len(self.version as nat, 2);
            crate::bytes::lemma_le_bytes_two(self.version);
        }
        push_bytes(out, self.signature.as_slice());
        out.push((self.version % 0x100) as u8);
        out.push((self.version / 0x100) as u8);
        out.push(if self.encrypted { 1u8 } else { 0u8 });
        push_bytes(out, self.verify.as_slice());
        push_zeros(out, 207);
        assert(out@ =~= old(out)@ + spec_encode_header(self@));
    }

    /// Accepts the header where it carries the signature of an archive, and
    /// fails with `InvalidSignature` where it does not.
    pub fn validate_sig(&self) -> (r: Pk2Result<()>)
        ensures
            r == (if self@.signature == PK2_SIGNATURE@ {
                Ok::<(), Error>(())
            } else {
                Err::<(), Error>(Error::InvalidSignature)
            }),
    {
        if bytes_eq(self.signature.as_slice(), PK2_SIGNATURE.as_slice()) {
            Ok(())
        } else {
            Err(Error::InvalidSignature)
        }
    }

    /// Accepts `checksum` where it is the checksum field of the header, and
    /// fails with `InvalidKey` where it is not.
    pub fn verify(&self, checksum: &[u8]) -> (r: Pk2Result<()>)
        ensures
            r == (if self@.verify == checksum@ {
                Ok::<(), Error>(())
            } else {
                Err::<(), Error>(Error::InvalidKey)
            }),
    {
        if bytes_eq(self.verify.as_slice(), checksum) {
            Ok(())
        } else {
            Err(Error::InvalidKey)
        }
    }
}

} // verus!
