//! The per-file payload decode pipeline: the archive's cipher and its
//! compression codec, applied as a header's flags demand.
//!
//! The format family keeps two transforms.  Encrypted payloads are XOR-ed
//! with a fixed repeating eight-byte key, which is its own inverse.
//! Compressed payloads and compressed header sections hold a zlib stream;
//! inflating one is delegated to the `flate2` crate behind a trusted
//! wrapper.

use vstd::prelude::*;

verus! {

/// Bit set when a payload (or a block's header section) is stored
/// zlib-compressed.
pub const FLAG_COMPRESSED: u32 = 1;

/// Bit set when a payload is stored encrypted.
pub const FLAG_ENCRYPTED: u32 = 2;

/// Bit set when a block keeps all payloads in one contiguous region after
/// its header section, instead of addressing them absolutely.
pub const FLAG_CONTIGUOUS: u32 = 4;

/// Bit set on a file header that is a tombstone: the entry is skipped.
pub const FLAG_DELETED: u32 = 8;

/// The flag word of a block or file header.  A block's word gives the
/// defaults; each file header carries its own copy.
#[derive(Clone, Copy, PartialEq, Eq, Structural, Debug)]
pub struct BlockFlags {
    pub bits: u32,
}

impl BlockFlags {
    pub open spec fn spec_compressed(self) -> bool {
        self.bits & FLAG_COMPRESSED != 0
    }

    pub open spec fn spec_encrypted(self) -> bool {
        self.bits & FLAG_ENCRYPTED != 0
    }

    pub open spec fn spec_contiguous(self) -> bool {
        self.bits & FLAG_CONTIGUOUS != 0
    }

    pub open spec fn spec_deleted(self) -> bool {
        self.bits & FLAG_DELETED != 0
    }

    pub fn is_compressed(&self) -> (b: bool)
        ensures
            b == self.spec_compressed(),
    {
        self.bits & FLAG_COMPRESSED != 0
    }

    pub fn is_encrypted(&self) -> (b: bool)
        ensures
            b == self.spec_encrypted(),
    {
        self.bits & FLAG_ENCRYPTED != 0
    }

    pub fn is_contiguous(&self) -> (b: bool)
        ensures
            b == self.spec_contiguous(),
    {
        self.bits & FLAG_CONTIGUOUS != 0
    }

    pub fn is_deleted(&self) -> (b: bool)
        ensures
            b == self.spec_deleted(),
    {
        self.bits & FLAG_DELETED != 0
    }
}

/// Why a payload could not be decoded.
#[derive(Clone, Copy, PartialEq, Eq, Structural, Debug)]
pub enum DecodeError {
    /// The compressed stream was rejected by the codec.
    BadData,
    /// The decoded bytes differ in length from the declared size.
    SizeMismatch,
}

/// The cipher's fixed eight-byte key.
pub open spec fn spec_cipher_key() -> Seq<u8> {
    seq![0xa8u8, 0x73u8, 0x1fu8, 0xc4u8, 0x5eu8, 0x92u8, 0x0bu8, 0xd6u8]
}

/// The cipher: byte `i` XOR-ed with key byte `i mod 8`.  Applying it twice
/// returns the input, so the same transform encrypts and decrypts.
pub open spec fn spec_cipher(b: Seq<u8>) -> Seq<u8> {
    Seq::new(b.len(), |i: int| b[i] ^ spec_cipher_key()[i % 8])
}

/// The cipher is an involution: a second application undoes the first.
pub proof fn lemma_cipher_involution(b: Seq<u8>)
    ensures
        spec_cipher(spec_cipher(b)) == b,
{
    assert forall|i: int| 0 <= i < b.len() implies spec_cipher(spec_cipher(b))[i] == b[i] by {
        let k = spec_cipher_key()[i % 8];
        let x = b[i];
        assert((x ^ k) ^ k == x) by (bit_vector);
    }
    assert(spec_cipher(spec_cipher(b)) =~= b);
}

/// Applies the cipher to every byte.
pub fn cipher_transform(data: &[u8]) -> (r: Vec<u8>)
    ensures
        r@ == spec_cipher(data@),
{
    let key: [u8; 8] = [0xa8u8, 0x73u8, 0x1fu8, 0xc4u8, 0x5eu8, 0x92u8, 0x0bu8, 0xd6u8];
    assert(key@ =~= spec_cipher_key());
    let n = data.len();
    let mut out: Vec<u8> = Vec::new();
    for i in 0..n
        invariant
            n == data@.len(),
            key@ == spec_cipher_key(),
            out@.len() == i,
            forall|k: int| 0 <= k < i ==> out@[k] == spec_cipher(data@)[k],
    {
        out.push(data[i] ^ key[i % 8]);
    }
    assert(out@ =~= spec_cipher(data@));
    out
}

/// What inflating a zlib stream yields; `None` names the streams the codec
/// rejects.  Inflation is a function of the bytes alone.
pub uninterp spec fn inflate_of(b: Seq<u8>) -> Option<Seq<u8>>;

/// Relies on `flate2::read::ZlibDecoder` (drained with `read_to_end`): the
/// decoder inflates the zlib stream in `data`, or fails; either outcome
/// depends on the bytes alone.
#[verifier::external_body]
pub(crate) fn inflate(data: &[u8]) -> (r: Option<Vec<u8>>)
    ensures
        match r {
            Some(v) => inflate_of(data@) == Some(v@),
            None => inflate_of(data@) == None::<Seq<u8>>,
        },
{
    let mut out: Vec<u8> = Vec::new();
    let mut dec = flate2::read::ZlibDecoder::new(data);
    match std::io::Read::read_to_end(&mut dec, &mut out) {
        Ok(_) => Some(out),
        Err(_) => None,
    }
}

/// The decode pipeline on raw payload bytes: decrypt if the flags say
/// encrypted, inflate if they say compressed, and hold the result to the
/// declared size.
pub open spec fn spec_decode(raw: Seq<u8>, flags: BlockFlags, expected: nat) -> Result<
    Seq<u8>,
    DecodeError,
> {
    let plain = if flags.spec_encrypted() {
        spec_cipher(raw)
    } else {
        raw
    };
    if flags.spec_compressed() {
        match inflate_of(plain) {
            Some(out) => if out.len() == expected {
                Ok(out)
            } else {
                Err(DecodeError::SizeMismatch)
            },
            None => Err(DecodeError::BadData),
        }
    } else {
        if plain.len() == expected {
            Ok(plain)
        } else {
            Err(DecodeError::SizeMismatch)
        }
    }
}

/// Decodes one payload as its flags demand, checking the result against the
/// declared uncompressed size.
pub fn decode_payload(raw: &[u8], flags: BlockFlags, expected: usize) -> (r: Result<
    Vec<u8>,
    DecodeError,
>)
    ensures
        match r {
            Ok(v) => spec_decode(raw@, flags, expected as nat) == Ok::<Seq<u8>, DecodeError>(v@),
            Err(e) => spec_decode(raw@, flags, expected as nat) == Err::<Seq<u8>, DecodeError>(e),
        },
{
    let plain: Vec<u8> = if flags.is_encrypted() {
        cipher_transform(raw)
    } else {
        vstd::slice::slice_to_vec(raw)
    };
    if flags.is_compressed() {
        match inflate(plain.as_slice()) {
            Some(out) => {
                if out.len() == expected {
                    Ok(out)
                } else {
                    Err(DecodeError::SizeMismatch)
                }
            },
            None => Err(DecodeError::BadData),
        }
    } else {
        if plain.len() == expected {
            Ok(plain)
        } else {
            Err(DecodeError::SizeMismatch)
        }
    }
}

} // verus!
