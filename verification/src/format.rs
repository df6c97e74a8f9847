use crate::constants::{
    spec_magic, magic, HEADER_LEN, MAGIC_LEN, SALT_LEN, STREAM_NONCE_LEN, VERSION,
};
use crate::error::PackError;
use rand::RngCore;
use vstd::prelude::*;

verus! {

/// The fixed-size header that opens every container.
pub struct FileHeader {
    pub password_mode: u8,
    pub salt: Vec<u8>,
    pub nonce: Vec<u8>,
    pub raw_size: u64,
    pub compressed_size: u64,
}

/// The mathematical content of a header.
pub struct HeaderModel {
    pub password_mode: u8,
    pub salt: Seq<u8>,
    pub nonce: Seq<u8>,
    pub raw_size: u64,
    pub compressed_size: u64,
}

impl View for FileHeader {
    type V = HeaderModel;

    open spec fn view(&self) -> HeaderModel {
        HeaderModel {
            password_mode: self.password_mode,
            salt: self.salt@,
            nonce: self.nonce@,
            raw_size: self.raw_size,
            compressed_size: self.compressed_size,
        }
    }
}

impl HeaderModel {
    /// Salt and nonce have the lengths the format fixes.
    pub open spec fn wf(self) -> bool {
        &&& self.salt.len() == SALT_LEN
        &&& self.nonce.len() == STREAM_NONCE_LEN
    }

    /// The bytes that encode this header.
    pub open spec fn encoding(self) -> Seq<u8> {
        spec_magic() + seq![VERSION, self.password_mode] + self.salt + self.nonce + le_bytes(
            self.raw_size,
        ) + le_bytes(self.compressed_size)
    }
}

/// Little-endian bytes of a `u64`.
pub open spec fn le_bytes(v: u64) -> Seq<u8> {
    seq![
        v as u8,
        (v >> 8u64) as u8,
        (v >> 16u64) as u8,
        (v >> 24u64) as u8,
        (v >> 32u64) as u8,
        (v >> 40u64) as u8,
        (v >> 48u64) as u8,
        (v >> 56u64) as u8,
    ]
}

/// The `u64` whose little-endian bytes are the first eight of `b`.
pub open spec fn le_value(b: Seq<u8>) -> u64 {
    le_value_of(b[0], b[1], b[2], b[3], b[4], b[5], b[6], b[7])
}

pub open spec fn le_value_of(b0: u8, b1: u8, b2: u8, b3: u8, b4: u8, b5: u8, b6: u8, b7: u8) -> u64 {
    (b0 as u64) | ((b1 as u64) << 8u64) | ((b2 as u64) << 16u64) | ((b3 as u64) << 24u64) | ((
    b4 as u64) << 32u64) | ((b5 as u64) << 40u64) | ((b6 as u64) << 48u64) | ((b7 as u64)
        << 56u64)
}

/// What reading a header from `b` gives: the errors in the order the fields
/// are read (magic, version, then the rest), else the decoded header.
pub open spec fn parse_header(b: Seq<u8>) -> Result<HeaderModel, PackError> {
    if b.len() < MAGIC_LEN {
        Err(PackError::TruncatedHeader)
    } else if b.take(MAGIC_LEN as int) != spec_magic() {
        Err(PackError::InvalidMagic)
    } else if b.len() < MAGIC_LEN + 1 {
        Err(PackError::TruncatedHeader)
    } else if b[MAGIC_LEN as int] != VERSION {
        Err(PackError::UnsupportedVersion(b[MAGIC_LEN as int]))
    } else if b.len() < HEADER_LEN {
        Err(PackError::TruncatedHeader)
    } else {
        Ok(
            HeaderModel {
                password_mode: b[9],
                salt: b.subrange(10, 26),
                nonce: b.subrange(26, 45),
                raw_size: le_value(b.subrange(45, 53)),
                compressed_size: le_value(b.subrange(53, 61)),
            },
        )
    }
}

/// The error type of `rand`'s fallible random sources.
#[verifier::external_type_specification]
#[verifier::external_body]
pub struct ExRandError(rand::Error);

/// Fills a fresh buffer of `len` bytes from the operating system's random
/// source (`rand::rngs::OsRng`, `RngCore::try_fill_bytes`). Only the length of
/// the result is claimed; its content is chance.
#[verifier::external_body]
fn os_random_bytes(len: usize) -> (r: Result<Vec<u8>, rand::Error>)
    ensures
        r matches Ok(v) ==> v@.len() == len,
{
    let mut v = vec![0u8; len];
    rand::rngs::OsRng.try_fill_bytes(&mut v)?;
    Ok(v)
}

fn random_bytes(len: usize) -> (r: Result<Vec<u8>, PackError>)
    ensures
        r matches Ok(v) ==> v@.len() == len,
        r matches Err(e) ==> e == PackError::RandomSource,
{
    match os_random_bytes(len) {
        Ok(v) => Ok(v),
        Err(_) => Err(PackError::RandomSource),
    }
}

/// Appends the little-endian bytes of `v`.
fn push_le_u64(out: &mut Vec<u8>, v: u64)
    ensures
        final(out)@ == old(out)@ + le_bytes(v),
{
    out.push(v as u8);
    out.push((v >> 8u64) as u8);
    out.push((v >> 16u64) as u8);
    out.push((v >> 24u64) as u8);
    out.push((v >> 32u64) as u8);
    out.push((v >> 40u64) as u8);
    out.push((v >> 48u64) as u8);
    out.push((v >> 56u64) as u8);
    assert(final(out)@ =~= old(out)@ + le_bytes(v));
}

/// Reads the little-endian `u64` stored at `b[at..at + 8]`.
fn read_le_u64(b: &[u8], at: usize) -> (v: u64)
    requires
        at + 8 <= b@.len(),
    ensures
        v == le_value(b@.subrange(at as int, at + 8)),
{
    le_u64_of(b[at], b[at + 1], b[at + 2], b[at + 3], b[at + 4], b[at + 5], b[at + 6], b[at + 7])
}

fn le_u64_of(b0: u8, b1: u8, b2: u8, b3: u8, b4: u8, b5: u8, b6: u8, b7: u8) -> (v: u64)
    ensures
        v == le_value_of(b0, b1, b2, b3, b4, b5, b6, b7),
{
    (b0 as u64) | ((b1 as u64) << 8u64) | ((b2 as u64) << 16u64) | ((b3 as u64) << 24u64) | ((
    b4 as u64) << 32u64) | ((b5 as u64) << 40u64) | ((b6 as u64) << 48u64) | ((b7 as u64)
        << 56u64)
}

/// Appends all of `bytes` to `out`.
fn append_bytes(out: &mut Vec<u8>, bytes: &[u8])
    ensures
        final(out)@ == old(out)@ + bytes@,
{
    let ghost start = out@;
    let mut i: usize = 0;
    while i < bytes.len()
        invariant
            i <= bytes@.len(),
            out@ == start + bytes@.take(i as int),
        decreases bytes@.len() - i,
    {
        out.push(bytes[i]);
        i = i + 1;
        assert(out@ =~= start + bytes@.take(i as int));
    }
    assert(bytes@.take(i as int) =~= bytes@);
}

impl FileHeader {
    /// A header for `raw_size` bytes of input and the given password mode,
    /// with a fresh random salt and nonce and a compressed size of zero.
    pub fn new(raw_size: u64, password_mode: u8) -> (r: Result<FileHeader, PackError>)
        ensures
            r matches Ok(h) ==> {
                &&& h@.wf()
                &&& h.password_mode == password_mode
                &&& h.raw_size == raw_size
                &&& h.compressed_size == 0
            },
            r matches Err(e) ==> e == PackError::RandomSource,
    {
        let salt = random_bytes(SALT_LEN)?;
        let nonce = random_bytes(STREAM_NONCE_LEN)?;
        Ok(FileHeader { password_mode, salt, nonce, raw_size, compressed_size: 0 })
    }

    /// Appends the encoded header to `out`.
    pub fn write_to(&self, out: &mut Vec<u8>)
        requires
            self@.wf(),
        ensures
            final(out)@ == old(out)@ + self@.encoding(),
    {
        let ghost start = out@;
        let m = magic();
        append_bytes(out, m.as_slice());
        out.push(VERSION);
        out.push(self.password_mode);
        append_bytes(out, self.salt.as_slice());
        append_bytes(out, self.nonce.as_slice());
        push_le_u64(out, self.raw_size);
        push_le_u64(out, self.compressed_size);
        assert(out@ =~= start + self@.encoding());
    }

    /// Reads a header from the first bytes of `input`; bytes past the header
    /// are left alone.
    pub fn read_from(input: &[u8]) -> (r: Result<FileHeader, PackError>)
        ensures
            r matches Ok(h) ==> parse_header(input@) == Ok::<HeaderModel, PackError>(h@),
            r matches Err(e) ==> parse_header(input@) == Err::<HeaderModel, PackError>(e),
    {
        if input.len() < MAGIC_LEN {
            return Err(PackError::TruncatedHeader);
        }
        let m = magic();
        let mut i: usize = 0;
        while i < MAGIC_LEN
            invariant
                i <= MAGIC_LEN,
                MAGIC_LEN <= input@.len(),
                m@ == spec_magic(),
                forall|k: int| 0 <= k < i ==> input@[k] == spec_magic()[k],
            decreases MAGIC_LEN - i,
        {
            if input[i] != m[i] {
                proof {
                    assert(input@.take(MAGIC_LEN as int)[i as int] != spec_magic()[i as int]);
                }
                return Err(PackError::InvalidMagic);
            }
            i = i + 1;
        }
        assert(input@.take(MAGIC_LEN as int) =~= spec_magic());
        if input.len() < MAGIC_LEN + 1 {
            return Err(PackError::TruncatedHeader);
        }
        let version = input[MAGIC_LEN];
        if version != VERSION {
            return Err(PackError::UnsupportedVersion(version));
        }
        if input.len() < HEADER_LEN {
            return Err(PackError::TruncatedHeader);
        }
        let password_mode = input[9];
        let salt = slice_subrange(input, 10, 26);
        let nonce = slice_subrange(input, 26, 45);
        let raw_size = read_le_u64(input, 45);
        let compressed_size = read_le_u64(input, 53);
        let h = FileHeader { password_mode, salt, nonce, raw_size, compressed_size };
        assert(h@.salt =~= input@.subrange(10, 26));
        assert(h@.nonce =~= input@.subrange(26, 45));
        Ok(h)
    }
}

/// Copies `b[from..to]`.
fn slice_subrange(b: &[u8], from: usize, to: usize) -> (r: Vec<u8>)
    requires
        from <= to <= b@.len(),
    ensures
        r@ == b@.subrange(from as int, to as int),
{
    let mut r: Vec<u8> = Vec::new();
    let mut i = from;
    while i < to
        invariant
            from <= i <= to <= b@.len(),
            r@ == b@.subrange(from as int, i as int),
        decreases to - i,
    {
        r.push(b[i]);
        i = i + 1;
        assert(r@ =~= b@.subrange(from as int, i as int));
    }
    r
}

proof fn lemma_le_roundtrip(v: u64)
    ensures
        le_value(le_bytes(v)) == v,
{
    let b = le_bytes(v);
    assert(le_value_of(
        v as u8,
        (v >> 8u64) as u8,
        (v >> 16u64) as u8,
        (v >> 24u64) as u8,
        (v >> 32u64) as u8,
        (v >> 40u64) as u8,
        (v >> 48u64) as u8,
        (v >> 56u64) as u8,
    ) == v) by (bit_vector);
}

proof fn lemma_le_bytes_roundtrip(s: Seq<u8>)
    requires
        s.len() == 8,
    ensures
        le_bytes(le_value(s)) == s,
{
    let (b0, b1, b2, b3, b4, b5, b6, b7) = (s[0], s[1], s[2], s[3], s[4], s[5], s[6], s[7]);
    let v = le_value_of(b0, b1, b2, b3, b4, b5, b6, b7);
    assert(v as u8 == b0 && (v >> 8u64) as u8 == b1 && (v >> 16u64) as u8 == b2 && (v >> 24u64)
        as u8 == b3 && (v >> 32u64) as u8 == b4 && (v >> 40u64) as u8 == b5 && (v >> 48u64) as u8
        == b6 && (v >> 56u64) as u8 == b7) by (bit_vector)
        requires
            v == le_value_of(b0, b1, b2, b3, b4, b5, b6, b7),
    ;
    assert(le_bytes(v) =~= s);
}

/// Every well-formed header encodes to exactly `HEADER_LEN` bytes, so a header
/// written before the sizes are known can later be overwritten in place.
pub proof fn header_length_is_fixed(h: HeaderModel)
    requires
        h.wf(),
    ensures
        h.encoding().len() == HEADER_LEN,
{
}

/// Reading back what `write_to` wrote gives the same header, whatever
/// follows it.
pub proof fn header_roundtrip(h: HeaderModel, rest: Seq<u8>)
    requires
        h.wf(),
    ensures
        parse_header(h.encoding() + rest) == Ok::<HeaderModel, PackError>(h),
{
    let b = h.encoding() + rest;
    assert(b.take(MAGIC_LEN as int) =~= spec_magic());
    assert(b.subrange(10, 26) =~= h.salt);
    assert(b.subrange(26, 45) =~= h.nonce);
    assert(b.subrange(45, 53) =~= le_bytes(h.raw_size));
    assert(b.subrange(53, 61) =~= le_bytes(h.compressed_size));
    lemma_le_roundtrip(h.raw_size);
    lemma_le_roundtrip(h.compressed_size);
}

/// A header that parses is the encoding of what it parses to: no two byte
/// strings read as the same header.
pub proof fn header_parse_is_exact(b: Seq<u8>)
    ensures
        parse_header(b) matches Ok(h) ==> h.wf() && h.encoding() == b.take(HEADER_LEN as int),
{
    if let Ok(h) = parse_header(b) {
        lemma_le_bytes_roundtrip(b.subrange(45, 53));
        lemma_le_bytes_roundtrip(b.subrange(53, 61));
        assert(b.take(MAGIC_LEN as int) == spec_magic());
        assert(h.encoding() =~= b.take(HEADER_LEN as int));
    }
}


/// The place value of byte `k` of a little-endian number: `256` to the `k`.
pub open spec fn byte_weight(k: int) -> int {
    if k <= 0 {
        1
    } else if k == 1 {
        0x100
    } else if k == 2 {
        0x1_0000
    } else if k == 3 {
        0x100_0000
    } else if k == 4 {
        0x1_0000_0000
    } else if k == 5 {
        0x100_0000_0000
    } else if k == 6 {
        0x1_0000_0000_0000
    } else {
        0x100_0000_0000_0000
    }
}

proof fn lemma_le_bytes_digits(v: u64)
    ensures
        forall|k: int| 0 <= k < 8 ==> #[trigger] le_bytes(v)[k] == (v as int / byte_weight(k)) % 256,
{
    assert(v as u8 == v % 0x100 && (v >> 8u64) as u8 == (v / 0x100) % 0x100 && (v >> 16u64) as u8
        == (v / 0x1_0000) % 0x100 && (v >> 24u64) as u8 == (v / 0x100_0000) % 0x100 && (v
        >> 32u64) as u8 == (v / 0x1_0000_0000) % 0x100 && (v >> 40u64) as u8 == (v
        / 0x100_0000_0000) % 0x100 && (v >> 48u64) as u8 == (v / 0x1_0000_0000_0000) % 0x100 && (v
        >> 56u64) as u8 == (v / 0x100_0000_0000_0000) % 0x100) by (bit_vector);
}

/// Where each field sits in an encoded header, byte by byte: the magic tag
/// in bytes 0..8, the version in byte 8, the password mode in byte 9, the
/// salt in 10..26, the nonce in 26..45, then the raw and the compressed
/// size, each least significant byte first (byte `k` of a size `v` is
/// `v / 256^k mod 256`).
pub proof fn header_layout(h: HeaderModel)
    requires
        h.wf(),
    ensures
        h.encoding().len() == 61,
        h.encoding().take(8) == spec_magic(),
        h.encoding()[8] == VERSION,
        h.encoding()[9] == h.password_mode,
        h.encoding().subrange(10, 26) == h.salt,
        h.encoding().subrange(26, 45) == h.nonce,
        forall|k: int|
            0 <= k < 8 ==> #[trigger] h.encoding()[45 + k] == (h.raw_size as int / byte_weight(k)) % 256,
        forall|k: int|
            0 <= k < 8 ==> #[trigger] h.encoding()[53 + k] == (h.compressed_size as int / byte_weight(k))
                % 256,
{
    let e = h.encoding();
    lemma_le_bytes_digits(h.raw_size);
    lemma_le_bytes_digits(h.compressed_size);
    assert(e.take(8) =~= spec_magic());
    assert(e.subrange(10, 26) =~= h.salt);
    assert(e.subrange(26, 45) =~= h.nonce);
    assert forall|k: int| 0 <= k < 8 implies #[trigger] e[45 + k] == (h.raw_size as int / byte_weight(k))
        % 256 by {
        assert(e[45 + k] == le_bytes(h.raw_size)[k]);
    }
    assert forall|k: int| 0 <= k < 8 implies #[trigger] e[53 + k] == (h.compressed_size as int
        / byte_weight(k)) % 256 by {
        assert(e[53 + k] == le_bytes(h.compressed_size)[k]);
    }
}


/// Which inputs a header is read from: exactly those of at least
/// `HEADER_LEN` bytes that open with the magic tag and the supported
/// version. Otherwise the first problem met is reported: too few bytes for
/// the tag, a wrong tag, too few bytes for the version, an unknown version
/// (named), then too few bytes for the rest.
pub proof fn header_accepted_exactly_when(b: Seq<u8>)
    ensures
        parse_header(b) is Ok <==> b.len() >= HEADER_LEN && b.take(8) == spec_magic() && b[8]
            == VERSION,
        b.len() < 8 ==> parse_header(b) == Err::<HeaderModel, PackError>(PackError::TruncatedHeader),
        b.len() >= 8 && b.take(8) != spec_magic() ==> parse_header(b) == Err::<HeaderModel, PackError>(
            PackError::InvalidMagic,
        ),
        b.len() >= 9 && b.take(8) == spec_magic() && b[8] != VERSION ==> parse_header(b) == Err::<
            HeaderModel,
            PackError,
        >(PackError::UnsupportedVersion(b[8])),
        8 <= b.len() < HEADER_LEN && b.take(8) == spec_magic() && (b.len() == 8 || b[8] == VERSION)
            ==> parse_header(b) == Err::<HeaderModel, PackError>(PackError::TruncatedHeader),
{
}

} // verus!
