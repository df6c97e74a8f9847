use vstd::prelude::*;

verus! {

/// Format version written into, and required from, every header.
pub const VERSION: u8 = 1;

/// Number of bytes of the magic tag that opens every container.
pub const MAGIC_LEN: usize = 8;

/// Length of the Argon2 salt stored in the header.
pub const SALT_LEN: usize = 16;

/// Length of the STREAM nonce (XChaCha20 nonce minus the STREAM overhead).
pub const STREAM_NONCE_LEN: usize = 19;

/// Length of the Poly1305 tag appended to every encrypted chunk.
pub const AUTH_TAG_LEN: usize = 16;

/// Plaintext bytes per encrypted chunk (the last chunk may be shorter).
pub const CHUNK_SIZE: usize = 65536;

/// Total length of an encoded header: magic, version, password mode, salt,
/// nonce and the two little-endian sizes.
pub const HEADER_LEN: usize = 61;

/// Argon2id memory cost, in KiB.
pub const ARGON_M_COST: u32 = 19456;

/// Argon2id iteration count.
pub const ARGON_T_COST: u32 = 2;

/// Argon2id degree of parallelism.
pub const ARGON_P_COST: u32 = 1;

/// Length of the derived XChaCha20-Poly1305 key.
pub const KEY_LEN: usize = 32;

/// Password mode stored when no password was entered (the built-in one is used).
pub const PASSWORD_MODE_DEFAULT: u8 = 0;

/// Password mode stored when the user chose a password.
pub const PASSWORD_MODE_PROMPTED: u8 = 1;

/// zstd level for `--fast`.
pub const ZSTD_LEVEL_FAST: i32 = 1;

/// zstd level when no compression flag is given.
pub const ZSTD_LEVEL_DEFAULT: i32 = 3;

/// zstd level for `--compact`.
pub const ZSTD_LEVEL_COMPACT: i32 = 19;

/// The magic tag `MINIPACK`.
pub open spec fn spec_magic() -> Seq<u8> {
    seq![0x4du8, 0x49u8, 0x4eu8, 0x49u8, 0x50u8, 0x41u8, 0x43u8, 0x4bu8]
}

/// The magic tag as bytes.
pub fn magic() -> (m: Vec<u8>)
    ensures
        m@ == spec_magic(),
{
    let m: Vec<u8> = vec![0x4du8, 0x49u8, 0x4eu8, 0x49u8, 0x50u8, 0x41u8, 0x43u8, 0x4bu8];
    assert(m@ =~= spec_magic());
    m
}

/// The password used when none was entered: `minipacked`.
pub open spec fn spec_default_password() -> Seq<char> {
    seq!['m', 'i', 'n', 'i', 'p', 'a', 'c', 'k', 'e', 'd']
}

/// The built-in password.
pub fn default_password() -> (p: String)
    ensures
        p@ == spec_default_password(),
{
    let p = String::from_str("minipacked");
    proof {
        reveal_strlit("minipacked");
        assert(p@ =~= spec_default_password());
    }
    p
}

/// The archive file extension `.minipacked`.
pub open spec fn spec_extension() -> Seq<char> {
    seq!['.', 'm', 'i', 'n', 'i', 'p', 'a', 'c', 'k', 'e', 'd']
}

} // verus!
