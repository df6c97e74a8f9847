use minipacked::constants::{AUTH_TAG_LEN, CHUNK_SIZE};
use minipacked::crypto::cipher_from_password;
use minipacked::stream::{StreamDecryptReader, StreamEncryptWriter};
use minipacked::error::PackError;

const SALT: [u8; 16] = [7u8; 16];
const NONCE: [u8; 19] = [3u8; 19];

fn seal_all(password: &str, pieces: &[&[u8]]) -> (Vec<Vec<u8>>, u64) {
    let cipher = cipher_from_password(password, &SALT).unwrap();
    let mut writer = StreamEncryptWriter::new(cipher, NONCE.to_vec());
    let mut frames = Vec::new();
    for piece in pieces {
        let out = writer.write(piece).unwrap();
        assert_eq!(out.len() % (CHUNK_SIZE + AUTH_TAG_LEN), 0);
        for frame in out.chunks(CHUNK_SIZE + AUTH_TAG_LEN) {
            frames.push(frame.to_vec());
        }
    }
    let (last, n) = writer.finish().unwrap();
    frames.push(last);
    (frames, n)
}

fn open_all(password: &str, ciphertext: &[u8], n: u64) -> Result<Vec<u8>, PackError> {
    let cipher = cipher_from_password(password, &SALT).unwrap();
    let mut reader = StreamDecryptReader::new(cipher, NONCE.to_vec(), n);
    let mut pos = 0;
    let mut out = Vec::new();
    loop {
        if reader.needs_refill() {
            let len = reader.next_read_len();
            reader.refill(&ciphertext[pos..pos + len])?;
            pos += len;
            if reader.needs_refill() {
                break;
            }
        }
        out.extend(reader.take_buffered(1000));
    }
    assert_eq!(pos, ciphertext.len());
    Ok(out)
}

#[test]
fn stream_roundtrip_and_framing() {
    let data: Vec<u8> = (0..(2 * CHUNK_SIZE + 5)).map(|i| (i % 251) as u8).collect();
    let (frames, n) = seal_all("secret", &[&data[..10], &data[10..CHUNK_SIZE + 3], &data[CHUNK_SIZE + 3..]]);
    assert_eq!(n, data.len() as u64);
    let lens: Vec<usize> = frames.iter().map(|f| f.len()).collect();
    assert_eq!(lens, vec![CHUNK_SIZE + 16, CHUNK_SIZE + 16, 5 + 16]);
    let all: Vec<u8> = frames.concat();
    assert_eq!(open_all("secret", &all, n).unwrap(), data);
}

#[test]
fn stream_exact_multiple_and_empty() {
    let data = vec![1u8; CHUNK_SIZE * 2];
    let (frames, n) = seal_all("pw", &[&data]);
    let lens: Vec<usize> = frames.iter().map(|f| f.len()).collect();
    assert_eq!(lens, vec![CHUNK_SIZE + 16, CHUNK_SIZE + 16]);
    assert_eq!(open_all("pw", &frames.concat(), n).unwrap(), data);

    let (frames, n) = seal_all("pw", &[]);
    assert_eq!(n, 0);
    assert_eq!(frames.len(), 1);
    assert_eq!(frames[0].len(), AUTH_TAG_LEN);
    assert_eq!(open_all("pw", &frames.concat(), 0).unwrap(), Vec::<u8>::new());
}

#[test]
fn wrong_password_is_refused() {
    let data = b"hello world".to_vec();
    let (frames, n) = seal_all("right", &[&data]);
    assert_eq!(open_all("wrong", &frames.concat(), n), Err(PackError::Decryption));
}

#[test]
fn short_salt_is_refused() {
    assert!(matches!(cipher_from_password("pw", &[1, 2, 3]), Err(PackError::KeyDerivation)));
}

#[test]
fn tampered_frame_is_refused() {
    let data = vec![9u8; 100];
    let (frames, n) = seal_all("pw", &[&data]);
    let mut all = frames.concat();
    assert_ne!(&all[..100], &data[..]);
    all[3] ^= 1;
    assert_eq!(open_all("pw", &all, n), Err(PackError::Decryption));
}

#[test]
fn reordered_frames_are_refused() {
    let data: Vec<u8> = (0..(2 * CHUNK_SIZE + 1)).map(|i| (i % 7) as u8).collect();
    let (frames, n) = seal_all("pw", &[&data]);
    let swapped = [frames[1].clone(), frames[0].clone(), frames[2].clone()].concat();
    assert_eq!(open_all("pw", &swapped, n), Err(PackError::Decryption));
}

#[test]
fn keys_depend_on_password_and_salt() {
    let a = cipher_from_password("alpha", &SALT).unwrap();
    let b = cipher_from_password("alpha", &SALT).unwrap();
    let c = cipher_from_password("beta", &SALT).unwrap();
    let d = cipher_from_password("alpha", &[8u8; 16]).unwrap();
    assert_eq!(a.len(), 32);
    assert_eq!(a, b);
    assert_ne!(a, c);
    assert_ne!(a, d);
    assert_ne!(&a[..], "alpha".as_bytes());
}

#[test]
fn key_derivation_accepts_salts_of_eight_bytes_or_more() {
    assert!(cipher_from_password("pw", &[0u8; 7]).is_err());
    assert_eq!(cipher_from_password("pw", &[0u8; 8]).unwrap().len(), 32);
    assert_eq!(cipher_from_password("", &[0u8; 64]).unwrap().len(), 32);
}

#[test]
fn output_length_is_plaintext_plus_a_tag_per_chunk() {
    for n in [0usize, 1, CHUNK_SIZE, CHUNK_SIZE + 1, 3 * CHUNK_SIZE] {
        let data = vec![5u8; n];
        let (frames, count) = seal_all("pw", &[&data]);
        let chunks = if n == 0 { 1 } else { (n + CHUNK_SIZE - 1) / CHUNK_SIZE };
        assert_eq!(count, n as u64);
        assert_eq!(frames.concat().len(), n + AUTH_TAG_LEN * chunks);
    }
}
