use pk2::blowfish::Blowfish;
use pk2::error::Error;
use pk2::raw::header::{checksum, PackHeader};

#[test]
fn known_block_of_the_zero_key() {
    // Key and block of eight zero bytes give the words 4EF99745 6198DD78,
    // stored here with the lowest byte first.
    let cipher = Blowfish::new(&[0u8; 8]).unwrap();
    let mut buf = vec![0u8; 8];
    cipher.encrypt(&mut buf);
    assert_eq!(buf, vec![0x45, 0x97, 0xf9, 0x4e, 0x78, 0xdd, 0x98, 0x61]);
    cipher.decrypt(&mut buf);
    assert_eq!(buf, vec![0u8; 8]);
}

#[test]
fn known_block_of_the_longest_key() {
    let key: Vec<u8> = (1..=56).collect();
    let cipher = Blowfish::new(&key).unwrap();
    let mut buf = b"ABCDEFGH".to_vec();
    cipher.encrypt(&mut buf);
    assert_eq!(buf, vec![0xc1, 0x21, 0x96, 0x9b, 0x0f, 0x68, 0x9f, 0xe6]);
}

#[test]
fn what_is_left_of_a_block_stays() {
    let cipher = Blowfish::new(b"abcd").unwrap();
    let plain: Vec<u8> = (0..20).collect();
    let mut buf = plain.clone();
    cipher.encrypt(&mut buf);
    assert_eq!(
        buf,
        vec![
            0x2b, 0x09, 0x41, 0x2c, 0xa3, 0xce, 0x5e, 0x83, 0x27, 0xb3, 0x23, 0x02, 0x26, 0xde,
            0x0d, 0xda, 0x10, 0x11, 0x12, 0x13
        ]
    );
    cipher.decrypt(&mut buf);
    assert_eq!(buf, plain);
}

#[test]
fn short_buffers_stay() {
    let cipher = Blowfish::new(b"abcd").unwrap();
    let mut buf = vec![1, 2, 3, 4, 5, 6, 7];
    cipher.encrypt(&mut buf);
    assert_eq!(buf, vec![1, 2, 3, 4, 5, 6, 7]);
    cipher.decrypt(&mut buf);
    assert_eq!(buf, vec![1, 2, 3, 4, 5, 6, 7]);
    let mut buf = Vec::new();
    cipher.encrypt(&mut buf);
    assert!(buf.is_empty());
}

#[test]
fn blocks_are_encrypted_one_by_one() {
    let cipher = Blowfish::new(b"secret").unwrap();
    let mut whole: Vec<u8> = (0..128).map(|i| (i * 7) as u8).collect();
    let mut first = whole[..64].to_vec();
    let mut second = whole[64..].to_vec();
    cipher.encrypt(&mut whole);
    cipher.encrypt(&mut first);
    cipher.encrypt(&mut second);
    first.extend_from_slice(&second);
    assert_eq!(whole, first);
}

#[test]
fn encrypting_undoes_decrypting() {
    let cipher = Blowfish::new(b"another key").unwrap();
    let plain: Vec<u8> = (0..64).map(|i| (255 - i) as u8).collect();
    let mut buf = plain.clone();
    cipher.decrypt(&mut buf);
    assert_ne!(buf, plain);
    cipher.encrypt(&mut buf);
    assert_eq!(buf, plain);
}

#[test]
fn keys_of_the_wrong_length_are_refused() {
    assert_eq!(Blowfish::new(b"").err(), Some(Error::InvalidKey));
    assert_eq!(Blowfish::new(b"abc").err(), Some(Error::InvalidKey));
    assert!(Blowfish::new(b"abcd").is_ok());
    assert!(Blowfish::new(&[7u8; 56]).is_ok());
    assert_eq!(Blowfish::new(&[7u8; 57]).err(), Some(Error::InvalidKey));
}

#[test]
fn a_key_taken_twice_is_the_same_key() {
    let once = Blowfish::new(b"abcd").unwrap();
    let twice = Blowfish::new(b"abcdabcd").unwrap();
    assert_eq!(checksum(&once), checksum(&twice));
}

#[test]
fn checksum_of_a_key() {
    let cipher = Blowfish::new(b"secret").unwrap();
    let sum = checksum(&cipher);
    assert_eq!(
        sum,
        vec![0x69, 0x39, 0xc1, 0x1a, 0x7f, 0xd4, 0xca, 0x4f, 0, 0, 0, 0, 0, 0, 0, 0]
    );
    let header = PackHeader::new_encrypted(&cipher);
    assert!(header.encrypted());
    assert_eq!(header.verify(&sum), Ok(()));
    let other = Blowfish::new(b"Secret").unwrap();
    assert_eq!(header.verify(&checksum(&other)), Err(Error::InvalidKey));
    let mut bytes = Vec::new();
    header.to_writer(&mut bytes);
    assert_eq!(bytes[32], 1);
    assert_eq!(&bytes[33..49], &sum[..]);
}
