use sio::aead::{Counter, TAG_LEN};
use sio::{
    Aad, Algorithm, DecWriter, EncWriter, Error, Exceeded, Invalid, Key, Nonce, NopCloser,
    NotAuthentic, Sink, AES_256_GCM, BUF_SIZE, CHACHA20_POLY1305, MAX_BUF_SIZE,
};

type Aead = CHACHA20_POLY1305;

fn encrypt<A: Algorithm>(key: [u8; 32], nonce: [u8; 8], aad: &[u8], size: usize, data: &[u8]) -> Vec<u8> {
    let key: Key<A> = Key::new(key);
    let mut w =
        EncWriter::with_buffer_size(Vec::new(), &key, Nonce::new(nonce), Aad::from(aad), size).unwrap();
    assert_eq!(w.write(data).unwrap(), data.len());
    w.close().unwrap()
}

fn decrypt<A: Algorithm>(
    key: [u8; 32],
    nonce: [u8; 8],
    aad: &[u8],
    size: usize,
    ct: &[u8],
) -> Result<Vec<u8>, Error> {
    let key: Key<A> = Key::new(key);
    let mut w =
        DecWriter::with_buffer_size(Vec::new(), &key, Nonce::new(nonce), Aad::from(aad), size).unwrap();
    w.write_all(ct)?;
    w.close()
}

fn pattern(len: usize) -> Vec<u8> {
    (0..len).map(|i| (i * 7 + 3) as u8).collect()
}

#[test]
fn empty_plaintext_default_size() {
    let ct = encrypt::<Aead>([0; 32], [0; 8], &[], 16384, &[]);
    assert_eq!(ct.len(), 16);
    assert_eq!(decrypt::<Aead>([0; 32], [0; 8], &[], 16384, &ct).unwrap(), Vec::<u8>::new());
}

#[test]
fn one_byte_plaintext() {
    let ct = encrypt::<Aead>([0; 32], [0; 8], &[], 100, &[0x61]);
    assert_eq!(ct.len(), 17);
    assert_eq!(decrypt::<Aead>([0; 32], [0; 8], &[], 100, &ct).unwrap(), vec![0x61]);
}

#[test]
fn exact_fragment_boundary() {
    let data = pattern(100);
    let ct = encrypt::<Aead>([0; 32], [0; 8], &[], 100, &data);
    assert_eq!(ct.len(), 132);
    assert_ne!(&ct[100..116], &ct[116..132]);
    assert_eq!(decrypt::<Aead>([0; 32], [0; 8], &[], 100, &ct).unwrap(), data);
}

#[test]
fn multi_fragment() {
    let data = pattern(2000);
    let ct = encrypt::<Aead>([0; 32], [0; 8], &[], 100, &data);
    assert_eq!(ct.len(), 2336);
    assert_eq!(decrypt::<Aead>([0; 32], [0; 8], &[], 100, &ct).unwrap(), data);
}

#[test]
fn tamper_first_and_last_byte() {
    let data = pattern(1 << 20);
    let ct = encrypt::<Aead>([0; 32], [0; 8], &[], 16384, &data);
    let mut first = ct.clone();
    first[0] ^= 1;
    let key: Key<Aead> = Key::new([0; 32]);
    let mut w = DecWriter::with_buffer_size(Vec::new(), &key, Nonce::new([0; 8]), Aad::empty(), 16384)
        .unwrap();
    assert!(matches!(w.write_all(&first), Err(Error::NotAuthentic)));
    assert!(matches!(w.close(), Err(Error::AfterError)));
    let mut last = ct.clone();
    let n = last.len();
    last[n - 1] ^= 0x80;
    assert!(matches!(decrypt::<Aead>([0; 32], [0; 8], &[], 16384, &last), Err(Error::NotAuthentic)));
}

#[test]
fn chained_encrypt_decrypt() {
    let data = pattern(5000);
    let key: Key<Aead> = Key::new([9; 32]);
    let inner = DecWriter::with_buffer_size(Vec::new(), &key, Nonce::new([3; 8]), Aad::from(&b"ad"[..]), 64)
        .unwrap()
        .closer();
    let mut outer =
        EncWriter::with_buffer_size(inner, &key, Nonce::new([3; 8]), Aad::from(&b"ad"[..]), 64).unwrap();
    for piece in data.chunks(77) {
        outer.write_all(piece).unwrap();
    }
    let collected = outer.close().unwrap().into_inner().into_inner();
    assert_eq!(collected, data);
}

#[test]
fn round_trip_every_split() {
    let data = pattern(300);
    let whole = encrypt::<Aead>([5; 32], [6; 8], b"x", 32, &data);
    for cut in [0usize, 1, 31, 32, 33, 64, 150, 299, 300] {
        let key: Key<Aead> = Key::new([5; 32]);
        let mut w =
            EncWriter::with_buffer_size(Vec::new(), &key, Nonce::new([6; 8]), Aad::from(&b"x"[..]), 32)
                .unwrap();
        w.write_all(&data[..cut]).unwrap();
        w.write_all(&[]).unwrap();
        w.write_all(&data[cut..]).unwrap();
        assert_eq!(w.close().unwrap(), whole);
    }
    for cut in [0usize, 1, 47, 48, 49, 200, whole.len()] {
        let key: Key<Aead> = Key::new([5; 32]);
        let mut w =
            DecWriter::with_buffer_size(Vec::new(), &key, Nonce::new([6; 8]), Aad::from(&b"x"[..]), 32)
                .unwrap();
        w.write_all(&whole[..cut]).unwrap();
        w.write_all(&whole[cut..]).unwrap();
        assert_eq!(w.close().unwrap(), data);
    }
}

#[test]
fn empty_write_then_close() {
    let key: Key<Aead> = Key::new([0; 32]);
    let mut w = EncWriter::new(Vec::new(), &key, Nonce::new([0; 8]), Aad::empty());
    assert_eq!(w.write(&[]).unwrap(), 0);
    let ct = w.close().unwrap();
    assert_eq!(ct, encrypt::<Aead>([0; 32], [0; 8], &[], BUF_SIZE, &[]));
    assert_eq!(ct.len(), TAG_LEN);
}

#[test]
fn ciphertext_length_formula() {
    for size in [1usize, 7, 16, 100] {
        for len in [0usize, 1, 6, 7, 8, 99, 100, 101, 250] {
            let ct = encrypt::<Aead>([1; 32], [2; 8], &[], size, &pattern(len));
            assert_eq!(ct.len(), len + TAG_LEN * (len / size + 1));
        }
    }
}

#[test]
fn every_bit_flip_is_detected() {
    let data = pattern(40);
    let ct = encrypt::<Aead>([4; 32], [4; 8], b"aad", 16, &data);
    for i in 0..ct.len() {
        for bit in 0..8 {
            let mut t = ct.clone();
            t[i] ^= 1 << bit;
            assert!(matches!(decrypt::<Aead>([4; 32], [4; 8], b"aad", 16, &t), Err(Error::NotAuthentic)));
        }
    }
}

#[test]
fn truncated_or_extended_stream_is_rejected() {
    let data = pattern(100);
    let ct = encrypt::<Aead>([4; 32], [4; 8], &[], 32, &data);
    assert!(decrypt::<Aead>([4; 32], [4; 8], &[], 32, &ct[..ct.len() - 48]).is_err());
    assert!(decrypt::<Aead>([4; 32], [4; 8], &[], 32, &ct[..48]).is_err());
    assert!(decrypt::<Aead>([4; 32], [4; 8], &[], 32, &[]).is_err());
    let mut longer = ct.clone();
    longer.push(0);
    assert!(decrypt::<Aead>([4; 32], [4; 8], &[], 32, &longer).is_err());
}

#[test]
fn wrong_parameters_are_rejected() {
    let data = pattern(500);
    let ct = encrypt::<Aead>([7; 32], [8; 8], b"context", 64, &data);
    assert_eq!(decrypt::<Aead>([7; 32], [8; 8], b"context", 64, &ct).unwrap(), data);
    let mut other_key = [7u8; 32];
    other_key[31] = 0;
    assert!(matches!(decrypt::<Aead>(other_key, [8; 8], b"context", 64, &ct), Err(Error::NotAuthentic)));
    assert!(matches!(decrypt::<Aead>([7; 32], [9; 8], b"context", 64, &ct), Err(Error::NotAuthentic)));
    assert!(matches!(decrypt::<Aead>([7; 32], [8; 8], b"Context", 64, &ct), Err(Error::NotAuthentic)));
    assert!(matches!(decrypt::<Aead>([7; 32], [8; 8], b"context", 65, &ct), Err(Error::NotAuthentic)));
    assert!(decrypt::<AES_256_GCM>([7; 32], [8; 8], b"context", 64, &ct).is_err());
}

#[test]
fn fragment_size_changes_ciphertext() {
    let data = pattern(1000);
    let a = encrypt::<Aead>([1; 32], [1; 8], &[], 100, &data);
    let b = encrypt::<Aead>([1; 32], [1; 8], &[], 200, &data);
    assert_ne!(a, b);
    assert_eq!(decrypt::<Aead>([1; 32], [1; 8], &[], 100, &a).unwrap(), data);
    assert_eq!(decrypt::<Aead>([1; 32], [1; 8], &[], 200, &b).unwrap(), data);
    assert!(decrypt::<Aead>([1; 32], [1; 8], &[], 200, &a).is_err());
    assert!(decrypt::<Aead>([1; 32], [1; 8], &[], 100, &b).is_err());
}

#[test]
fn errors_are_sticky() {
    let key: Key<Aead> = Key::new([0; 32]);
    let mut w = DecWriter::with_buffer_size(Vec::new(), &key, Nonce::new([0; 8]), Aad::empty(), 16).unwrap();
    assert!(matches!(w.write_all(&[0; 40]), Err(Error::NotAuthentic)));
    assert!(matches!(w.write_all(&[0; 1]), Err(Error::AfterError)));
    assert!(matches!(w.write(&[]), Err(Error::AfterError)));
    assert!(matches!(w.flush(), Err(Error::AfterError)));
    assert!(matches!(w.close(), Err(Error::AfterError)));
}

#[test]
fn flush_passes_nothing_on() {
    let key: Key<Aead> = Key::new([0; 32]);
    let mut w = EncWriter::with_buffer_size(Vec::new(), &key, Nonce::new([0; 8]), Aad::empty(), 16).unwrap();
    w.write_all(&[1; 20]).unwrap();
    w.flush().unwrap();
    let ct = w.close().unwrap();
    assert_eq!(ct, encrypt::<Aead>([0; 32], [0; 8], &[], 16, &[1; 20]));
}

#[test]
fn buffer_size_bounds() {
    let key: Key<Aead> = Key::new([0; 32]);
    let r = EncWriter::with_buffer_size(Vec::new(), &key, Nonce::new([0; 8]), Aad::empty(), 0);
    assert!(matches!(r, Err(Invalid::BufSize)));
    let r = EncWriter::with_buffer_size(Vec::new(), &key, Nonce::new([0; 8]), Aad::empty(), MAX_BUF_SIZE + 1);
    assert!(matches!(r, Err(Invalid::BufSize)));
    let r = DecWriter::with_buffer_size(Vec::new(), &key, Nonce::new([0; 8]), Aad::empty(), 0);
    assert!(matches!(r, Err(Invalid::BufSize)));
    let r = DecWriter::with_buffer_size(Vec::new(), &key, Nonce::new([0; 8]), Aad::empty(), MAX_BUF_SIZE + 1);
    assert!(matches!(r, Err(Invalid::BufSize)));
    let w = EncWriter::with_buffer_size(Vec::new(), &key, Nonce::new([0; 8]), Aad::empty(), MAX_BUF_SIZE).unwrap();
    assert_eq!(w.close().unwrap().len(), TAG_LEN);
    assert_eq!(MAX_BUF_SIZE, 16_777_215);
    assert_eq!(BUF_SIZE, 16_384);
}

#[test]
fn wire_format_matches_the_algorithm() {
    let key = [0x42u8; 32];
    let prefix = [1u8, 2, 3, 4, 5, 6, 7, 8];
    let aad = b"header";
    let data = pattern(150);
    let alg = Aead::new(&key);
    let nonce = |n: u32| {
        let mut v = [0u8; 12];
        v[..8].copy_from_slice(&prefix);
        v[8..].copy_from_slice(&n.to_le_bytes());
        v
    };
    let mut mac = Vec::new();
    alg.seal_in_place(&nonce(0), aad, &mut mac).unwrap();
    assert_eq!(mac.len(), TAG_LEN);
    let mut header = vec![0x00u8];
    header.extend_from_slice(&mac);
    let mut first = data[..100].to_vec();
    alg.seal_in_place(&nonce(1), &header, &mut first).unwrap();
    header[0] = 0x80;
    let mut second = data[100..].to_vec();
    alg.seal_in_place(&nonce(2), &header, &mut second).unwrap();
    let mut expected = first;
    expected.extend_from_slice(&second);
    assert_eq!(encrypt::<Aead>(key, prefix, aad, 100, &data), expected);
}

#[test]
fn chacha20_poly1305_known_answer() {
    let mut key = [0u8; 32];
    for (i, b) in key.iter_mut().enumerate() {
        *b = 0x80 + i as u8;
    }
    let nonce = [0x07, 0, 0, 0, 0x40, 0x41, 0x42, 0x43, 0x44, 0x45, 0x46, 0x47];
    let aad = [0x50, 0x51, 0x52, 0x53, 0xc0, 0xc1, 0xc2, 0xc3, 0xc4, 0xc5, 0xc6, 0xc7];
    let text = b"Ladies and Gentlemen of the class of '99: If I could offer you only one tip for the future, sunscreen would be it.";
    let alg = CHACHA20_POLY1305::new(&key);
    let mut buf = text.to_vec();
    alg.seal_in_place(&nonce, &aad, &mut buf).unwrap();
    assert_eq!(buf.len(), text.len() + TAG_LEN);
    assert_eq!(
        &buf[..16],
        &[0xd3, 0x1a, 0x8d, 0x34, 0x64, 0x8e, 0x60, 0xdb, 0x7b, 0x86, 0xaf, 0xbc, 0x53, 0xef, 0x7e, 0xc2]
    );
    assert_eq!(
        &buf[text.len()..],
        &[0x1a, 0xe1, 0x0b, 0x59, 0x4f, 0x09, 0xe2, 0x6a, 0x7e, 0x90, 0x2e, 0xcb, 0xd0, 0x60, 0x06, 0x91]
    );
    alg.open_in_place(&nonce, &aad, &mut buf).unwrap();
    assert_eq!(&buf[..], &text[..]);
}

#[test]
fn aes_256_gcm_known_answer() {
    let alg = AES_256_GCM::new(&[0; 32]);
    let mut empty = Vec::new();
    alg.seal_in_place(&[0; 12], &[], &mut empty).unwrap();
    assert_eq!(
        empty,
        vec![0x53, 0x0f, 0x8a, 0xfb, 0xc7, 0x45, 0x36, 0xb9, 0xa9, 0x63, 0xb4, 0xf1, 0xc4, 0xcb, 0x73, 0x8b]
    );
    let mut block = vec![0u8; 16];
    alg.seal_in_place(&[0; 12], &[], &mut block).unwrap();
    assert_eq!(
        &block[..16],
        &[0xce, 0xa7, 0x40, 0x3d, 0x4d, 0x60, 0x6b, 0x6e, 0x07, 0x4e, 0xc5, 0xd3, 0xba, 0xf3, 0x9d, 0x18]
    );
    assert_eq!(
        &block[16..],
        &[0xd0, 0xd1, 0xc8, 0xa7, 0x99, 0x99, 0x6b, 0xf0, 0x26, 0x5b, 0x98, 0xb5, 0xd4, 0x8a, 0xb9, 0x19]
    );
    let mut bad = block.clone();
    bad[3] ^= 4;
    assert!(matches!(alg.open_in_place(&[0; 12], &[], &mut bad), Err(NotAuthentic)));
    alg.open_in_place(&[0; 12], &[], &mut block).unwrap();
    assert_eq!(block, vec![0u8; 16]);
}

#[test]
fn aes_256_gcm_round_trip() {
    let data = pattern(3000);
    let ct = encrypt::<AES_256_GCM>([3; 32], [1; 8], b"aes", 256, &data);
    assert_eq!(ct.len(), 3000 + TAG_LEN * 12);
    assert_eq!(decrypt::<AES_256_GCM>([3; 32], [1; 8], b"aes", 256, &ct).unwrap(), data);
    assert_ne!(ct, encrypt::<Aead>([3; 32], [1; 8], b"aes", 256, &data));
}

#[test]
fn counter_nonces() {
    let mut c: Counter<Aead> = Counter::zero(Nonce::new([1, 2, 3, 4, 5, 6, 7, 8]));
    assert_eq!(c.next().unwrap(), [1, 2, 3, 4, 5, 6, 7, 8, 0, 0, 0, 0]);
    assert_eq!(c.next().unwrap(), [1, 2, 3, 4, 5, 6, 7, 8, 1, 0, 0, 0]);
    for _ in 0..254 {
        c.next().unwrap();
    }
    assert_eq!(c.next().unwrap(), [1, 2, 3, 4, 5, 6, 7, 8, 0, 1, 0, 0]);
}

#[test]
fn nop_closer_and_descriptions() {
    let key: Key<Aead> = Key::new([0; 32]);
    let mut w = EncWriter::with_buffer_size(NopCloser::wrap(Vec::new()), &key, Nonce::new([0; 8]), Aad::empty(), 10)
        .unwrap();
    w.write_all(b"Hello World").unwrap();
    let ct = w.close().unwrap().into_inner();
    assert_eq!(ct, encrypt::<Aead>([0; 32], [0; 8], &[], 10, b"Hello World"));
    assert_eq!(NotAuthentic::description(), "data is not authentic");
    assert_eq!(Exceeded::description(), "data limit exceeded");
    assert_eq!(Invalid::BufSize.description(), "sio::Invalid::BufSize");
    assert_eq!(Invalid::Key.description(), "sio::Invalid::Key");
    assert_eq!(Invalid::Nonce.description(), "sio::Invalid::Nonce");
    assert_eq!(Key::<Aead>::new([5; 32]).as_bytes(), &[5; 32]);
    assert_eq!(Aad::<Aead>::from(&b"q"[..]).as_bytes(), b"q");
}

#[test]
fn output_taken_while_streaming() {
    let data = pattern(1000);
    let key: Key<Aead> = Key::new([6; 32]);
    let mut w = EncWriter::with_buffer_size(Vec::new(), &key, Nonce::new([2; 8]), Aad::empty(), 64).unwrap();
    let mut streamed = Vec::new();
    for piece in data.chunks(100) {
        w.write_all(piece).unwrap();
        let out = w.take_output();
        assert_eq!(out.len() % (64 + TAG_LEN), 0);
        streamed.extend_from_slice(&out);
    }
    streamed.extend_from_slice(&w.close().unwrap());
    assert_eq!(streamed, encrypt::<Aead>([6; 32], [2; 8], &[], 64, &data));

    let mut d = DecWriter::with_buffer_size(Vec::new(), &key, Nonce::new([2; 8]), Aad::empty(), 64).unwrap();
    let mut plain = Vec::new();
    for piece in streamed.chunks(33) {
        d.write_all(piece).unwrap();
        plain.extend_from_slice(&d.take_output());
    }
    plain.extend_from_slice(&d.close().unwrap());
    assert_eq!(plain, data);
}

#[test]
fn short_stream_is_not_authentic() {
    for len in 0..16usize {
        assert!(matches!(decrypt::<Aead>([0; 32], [0; 8], &[], 16, &vec![0u8; len]), Err(Error::NotAuthentic)));
    }
}
