use sio::aead::TAG_LEN;
use sio::{Aad, Close, DecWriter, EncWriter, Error, Key, Nonce, Sink, BUF_SIZE, CHACHA20_POLY1305};

type Aead = CHACHA20_POLY1305;

#[test]
fn enc_writer_missing_close_after_error() {
    let key: Key<Aead> = Key::new([0; Key::<Aead>::SIZE]);
    // A decrypting sink that failed on garbage fails every later write.
    let mut broken = DecWriter::new(
        Vec::new(),
        &key,
        Nonce::new([0; Nonce::<Aead>::SIZE]),
        Aad::empty(),
    );
    assert!(broken.write_all(&[0; BUF_SIZE + TAG_LEN + 1]).is_err());
    let mut writer = EncWriter::new(
        broken.closer(),
        &key,
        Nonce::new([0; Nonce::<Aead>::SIZE]),
        Aad::empty(),
    );
    let r = writer.write_all(&[0; BUF_SIZE + 1]);
    assert!(matches!(r, Err(Error::AfterError)));
    assert!(matches!(writer.write_all(b"more"), Err(Error::AfterError)));
}

#[test]
fn dec_writer_missing_close_after_error() {
    let key: Key<Aead> = Key::new([0; Key::<Aead>::SIZE]);
    let mut writer = DecWriter::new(
        Vec::new(),
        &key,
        Nonce::new([0; Nonce::<Aead>::SIZE]),
        Aad::empty(),
    );
    let r = writer.write_all(&[0; BUF_SIZE + TAG_LEN + 1]);
    assert!(matches!(r, Err(Error::NotAuthentic)));
}

#[test]
fn closer_completes_the_stream() {
    let key: Key<Aead> = Key::new([2; Key::<Aead>::SIZE]);
    let writer = EncWriter::with_buffer_size(Vec::new(), &key, Nonce::new([1; 8]), Aad::empty(), 10).unwrap();
    let mut closer = writer.closer();
    closer.write_all(b"Hello World").unwrap();
    closer.flush().unwrap();
    closer.close().unwrap();
    let ct = closer.into_inner().into_inner();
    assert_eq!(ct.len(), 11 + 2 * TAG_LEN);

    let writer = DecWriter::with_buffer_size(Vec::new(), &key, Nonce::new([1; 8]), Aad::empty(), 10).unwrap();
    let mut closer = writer.closer();
    closer.write_all(&ct).unwrap();
    closer.close().unwrap();
    assert_eq!(closer.into_inner().into_inner(), b"Hello World".to_vec());
}

#[test]
fn closer_latches_errors() {
    let key: Key<Aead> = Key::new([2; Key::<Aead>::SIZE]);
    let writer = DecWriter::with_buffer_size(Vec::new(), &key, Nonce::new([1; 8]), Aad::empty(), 10).unwrap();
    let mut closer = writer.closer();
    assert!(matches!(closer.write_all(&[0; 27]), Err(Error::NotAuthentic)));
    assert!(matches!(closer.write_all(&[0; 1]), Err(Error::AfterError)));
    assert!(matches!(closer.close(), Err(Error::AfterError)));
}

#[test]
fn closer_closes_once() {
    let key: Key<Aead> = Key::new([3; Key::<Aead>::SIZE]);
    let mut closer = EncWriter::new(Vec::new(), &key, Nonce::new([0; 8]), Aad::empty()).closer();
    closer.write_all(b"abc").unwrap();
    closer.close().unwrap();
    closer.close().unwrap();
    assert_eq!(closer.into_inner().into_inner().len(), 3 + TAG_LEN);
}
