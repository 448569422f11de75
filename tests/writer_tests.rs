use sio::aead::TAG_LEN;
use sio::{Aad, DecWriter, EncWriter, Key, Nonce, Sink, CHACHA20_POLY1305};

type Aead = CHACHA20_POLY1305;

#[test]
fn write() {
    let key: Key<Aead> = Key::new([0; Key::<Aead>::SIZE]);

    let data = vec![0u8; 1 << 20];

    let mut writer = EncWriter::new(
        Vec::new(),
        &key,
        Nonce::new([0; Nonce::<Aead>::SIZE]),
        Aad::empty(),
    );
    let half = data.len() / 2;
    writer.write_all(&data[..half]).unwrap();
    writer.write_all(&data[half..]).unwrap();
    let ciphertext = writer.close().unwrap();

    let mut writer = DecWriter::new(
        Vec::new(),
        &key,
        Nonce::new([0; Nonce::<Aead>::SIZE]),
        Aad::empty(),
    );
    let half = ciphertext.len() / 2;
    writer.write_all(&ciphertext[..half]).unwrap();
    writer.write_all(&ciphertext[half..]).unwrap();
    let plaintext = writer.close().unwrap();

    assert_eq!(data, plaintext);
}

#[test]
fn write_empty() {
    let key: Key<Aead> = Key::new([0; Key::<Aead>::SIZE]);

    let data: Vec<u8> = Vec::new();

    let ciphertext = EncWriter::new(
        Vec::with_capacity(TAG_LEN),
        &key,
        Nonce::new([0; Nonce::<Aead>::SIZE]),
        Aad::empty(),
    )
    .close()
    .expect("The encryption failed");

    assert_eq!(ciphertext.len(), TAG_LEN);
    let mut writer = DecWriter::new(
        Vec::new(),
        &key,
        Nonce::new([0; Nonce::<Aead>::SIZE]),
        Aad::empty(),
    );
    writer.write_all(ciphertext.as_slice()).unwrap();
    let plaintext = writer.close().unwrap();

    assert_eq!(data, plaintext);
}

#[test]
fn close() {
    let key: Key<Aead> = Key::new([0; Key::<Aead>::SIZE]);

    let data = vec![0u8; 1 << 20];

    let decrypting = DecWriter::new(
        Vec::with_capacity(data.len()),
        &key,
        Nonce::new([0; Nonce::<Aead>::SIZE]),
        Aad::empty(),
    )
    .closer();
    let mut writer = EncWriter::new(
        decrypting,
        &key,
        Nonce::new([0; Nonce::<Aead>::SIZE]),
        Aad::empty(),
    );
    writer.write_all(&data).unwrap();
    let closer = writer.close().unwrap();
    let plaintext = closer.into_inner().into_inner();

    assert_eq!(data, plaintext);
}
