use aes::cipher::{block_padding::Pkcs7, BlockDecryptMut, KeyIvInit};
use moonshine_core::crypto::{encrypt_cbc, GcmCipher};

fn bytes(hex: &str) -> Vec<u8> {
    let mut out = Vec::new();
    let mut i = 0;
    while i < hex.len() {
        out.push(u8::from_str_radix(&hex[i..i + 2], 16).unwrap());
        i += 2;
    }
    out
}

#[test]
fn gcm_tag_of_an_empty_message() {
    let mut cipher = GcmCipher::new();
    let mut buffer = [0u8; 0];
    let tag = cipher.encrypt(&[0; 16], 0, &[0; 12], &mut buffer).unwrap();
    assert_eq!(tag.to_vec(), bytes("58e2fccefa7e3061367f1d57a4e7455a"));
}

#[test]
fn gcm_encrypts_a_zero_block() {
    let mut cipher = GcmCipher::new();
    let mut buffer = [0u8; 16];
    let tag = cipher.encrypt(&[0; 16], 0, &[0; 12], &mut buffer).unwrap();
    assert_eq!(buffer.to_vec(), bytes("0388dace60b6a392f328c2b971b2fe78"));
    assert_eq!(tag.to_vec(), bytes("ab6e47d42cec13bdf53a67b21257bddf"));
}

#[test]
fn gcm_encrypts_and_decrypts_four_blocks() {
    let key = bytes("feffe9928665731c6d6a8f9467308308");
    let iv = bytes("cafebabefacedbaddecaf888");
    let plaintext = bytes(
        "d9313225f88406e5a55909c5aff5269a86a7a9531534f7da2e4c303d8a318a721c3c0c95956809532fcf0e2449a6b525b16aedf5aa0de657ba637b391aafd255",
    );
    let ciphertext = bytes(
        "42831ec2217774244b7221b784d0d49ce3aa212f2c02a4e035c17e2329aca12e21d514b25466931c7d8f6a5aac84aa051ba30b396a0aac973d58e091473f5985",
    );
    let mut cipher = GcmCipher::new();
    let mut buffer = plaintext.clone();
    let tag = cipher.encrypt(&key, 7, &iv, &mut buffer).unwrap();
    assert_eq!(buffer, ciphertext);
    assert_eq!(tag.to_vec(), bytes("4d5c2af327cd64a62cf35abd2ba6fab4"));

    let mut peer = GcmCipher::new();
    assert_eq!(peer.decrypt(&key, 1, &iv, &tag, &mut buffer), Ok(()));
    assert_eq!(buffer, plaintext);
}

#[test]
fn same_cipher_decrypts_what_it_encrypted() {
    let mut cipher = GcmCipher::new();
    let mut buffer = *b"rumble the gamepad";
    let tag = cipher.encrypt(&[9; 16], -3, &[4; 12], &mut buffer).unwrap();
    assert_ne!(&buffer, b"rumble the gamepad");
    assert_eq!(cipher.decrypt(&[9; 16], -3, &[4; 12], &tag, &mut buffer), Ok(()));
    assert_eq!(&buffer, b"rumble the gamepad");
}

#[test]
fn accepted_messages_encrypt_to_themselves() {
    let mut cipher = GcmCipher::new();
    let mut sealed = *b"mouse button";
    let tag = cipher.encrypt(&[1; 16], 5, &[2; 12], &mut sealed).unwrap();
    let mut buffer = sealed;
    cipher.decrypt(&[1; 16], 5, &[2; 12], &tag, &mut buffer).unwrap();
    let again = cipher.encrypt(&[1; 16], 5, &[2; 12], &mut buffer).unwrap();
    assert_eq!(buffer, sealed);
    assert_eq!(again, tag);
}

#[test]
fn forged_messages_are_refused_and_left_alone() {
    let mut cipher = GcmCipher::new();
    let mut sealed = *b"key press";
    let mut tag = cipher.encrypt(&[1; 16], 0, &[2; 12], &mut sealed).unwrap();
    let good = sealed;

    tag[15] ^= 1;
    assert_eq!(cipher.decrypt(&[1; 16], 0, &[2; 12], &tag, &mut sealed), Err(()));
    assert_eq!(sealed, good);
    tag[15] ^= 1;

    sealed[0] ^= 0x80;
    let forged = sealed;
    assert_eq!(cipher.decrypt(&[1; 16], 0, &[2; 12], &tag, &mut sealed), Err(()));
    assert_eq!(sealed, forged);

    sealed = good;
    assert_eq!(cipher.decrypt(&[1; 16], 0, &[3; 12], &tag, &mut sealed), Err(()));
    assert_eq!(cipher.decrypt(&[1; 16], 0, &[2; 12], &tag, &mut sealed), Ok(()));
    assert_eq!(&sealed, b"key press");
}

#[test]
fn one_ciphertext_has_one_tag() {
    let mut cipher = GcmCipher::new();
    let mut sealed = *b"stick moved";
    let tag = cipher.encrypt(&[6; 16], 0, &[7; 12], &mut sealed).unwrap();
    for i in 0..16 {
        for bit in 0..8 {
            let mut other = tag;
            other[i] ^= 1 << bit;
            let mut buffer = sealed;
            assert_eq!(cipher.decrypt(&[6; 16], 0, &[7; 12], &other, &mut buffer), Err(()));
            assert_eq!(buffer, sealed);
        }
    }
    assert_eq!(cipher.decrypt(&[6; 16], 0, &[7; 12], &tag, &mut sealed), Ok(()));
    assert_eq!(&sealed, b"stick moved");
}

#[test]
fn cipher_is_held_for_the_last_id() {
    let mut cipher = GcmCipher::new();
    assert!(cipher.get(&[1; 15], 1).is_err());
    assert!(cipher.get(&[1; 16], 1).is_ok());
    assert!(cipher.get(&[], 1).is_ok());
    assert!(cipher.get(&[], 2).is_err());
    assert!(cipher.get(&[], 1).is_err());

    // The key of the second request is held now, not that of the first.
    assert!(cipher.get(&[0; 16], 1).is_ok());
    let mut buffer = [0u8; 16];
    cipher.encrypt(&[1; 16], 1, &[0; 12], &mut buffer).unwrap();
    assert_eq!(buffer.to_vec(), bytes("0388dace60b6a392f328c2b971b2fe78"));
}

#[test]
fn cache_does_not_show_where_ids_name_keys() {
    let mut cipher = GcmCipher::new();
    for id in [3i64, 3, 4, 3, 5, 5, 4, -1, 3] {
        let key = [id as u8; 16];
        let mut cached = *b"haptics";
        let mut fresh = cached;
        let tag = cipher.encrypt(&key, id, &[1; 12], &mut cached);
        assert_eq!(tag, GcmCipher::new().encrypt(&key, id, &[1; 12], &mut fresh));
        assert_eq!(cached, fresh);
        let tag = tag.unwrap();
        assert_eq!(cipher.decrypt(&key, id, &[1; 12], &tag, &mut cached), Ok(()));
        assert_eq!(GcmCipher::new().decrypt(&key, id, &[1; 12], &tag, &mut fresh), Ok(()));
        assert_eq!(cached, fresh);
    }
}

#[test]
fn cached_key_is_used_until_the_id_changes() {
    let mut cipher = GcmCipher::new();
    let mut first = [0u8; 16];
    cipher.encrypt(&[0; 16], 1, &[0; 12], &mut first).unwrap();

    // Same id: the cached key, not the bytes that came along.
    let mut second = [0u8; 16];
    cipher.encrypt(&[1; 16], 1, &[0; 12], &mut second).unwrap();
    assert_eq!(second, first);
    let mut third = [0u8; 16];
    cipher.encrypt(&[1; 3], 1, &[0; 12], &mut third).unwrap();
    assert_eq!(third, first);

    // New id: the new key.
    let mut fourth = [0u8; 16];
    cipher.encrypt(&[1; 16], 2, &[0; 12], &mut fourth).unwrap();
    assert_ne!(fourth, first);
    let mut fresh = [0u8; 16];
    GcmCipher::new().encrypt(&[1; 16], 9, &[0; 12], &mut fresh).unwrap();
    assert_eq!(fourth, fresh);
}

#[test]
fn smallest_key_id_is_served_like_any_other() {
    let mut cipher = GcmCipher::new();
    let mut buffer = [0u8; 16];
    cipher.encrypt(&[0; 16], i64::MIN, &[0; 12], &mut buffer).unwrap();
    assert_eq!(buffer.to_vec(), bytes("0388dace60b6a392f328c2b971b2fe78"));
}

#[test]
fn bad_key_is_refused_and_empties_the_cache() {
    let mut cipher = GcmCipher::new();
    let mut buffer = *b"data";
    assert_eq!(cipher.encrypt(&[0; 15], 1, &[0; 12], &mut buffer), Err(()));
    assert_eq!(&buffer, b"data");
    assert_eq!(cipher.decrypt(&[0; 17], 1, &[0; 12], &[0; 16], &mut buffer), Err(()));
    // A bad key is refused before nonce and tag are looked at.
    assert_eq!(cipher.decrypt(&[], 1, &[], &[], &mut buffer), Err(()));
    assert_eq!(&buffer, b"data");

    cipher.encrypt(&[5; 16], 1, &[0; 12], &mut buffer).unwrap();
    assert_eq!(cipher.encrypt(&[0; 15], 2, &[0; 12], &mut buffer), Err(()));
    // The key of id 1 is gone: the id alone no longer serves.
    assert_eq!(cipher.encrypt(&[0; 15], 1, &[0; 12], &mut buffer), Err(()));
    assert!(cipher.encrypt(&[5; 16], 1, &[0; 12], &mut buffer).is_ok());
}

#[test]
fn cbc_encrypts_known_blocks() {
    let key = bytes("2b7e151628aed2a6abf7158809cf4f3c");
    let iv = bytes("000102030405060708090a0b0c0d0e0f");
    let data = bytes("6bc1bee22e409f96e93d7e117393172aae2d8a571e03ac9c9eb76fac45af8e51");
    let out = encrypt_cbc(&data, &key, &iv).unwrap();
    assert_eq!(out.len(), 48);
    assert_eq!(
        out[..32].to_vec(),
        bytes("7649abac8119b246cee98e9b12e9197d5086cb9b507219ee95db113a917678b2")
    );
}

#[test]
fn cbc_pads_to_whole_blocks() {
    for len in 0..40usize {
        let data = vec![0xa5u8; len];
        let out = encrypt_cbc(&data, &[3; 16], &[8; 16]).unwrap();
        assert_eq!(out.len(), (len / 16 + 1) * 16);
        let mut buffer = out.clone();
        let plain = cbc::Decryptor::<aes::Aes128>::new(&[3; 16].into(), &[8; 16].into())
            .decrypt_padded_mut::<Pkcs7>(&mut buffer)
            .unwrap();
        assert_eq!(plain, &data[..]);
    }
}

#[test]
fn cbc_blocks_are_chained() {
    let data: Vec<u8> = (0..75u8).collect();
    for blocks in 1..=4usize {
        let n = blocks * 16;
        let alone = encrypt_cbc(&data[..n], &[3; 16], &[8; 16]).unwrap();
        for end in n..data.len() {
            let whole = encrypt_cbc(&data[..end], &[3; 16], &[8; 16]).unwrap();
            let rest = encrypt_cbc(&data[n..end], &[3; 16], &alone[n - 16..n]).unwrap();
            assert_eq!(whole[..n], alone[..n]);
            assert_eq!(whole[n..], rest[..]);
        }
    }
}

#[test]
fn cbc_padding_is_pkcs7() {
    // A whole block of padding is sixteen bytes of sixteen.
    let out = encrypt_cbc(&[], &[0; 16], &[0; 16]).unwrap();
    let padded = encrypt_cbc(&[16; 16], &[0; 16], &[0; 16]).unwrap();
    assert_eq!(out[..], padded[..16]);
    let out = encrypt_cbc(b"abc", &[0; 16], &[0; 16]).unwrap();
    let padded = encrypt_cbc(b"abc\x0d\x0d\x0d\x0d\x0d\x0d\x0d\x0d\x0d\x0d\x0d\x0d\x0d", &[0; 16], &[0; 16]).unwrap();
    assert_eq!(out[..], padded[..16]);
}

#[test]
fn cbc_keeps_different_data_apart() {
    let one = encrypt_cbc(&[1], &[0; 16], &[0; 16]).unwrap();
    let two = encrypt_cbc(&[1, 1], &[0; 16], &[0; 16]).unwrap();
    assert_ne!(one, two);
    let other_iv = encrypt_cbc(&[1], &[0; 16], &[1; 16]).unwrap();
    assert_ne!(one, other_iv);
    let other_key = encrypt_cbc(&[1], &[1; 16], &[0; 16]).unwrap();
    assert_ne!(one, other_key);
}
