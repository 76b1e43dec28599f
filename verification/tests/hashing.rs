use tungsten::hashing::{encode_image, hash_image, to_hex_lower};

#[test]
fn hex_is_lowercase_two_digits_per_byte() {
    assert_eq!(to_hex_lower(&[0x00, 0x0f, 0xab, 0xff]), "000fabff");
    assert_eq!(to_hex_lower(&[]), "");
}

#[test]
fn hash_of_empty_input() {
    assert_eq!(
        hash_image(&[]),
        "e3b0c44298fc1c149afbf4c8996fb92427ae41e4649b934ca495991b7852b855"
    );
}

#[test]
fn hash_of_abc() {
    let h = hash_image(b"abc");
    assert_eq!(h, "ba7816bf8f01cfea414140de5dae2223b00361a396177a9cb410ff61f20015ad");
    assert_eq!(h.len(), 64);
}

#[test]
fn different_images_have_different_hashes() {
    assert_ne!(hash_image(&[1, 2, 3]), hash_image(&[1, 2, 4]));
}

#[test]
fn encoded_image_is_png_with_its_hash() {
    let raw = vec![255u8, 0, 0, 255, 0, 255, 0, 255];
    let e = match encode_image(&raw, 2, 1) {
        Ok(e) => e,
        Err(m) => panic!("encoding failed: {}", m),
    };
    assert_eq!(&e.png[0..8], &[0x89, b'P', b'N', b'G', 0x0d, 0x0a, 0x1a, 0x0a]);
    assert_eq!(e.hash, hash_image(&e.png));
    assert_ne!(e.hash, hash_image(&raw));
}

#[test]
fn zero_sized_image_is_refused() {
    assert!(encode_image(&[], 0, 0).is_err());
}
