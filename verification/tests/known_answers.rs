use rc5::{decrypt, decrypt_default, encrypt, encrypt_default};

#[test]
fn encrypt_paper_vector() {
    let key = [
        0x2B, 0xD6, 0x45, 0x9F, 0x82, 0xC5, 0xB3, 0x00, 0x95, 0x2C, 0x49, 0x10, 0x48, 0x81, 0xFF,
        0x48,
    ];
    let pt = vec![0xEA, 0x02, 0x47, 0x14, 0xAD, 0x5C, 0x4D, 0x84];
    let ct = vec![0x11, 0xE4, 0x3B, 0x86, 0xD2, 0x31, 0xEA, 0x64];
    let res = encrypt::<u32>(&key, &pt, 12).unwrap();
    assert_eq!(ct, res);
}

#[test]
fn decrypt_paper_vector() {
    let key = [
        0x2B, 0xD6, 0x45, 0x9F, 0x82, 0xC5, 0xB3, 0x00, 0x95, 0x2C, 0x49, 0x10, 0x48, 0x81, 0xFF,
        0x48,
    ];
    let pt = vec![0xEA, 0x02, 0x47, 0x14, 0xAD, 0x5C, 0x4D, 0x84];
    let ct = vec![0x11, 0xE4, 0x3B, 0x86, 0xD2, 0x31, 0xEA, 0x64];
    let res = decrypt::<u32>(&key, &ct, 12).unwrap();
    assert_eq!(pt, res);
}

#[test]
fn encrypt_default_paper_vector() {
    let key = [
        0x00, 0x01, 0x02, 0x03, 0x04, 0x05, 0x06, 0x07, 0x08, 0x09, 0x0A, 0x0B, 0x0C, 0x0D, 0x0E,
        0x0F,
    ];
    let pt = vec![0x96, 0x95, 0x0D, 0xDA, 0x65, 0x4A, 0x3D, 0x62];
    let ct = vec![0x00, 0x11, 0x22, 0x33, 0x44, 0x55, 0x66, 0x77];
    assert_eq!(encrypt_default(key, &pt).unwrap(), ct);
}

#[test]
fn decrypt_default_paper_vector() {
    let key = [
        0x00, 0x01, 0x02, 0x03, 0x04, 0x05, 0x06, 0x07, 0x08, 0x09, 0x0A, 0x0B, 0x0C, 0x0D, 0x0E,
        0x0F,
    ];
    let pt = vec![0x96, 0x95, 0x0D, 0xDA, 0x65, 0x4A, 0x3D, 0x62];
    let ct = vec![0x00, 0x11, 0x22, 0x33, 0x44, 0x55, 0x66, 0x77];
    assert_eq!(decrypt_default(key, &ct).unwrap(), pt);
}

#[test]
fn zero_key_and_zero_block() {
    let ct = vec![0x21, 0xa5, 0xdb, 0xee, 0x15, 0x4b, 0x8f, 0x6d];
    assert_eq!(encrypt::<u32>(&[0; 16], &[0; 8], 12), Ok(ct.clone()));
    assert_eq!(encrypt_default([0; 16], &[0; 8]), Ok(ct.clone()));
    assert_eq!(decrypt_default([0; 16], &ct), Ok(vec![0; 8]));
}

#[test]
fn two_blocks_on_16_bit_registers() {
    let key: Vec<u8> = (1u8..=10).collect();
    let pt: Vec<u8> = (0x10u8..0x18).collect();
    let ct = vec![185, 123, 106, 44, 237, 206, 204, 80];
    assert_eq!(encrypt::<u16>(&key, &pt, 5), Ok(ct.clone()));
    assert_eq!(decrypt::<u16>(&key, &ct, 5), Ok(pt));
}

#[test]
fn two_blocks_on_32_bit_registers() {
    let key: Vec<u8> = (1u8..=10).collect();
    let pt: Vec<u8> = (0x10u8..0x20).collect();
    let ct = vec![113, 27, 113, 228, 235, 82, 228, 159, 151, 64, 219, 164, 186, 237, 5, 117];
    assert_eq!(encrypt::<u32>(&key, &pt, 5), Ok(ct.clone()));
    assert_eq!(decrypt::<u32>(&key, &ct, 5), Ok(pt));
}

#[test]
fn two_blocks_on_64_bit_registers() {
    let key: Vec<u8> = (1u8..=10).collect();
    let pt: Vec<u8> = (0x10u8..0x30).collect();
    let ct = vec![
        103, 127, 138, 31, 87, 34, 137, 24, 119, 128, 124, 179, 151, 43, 172, 233, 47, 161, 53,
        27, 182, 185, 99, 2, 82, 9, 9, 88, 247, 64, 58, 253,
    ];
    assert_eq!(encrypt::<u64>(&key, &pt, 5), Ok(ct.clone()));
    assert_eq!(decrypt::<u64>(&key, &ct, 5), Ok(pt));
}

#[test]
fn two_blocks_on_128_bit_registers() {
    let key: Vec<u8> = (1u8..=10).collect();
    let pt: Vec<u8> = (0x10u8..0x50).collect();
    let ct = vec![
        122, 102, 91, 56, 31, 106, 10, 161, 208, 229, 69, 253, 225, 140, 101, 106, 198, 141, 222,
        54, 161, 198, 11, 4, 158, 33, 251, 143, 235, 221, 124, 49, 107, 37, 191, 110, 182, 7,
        165, 8, 189, 228, 251, 94, 199, 219, 69, 240, 6, 236, 69, 182, 206, 82, 14, 24, 118, 236,
        115, 124, 128, 235, 191, 78,
    ];
    assert_eq!(encrypt::<u128>(&key, &pt, 5), Ok(ct.clone()));
    assert_eq!(decrypt::<u128>(&key, &ct, 5), Ok(pt));
}

#[test]
fn empty_key_on_every_width() {
    let pt: Vec<u8> = (0x10u8..0x30).collect();
    assert_eq!(encrypt::<u16>(&[], &pt[..4], 3), Ok(vec![252, 123, 127, 84]));
    assert_eq!(encrypt::<u32>(&[], &pt[..8], 3), Ok(vec![59, 202, 140, 123, 57, 92, 84, 204]));
    assert_eq!(
        encrypt::<u64>(&[], &pt[..16], 3),
        Ok(vec![56, 247, 118, 65, 74, 53, 108, 214, 44, 78, 23, 149, 165, 81, 151, 142])
    );
    assert_eq!(
        encrypt::<u128>(&[], &pt, 3),
        Ok(vec![
            23, 79, 78, 24, 1, 248, 192, 209, 149, 96, 24, 189, 218, 72, 138, 66, 156, 77, 59,
            211, 234, 7, 86, 91, 172, 233, 249, 63, 137, 252, 76, 183
        ])
    );
}

#[test]
fn no_rounds_at_all() {
    let key: Vec<u8> = (1u8..=10).collect();
    let pt: Vec<u8> = (0x10u8..0x30).collect();
    assert_eq!(encrypt::<u16>(&key, &pt[..4], 0), Ok(vec![68, 195, 62, 231]));
    assert_eq!(encrypt::<u32>(&key, &pt[..8], 0), Ok(vec![110, 26, 89, 95, 185, 96, 41, 187]));
    assert_eq!(
        encrypt::<u64>(&key, &pt[..16], 0),
        Ok(vec![253, 234, 108, 107, 28, 255, 69, 235, 29, 74, 17, 40, 194, 166, 242, 119])
    );
}

#[test]
fn longest_key_and_most_rounds_on_64_bit_registers() {
    let key: Vec<u8> = (0..256).map(|i| i as u8).collect();
    let pt: Vec<u8> = (0u8..32).collect();
    let ct = vec![
        210, 226, 119, 186, 55, 102, 149, 17, 38, 132, 215, 220, 27, 148, 186, 230, 200, 5, 222,
        97, 181, 121, 194, 16, 71, 81, 223, 196, 201, 172, 4, 123,
    ];
    assert_eq!(encrypt::<u64>(&key, &pt, 256), Ok(ct.clone()));
    assert_eq!(decrypt::<u64>(&key, &ct, 256), Ok(pt));
}
