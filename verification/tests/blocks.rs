use rc5::cipher::{decrypt_block, encrypt_block};

#[test]
fn whitening_alone_adds_the_first_two_subkeys() {
    assert_eq!(encrypt_block::<u32>(&[10, 20], [1, 2]), Ok([11, 22]));
    assert_eq!(decrypt_block::<u32>(&[10, 20], [11, 22]), Ok([1, 2]));
    assert_eq!(encrypt_block::<u32>(&[0, 0], [0, 0]), Ok([0, 0]));
    assert_eq!(encrypt_block::<u32>(&[1, 0xFFFFFFFF], [0xFFFFFFFF, 1]), Ok([0, 0]));
    assert_eq!(encrypt_block::<u16>(&[0xFFFF, 2], [5, 0xFFFE]), Ok([4, 0]));
}

#[test]
fn one_round_on_32_bit_registers() {
    assert_eq!(encrypt_block::<u32>(&[1, 2, 3, 4], [5, 6]), Ok([3587, 28764]));
    assert_eq!(decrypt_block::<u32>(&[1, 2, 3, 4], [5, 6]), Ok([4, 268435459]));
}

#[test]
fn one_round_on_16_bit_registers() {
    assert_eq!(encrypt_block::<u16>(&[0xFFFF, 2, 3, 0xFFF0], [5, 0xFFFE]), Ok([7, 880]));
    assert_eq!(decrypt_block::<u16>(&[0xFFFF, 2, 3, 0xFFF0], [7, 880]), Ok([5, 0xFFFE]));
}

#[test]
fn two_rounds_on_64_bit_registers() {
    assert_eq!(
        encrypt_block::<u64>(&[1, 2, 3, 4, 5, 6], [7, 8]),
        Ok([75821061, 2425751846])
    );
    assert_eq!(
        decrypt_block::<u64>(&[1, 2, 3, 4, 5, 6], [7, 8]),
        Ok([1011058116344676358, 434597364041252869])
    );
}

#[test]
fn two_rounds_on_128_bit_registers() {
    assert_eq!(
        encrypt_block::<u128>(&[1, 2, 3, 4, 5, 6], [7, 8]),
        Ok([1398651615430400040811626501, 44756851693772801305972574502])
    );
}

#[test]
fn a_subkey_left_over_serves_no_round() {
    assert_eq!(encrypt_block::<u32>(&[1, 2, 3, 4, 5], [5, 6]), Ok([3587, 28764]));
    assert_eq!(encrypt_block::<u32>(&[10, 20, 30], [1, 2]), Ok([11, 22]));
}

#[test]
fn decrypt_block_undoes_encrypt_block() {
    let keys: Vec<Vec<u32>> = vec![
        vec![0, 0],
        vec![1, 2, 3, 4],
        vec![0xFFFFFFFF; 8],
        (0..26).map(|i| 0x9E3779B9u32.wrapping_mul(i + 1)).collect(),
    ];
    let blocks = [[0u32, 0], [1, 2], [0xFFFFFFFF, 0xFFFFFFFF], [0xDEADBEEF, 0x01234567]];
    for key in &keys {
        for block in blocks {
            let sealed = encrypt_block::<u32>(key, block).unwrap();
            assert_eq!(decrypt_block::<u32>(key, sealed), Ok(block));
        }
    }
}

#[test]
fn decrypt_block_undoes_encrypt_block_on_every_width() {
    let key16: Vec<u16> = (0..10).map(|i| 0x9E37u16.wrapping_mul(i + 3)).collect();
    let sealed = encrypt_block::<u16>(&key16, [0xABCD, 0x1234]).unwrap();
    assert_eq!(decrypt_block::<u16>(&key16, sealed), Ok([0xABCD, 0x1234]));
    let key64: Vec<u64> = (0..10).map(|i| 0x9E3779B97F4A7C15u64.wrapping_mul(i + 3)).collect();
    let sealed = encrypt_block::<u64>(&key64, [u64::MAX, 1]).unwrap();
    assert_eq!(decrypt_block::<u64>(&key64, sealed), Ok([u64::MAX, 1]));
    let key128: Vec<u128> = (0..10).map(|i| u128::MAX / (i + 2)).collect();
    let sealed = encrypt_block::<u128>(&key128, [u128::MAX, 0]).unwrap();
    assert_eq!(decrypt_block::<u128>(&key128, sealed), Ok([u128::MAX, 0]));
}
