use rc5::cipher::expand_key;
use rc5::codec::{decode_words, encode_words, scrub, transform};
use rc5::error::Error;
use rc5::{decrypt, encrypt, Context};

#[test]
fn encode_words_writes_each_register_little_endian() {
    assert_eq!(encode_words::<u16>(&[0x1234, 0xABCD]), vec![0x34, 0x12, 0xCD, 0xAB]);
    assert_eq!(
        encode_words::<u32>(&[0x12345678, 1]),
        vec![0x78, 0x56, 0x34, 0x12, 1, 0, 0, 0]
    );
    assert_eq!(encode_words::<u64>(&[]), Vec::<u8>::new());
    assert_eq!(encode_words::<u128>(&[1]).len(), 16);
}

#[test]
fn decode_words_reads_each_register_little_endian() {
    assert_eq!(decode_words::<u16>(&[0x34, 0x12, 0xCD, 0xAB]), Ok(vec![0x1234, 0xABCD]));
    assert_eq!(
        decode_words::<u32>(&[0x78, 0x56, 0x34, 0x12, 1, 0, 0, 0]),
        Ok(vec![0x12345678, 1])
    );
    assert_eq!(decode_words::<u64>(&[]), Ok(vec![]));
}

#[test]
fn decode_words_rejects_a_partly_filled_register() {
    assert_eq!(decode_words::<u16>(&[1, 2, 3]), Err(Error::InvalidBytes));
    assert_eq!(decode_words::<u32>(&[1, 2, 3, 4, 5]), Err(Error::InvalidBytes));
    assert_eq!(decode_words::<u128>(&[0; 15]), Err(Error::InvalidBytes));
}

#[test]
fn decode_words_undoes_encode_words() {
    let words: Vec<u64> = vec![0, 1, u64::MAX, 0x0123456789ABCDEF];
    assert_eq!(decode_words::<u64>(&encode_words::<u64>(&words)), Ok(words));
    let words: Vec<u128> = vec![u128::MAX, 0, 7];
    assert_eq!(decode_words::<u128>(&encode_words::<u128>(&words)), Ok(words));
}

#[test]
fn scrub_leaves_zeros_of_the_same_number() {
    let mut words: Vec<u32> = vec![1, 2, 3, 0xFFFFFFFF];
    scrub(&mut words);
    assert_eq!(words, vec![0, 0, 0, 0]);
    let mut none: Vec<u64> = vec![];
    scrub(&mut none);
    assert!(none.is_empty());
}

#[test]
fn transform_encrypts_block_by_block() {
    let subkeys = expand_key::<u32>(&[9, 8, 7], 1).unwrap();
    let data: Vec<u8> = (0u8..24).collect();
    let expected = vec![
        29, 25, 144, 20, 22, 63, 81, 168, 167, 190, 243, 122, 161, 197, 151, 181, 21, 74, 152,
        221, 173, 2, 41, 22,
    ];
    assert_eq!(transform::<u32>(&subkeys, &data, true), Ok(expected.clone()));
    for block in 0..3 {
        let piece = &data[8 * block..8 * block + 8];
        assert_eq!(
            transform::<u32>(&subkeys, piece, true).unwrap(),
            expected[8 * block..8 * block + 8].to_vec()
        );
    }
}

#[test]
fn transform_decrypts_block_by_block() {
    let subkeys = expand_key::<u32>(&[9, 8, 7], 1).unwrap();
    let data: Vec<u8> = (0u8..24).collect();
    let expected = vec![
        165, 104, 187, 42, 13, 124, 153, 46, 135, 6, 254, 234, 132, 41, 40, 159, 251, 14, 2, 160,
        82, 162, 120, 8,
    ];
    assert_eq!(transform::<u32>(&subkeys, &data, false), Ok(expected));
}

#[test]
fn transform_rejects_a_partly_filled_block() {
    let subkeys = expand_key::<u32>(&[9, 8, 7], 1).unwrap();
    assert_eq!(transform::<u32>(&subkeys, &[0; 7], true), Err(Error::InvalidInputLength));
    assert_eq!(transform::<u32>(&subkeys, &[0; 9], false), Err(Error::InvalidInputLength));
    assert_eq!(transform::<u32>(&subkeys, &[0; 4], true), Err(Error::InvalidInputLength));
}

#[test]
fn context_encrypts_the_paper_vector() {
    let key = vec![
        0x2B, 0xD6, 0x45, 0x9F, 0x82, 0xC5, 0xB3, 0x00, 0x95, 0x2C, 0x49, 0x10, 0x48, 0x81, 0xFF,
        0x48,
    ];
    let context = Context::<u32>::new(key, 12).unwrap();
    let pt = vec![0xEA, 0x02, 0x47, 0x14, 0xAD, 0x5C, 0x4D, 0x84];
    let ct = vec![0x11, 0xE4, 0x3B, 0x86, 0xD2, 0x31, 0xEA, 0x64];
    assert_eq!(context.encrypt(&pt), Ok(ct.clone()));
    assert_eq!(context.decrypt(&ct), Ok(pt));
}

#[test]
fn context_holds_the_expanded_key_and_the_rounds() {
    let key: Vec<u8> = (1u8..=10).collect();
    let context = Context::<u32>::new(key.clone(), 1).unwrap();
    assert_eq!(context.rounds(), 1);
    assert_eq!(context.expanded_key(), vec![0xc6f8905d, 0xe20e5928, 0x6e53470d, 0xcb2f9733]);
    assert_eq!(context.expanded_key(), expand_key::<u32>(&key, 1).unwrap());
    let context = Context::<u128>::new(key.clone(), 7).unwrap();
    assert_eq!(context.rounds(), 7);
    assert_eq!(context.expanded_key(), expand_key::<u128>(&key, 7).unwrap());
}

#[test]
fn context_serves_many_calls() {
    let context = Context::<u64>::new(vec![1, 2, 3], 5).unwrap();
    let first = context.encrypt(&[0; 16]).unwrap();
    let other = context.encrypt(&[1; 32]).unwrap();
    assert_eq!(context.encrypt(&[0; 16]).unwrap(), first);
    assert_eq!(context.decrypt(&other), Ok(vec![1; 32]));
    assert_eq!(context.decrypt(&first), Ok(vec![0; 16]));
}

#[test]
fn context_agrees_with_the_one_shot_calls() {
    let key = vec![5u8, 4, 3, 2, 1];
    let data: Vec<u8> = (0u8..64).collect();
    let context = Context::<u16>::new(key.clone(), 9).unwrap();
    assert_eq!(context.encrypt(&data), encrypt::<u16>(&key, &data, 9));
    assert_eq!(context.decrypt(&data), decrypt::<u16>(&key, &data, 9));
}

#[test]
fn context_rejects_a_long_key_and_too_many_rounds() {
    assert!(matches!(Context::<u32>::new(vec![0; 257], 12), Err(Error::InvalidKeySize)));
    assert!(matches!(Context::<u32>::new(vec![0; 16], 257), Err(Error::InvalidRoundsCount)));
    assert!(matches!(Context::<u64>::new(vec![0; 257], 257), Err(Error::InvalidKeySize)));
    assert!(Context::<u128>::new(vec![0; 256], 256).is_ok());
}

#[test]
fn context_rejects_a_partly_filled_block() {
    let context = Context::<u32>::new(vec![1], 12).unwrap();
    assert_eq!(context.encrypt(&[0; 7]), Err(Error::InvalidInputLength));
    assert_eq!(context.decrypt(&[0; 12]), Err(Error::InvalidInputLength));
    let context = Context::<u128>::new(vec![1], 12).unwrap();
    assert_eq!(context.encrypt(&[0; 16]), Err(Error::InvalidInputLength));
    assert_eq!(context.encrypt(&[0; 32]).unwrap().len(), 32);
}

#[test]
fn empty_buffer_gives_an_empty_buffer() {
    assert_eq!(encrypt::<u32>(&[], &[], 12), Ok(vec![]));
    assert_eq!(decrypt::<u64>(&[1, 2], &[], 0), Ok(vec![]));
}
