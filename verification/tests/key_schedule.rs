use rc5::cipher::{expand_key, initialize_subkeys, key_to_words};
use rc5::error::Error;
use rc5::expand_and_wipe;

#[test]
fn subkeys_of_the_default_preset() {
    let key: Vec<u8> = (0u8..16).collect();
    let expected: Vec<u32> = vec![
        0xd447e233, 0xd82eec20, 0x84fce219, 0xb93353de, 0x5ac2588f, 0x48e922f1, 0x879f5460,
        0x1a693a4b, 0x5171b55f, 0x9a206e4d, 0x9966c4a0, 0xb166b0d7, 0x89cc6827, 0xcbe1b9b7,
        0x1bb7f44f, 0x638829b4, 0x4da0ab3a, 0x74e54561, 0x5eb4dee9, 0xbef10188, 0x728a511f,
        0x37a8debc, 0x5735676a, 0xf96b764a, 0x7aec5407, 0x15e8e206,
    ];
    assert_eq!(expand_key::<u32>(&key, 12), Ok(expected));
}

#[test]
fn subkeys_on_16_bit_registers() {
    let key: Vec<u8> = (1u8..=10).collect();
    assert_eq!(expand_key::<u16>(&key, 1), Ok(vec![0xbc19, 0xfc03, 0x254d, 0x1752]));
    assert_eq!(
        expand_key::<u16>(&[7], 2),
        Ok(vec![0xfb83, 0xb8e3, 0xb138, 0x5887, 0x91cb, 0xe73b])
    );
}

#[test]
fn subkeys_on_32_bit_registers() {
    let key: Vec<u8> = (1u8..=10).collect();
    assert_eq!(
        expand_key::<u32>(&key, 1),
        Ok(vec![0xc6f8905d, 0xe20e5928, 0x6e53470d, 0xcb2f9733])
    );
}

#[test]
fn subkeys_on_64_bit_registers() {
    let key: Vec<u8> = (1u8..=10).collect();
    assert_eq!(
        expand_key::<u64>(&key, 1),
        Ok(vec![
            0x439c89a6c0bada2c,
            0x97ffc5392dab8607,
            0x2dde80a1fdf98601,
            0xc9fc8612c5031d78
        ])
    );
}

#[test]
fn subkeys_on_128_bit_registers() {
    let key: Vec<u8> = (1u8..=10).collect();
    assert_eq!(
        expand_key::<u128>(&key, 1),
        Ok(vec![
            0x30eb7176837eb434d9007ea9ad1c17fb,
            0xb2be69678242e9fce7f8f94327e0bc2b,
            0x240aea67db4da72f2aab32dc034a1a1a,
            0xdd808bc19d9ed592848ff680a25db2ce
        ])
    );
}

#[test]
fn empty_key_expands_on_every_width() {
    assert_eq!(expand_key::<u16>(&[], 1), Ok(vec![0xac1b, 0x563c, 0x816d, 0xd4b8]));
    assert_eq!(
        expand_key::<u32>(&[], 1),
        Ok(vec![0xd1ce682a, 0x71b3f2bb, 0x1727b96c, 0x3329bb3a])
    );
    assert_eq!(
        expand_key::<u64>(&[], 1),
        Ok(vec![
            0x9fcda5c4f47e7b57,
            0xd71589d886bc41bb,
            0x1670fd071e46c8bf,
            0xea851fa4d3d2a40f
        ])
    );
    assert_eq!(
        expand_key::<u128>(&[], 1),
        Ok(vec![
            0x360742feb9ef16e4b33e41d20c4e8e80,
            0x6f23dea997ebe4a6898faa72ac2e84b0,
            0xa6a1bc0ff123c4898dbbc183dc6b0a00,
            0x835c2a936f841667e606c85f7b59030a
        ])
    );
}

#[test]
fn empty_key_expands_the_same_every_time() {
    assert_eq!(expand_key::<u32>(&[], 12), expand_key::<u32>(&[], 12));
    assert_eq!(expand_key::<u128>(&[], 3), expand_key::<u128>(&[], 3));
}

#[test]
fn a_partly_filled_last_register_is_padded_with_zeros() {
    assert_eq!(expand_key::<u32>(&[1, 2, 3, 4, 5], 0), Ok(vec![0x061cf349, 0x0515a29a]));
    assert_eq!(
        expand_key::<u32>(&[1, 2, 3, 4, 5, 0, 0, 0], 0),
        Ok(vec![0x061cf349, 0x0515a29a])
    );
    assert_eq!(expand_key::<u32>(&[1, 2, 3, 4], 0), Ok(vec![0x72d10ce6, 0x6e8b2b67]));
}

#[test]
fn subkey_count_is_twice_rounds_plus_one() {
    for rounds in [0usize, 1, 2, 11, 12, 13, 100, 255, 256] {
        assert_eq!(expand_key::<u16>(&[1, 2, 3], rounds).unwrap().len(), 2 * (rounds + 1));
        assert_eq!(expand_key::<u32>(&[1, 2, 3], rounds).unwrap().len(), 2 * (rounds + 1));
        assert_eq!(expand_key::<u64>(&[], rounds).unwrap().len(), 2 * (rounds + 1));
        assert_eq!(expand_key::<u128>(&[0; 256], rounds).unwrap().len(), 2 * (rounds + 1));
    }
}

#[test]
fn longest_key_and_most_rounds() {
    let subkeys = expand_key::<u32>(&[0; 256], 256).unwrap();
    assert_eq!(subkeys.len(), 514);
    assert_eq!(subkeys[513], 0x6a8e23f4);
    let key: Vec<u8> = (0..256).map(|i| i as u8).collect();
    let subkeys = expand_key::<u128>(&key, 256).unwrap();
    assert_eq!(subkeys[0], 0xc28cf9a6bc19819d4134f3eaebb9e456);
}

#[test]
fn key_longer_than_256_bytes_is_rejected() {
    assert_eq!(expand_key::<u32>(&[0; 257], 12), Err(Error::InvalidKeySize));
    assert_eq!(expand_key::<u16>(&[0; 1000], 0), Err(Error::InvalidKeySize));
    assert_eq!(expand_key::<u128>(&[1; 257], 256), Err(Error::InvalidKeySize));
}

#[test]
fn more_than_256_rounds_are_rejected() {
    assert_eq!(expand_key::<u32>(&[0; 16], 257), Err(Error::InvalidRoundsCount));
    assert_eq!(expand_key::<u64>(&[], usize::MAX), Err(Error::InvalidRoundsCount));
    assert_eq!(expand_key::<u16>(&[0; 256], 257), Err(Error::InvalidRoundsCount));
}

#[test]
fn key_size_is_tested_before_rounds() {
    assert_eq!(expand_key::<u32>(&[0; 257], 257), Err(Error::InvalidKeySize));
}

#[test]
fn expand_and_wipe_expands_and_leaves_the_key_empty() {
    let mut key: Vec<u8> = (1u8..=10).collect();
    let subkeys = expand_and_wipe::<u32>(&mut key, 1);
    assert_eq!(subkeys, Ok(vec![0xc6f8905d, 0xe20e5928, 0x6e53470d, 0xcb2f9733]));
    assert!(key.is_empty());
}

#[test]
fn expand_and_wipe_wipes_a_rejected_key_too() {
    let mut key = vec![0xAAu8; 300];
    assert_eq!(expand_and_wipe::<u32>(&mut key, 12), Err(Error::InvalidKeySize));
    assert!(key.is_empty());
    let mut key = vec![0xAAu8; 16];
    assert_eq!(expand_and_wipe::<u64>(&mut key, 300), Err(Error::InvalidRoundsCount));
    assert!(key.is_empty());
}

#[test]
fn subkey_table_is_seeded_with_p_plus_multiples_of_q() {
    assert_eq!(initialize_subkeys::<u16>(1), vec![0xb7e1, 0x5618, 0xf44f, 0x9286]);
    assert_eq!(
        initialize_subkeys::<u32>(1),
        vec![0xb7e15163, 0x5618cb1c, 0xf45044d5, 0x9287be8e]
    );
    assert_eq!(
        initialize_subkeys::<u64>(1),
        vec![0xb7e151628aed2a6b, 0x5618cb1c0a37a680, 0xf45044d589822295, 0x9287be8f08cc9eaa]
    );
    assert_eq!(
        initialize_subkeys::<u128>(1),
        vec![
            0xb7e151628aed2a6abf7158809cf4f3c7,
            0x5618cb1c0a37a680b30e18e0f9e2bbfc,
            0xf45044d589822296a6aad94156d08431,
            0x9287be8f08cc9eac9a4799a1b3be4c66
        ]
    );
}

#[test]
fn subkey_table_has_two_entries_for_whitening_and_two_a_round() {
    assert_eq!(initialize_subkeys::<u32>(0), vec![0xb7e15163, 0x5618cb1c]);
    assert_eq!(initialize_subkeys::<u32>(12).len(), 26);
    let table = initialize_subkeys::<u32>(256);
    assert_eq!(table.len(), 514);
    assert_eq!(table[513], 0xc50c3d1c);
}

#[test]
fn key_bytes_are_packed_least_significant_first() {
    assert_eq!(key_to_words::<u32>(&[1, 2, 3, 4, 5]), vec![0x04030201, 0x05]);
    assert_eq!(key_to_words::<u16>(&[1, 2, 3, 4, 5]), vec![0x0201, 0x0403, 0x05]);
    assert_eq!(key_to_words::<u64>(&[1, 2, 3, 4, 5]), vec![0x0504030201]);
    let key: Vec<u8> = (1u8..=17).collect();
    assert_eq!(
        key_to_words::<u128>(&key),
        vec![0x100f0e0d0c0b0a090807060504030201, 0x11]
    );
    assert_eq!(key_to_words::<u32>(&[0xAA; 8]), vec![0xAAAAAAAA, 0xAAAAAAAA]);
}

#[test]
fn empty_key_is_packed_into_one_zero_register() {
    assert_eq!(key_to_words::<u16>(&[]), vec![0]);
    assert_eq!(key_to_words::<u32>(&[]), vec![0]);
    assert_eq!(key_to_words::<u64>(&[]), vec![0]);
    assert_eq!(key_to_words::<u128>(&[]), vec![0]);
}

#[test]
fn key_register_count_is_the_length_over_the_width_rounded_up() {
    for len in 1usize..=40 {
        let key = vec![1u8; len];
        assert_eq!(key_to_words::<u16>(&key).len(), (len + 1) / 2);
        assert_eq!(key_to_words::<u32>(&key).len(), (len + 3) / 4);
        assert_eq!(key_to_words::<u64>(&key).len(), (len + 7) / 8);
        assert_eq!(key_to_words::<u128>(&key).len(), (len + 15) / 16);
    }
}
