use ht_store::cipher::{
    decrypt, encrypt, encrypt_with_nonce, get_iv, get_valid_key, open_parts, split_iv_data_mac,
    wire_from_parts, DecodeError,
};

fn flip_hex(c: char) -> char {
    if c == '0' {
        '1'
    } else {
        '0'
    }
}

fn with_flipped(wire: &str, at: usize) -> String {
    let mut out = String::new();
    for (i, c) in wire.chars().enumerate() {
        if i == at {
            out.push(flip_hex(c));
        } else {
            out.push(c);
        }
    }
    out
}

#[test]
fn short_secret_is_padded_with_zero_bytes() {
    let key = get_valid_key("ab");
    let mut want = vec![0u8; 16];
    want[0] = b'a';
    want[1] = b'b';
    assert_eq!(key, want);
}

#[test]
fn long_secret_is_cut_after_sixteen_bytes() {
    let secret = "a".repeat(20);
    assert_eq!(get_valid_key(&secret), vec![b'a'; 16]);
    assert_eq!(get_valid_key("0123456789abcdefXYZ"), b"0123456789abcdef".to_vec());
}

#[test]
fn secret_of_sixteen_bytes_is_the_key() {
    assert_eq!(get_valid_key("0123456789abcdef"), b"0123456789abcdef".to_vec());
}

#[test]
fn empty_secret_gives_zero_key() {
    assert_eq!(get_valid_key(""), vec![0u8; 16]);
}

#[test]
fn secret_is_sized_by_bytes_not_characters() {
    // Eight two-byte characters fill the key exactly.
    let secret = "é".repeat(9);
    let key = get_valid_key(&secret);
    assert_eq!(key.len(), 16);
    assert_eq!(key, secret.as_bytes()[0..16].to_vec());
}

#[test]
fn nonce_has_the_length_asked_for() {
    assert_eq!(get_iv(12).len(), 12);
    assert_eq!(get_iv(0).len(), 0);
    assert_eq!(get_iv(33).len(), 33);
}

#[test]
fn wire_is_three_hex_parts_joined_by_slashes() {
    let wire = wire_from_parts(&[0x00, 0xab, 0xff], &[0x10, 0x01], &[0x9f]);
    assert_eq!(wire, "00abff/1001/9f");
    assert_eq!(wire_from_parts(&[], &[], &[]), "//");
}

#[test]
fn split_reads_the_three_parts() {
    let parts = split_iv_data_mac("00abff/1001/9f");
    assert_eq!(parts, Ok((vec![0x00, 0xab, 0xff], vec![0x10, 0x01], vec![0x9f])));
}

#[test]
fn split_accepts_both_cases_and_empty_parts() {
    assert_eq!(split_iv_data_mac("AbCd/EF/0a"), Ok((vec![0xab, 0xcd], vec![0xef], vec![0x0a])));
    assert_eq!(split_iv_data_mac("//"), Ok((vec![], vec![], vec![])));
    assert_eq!(split_iv_data_mac("/00/"), Ok((vec![], vec![0x00], vec![])));
}

#[test]
fn split_refuses_other_part_counts() {
    assert_eq!(split_iv_data_mac(""), Err(DecodeError::MalformedWire));
    assert_eq!(split_iv_data_mac("00"), Err(DecodeError::MalformedWire));
    assert_eq!(split_iv_data_mac("00/11"), Err(DecodeError::MalformedWire));
    assert_eq!(split_iv_data_mac("00/11/22/33"), Err(DecodeError::MalformedWire));
    assert_eq!(split_iv_data_mac("00/11/22/"), Err(DecodeError::MalformedWire));
}

#[test]
fn split_refuses_what_is_not_hex() {
    assert_eq!(split_iv_data_mac("0g/11/22"), Err(DecodeError::MalformedWire));
    assert_eq!(split_iv_data_mac("00/1/22"), Err(DecodeError::MalformedWire));
    assert_eq!(split_iv_data_mac("00/11/2 2"), Err(DecodeError::MalformedWire));
    assert_eq!(split_iv_data_mac("00/11/é"), Err(DecodeError::MalformedWire));
}

#[test]
fn sealing_matches_known_answers() {
    let nonce = [0u8; 12];
    // An empty secret gives the all-zero key.
    assert_eq!(
        encrypt_with_nonce(&[], "", &nonce),
        "000000000000000000000000//58e2fccefa7e3061367f1d57a4e7455a"
    );
    assert_eq!(
        encrypt_with_nonce(&[0u8; 16], "", &nonce),
        "000000000000000000000000/0388dace60b6a392f328c2b971b2fe78/ab6e47d42cec13bdf53a67b21257bddf"
    );
}

#[test]
fn opening_matches_known_answers() {
    let wire = "000000000000000000000000/0388dace60b6a392f328c2b971b2fe78/ab6e47d42cec13bdf53a67b21257bddf";
    assert_eq!(decrypt(wire, ""), Ok(vec![0u8; 16]));
    assert_eq!(
        decrypt("000000000000000000000000//58e2fccefa7e3061367f1d57a4e7455a", ""),
        Ok(vec![])
    );
}

#[test]
fn encrypt_then_decrypt_gives_the_payload() {
    let payloads: Vec<Vec<u8>> = vec![
        vec![],
        vec![0],
        b"hello world".to_vec(),
        (0..=255u8).collect(),
        vec![0x2f; 100],
    ];
    for secret in ["", "ab", "0123456789abcdef", "a secret longer than sixteen bytes"] {
        for payload in &payloads {
            let wire = encrypt(payload, secret);
            assert_eq!(decrypt(&wire, secret), Ok(payload.clone()));
        }
    }
}

#[test]
fn encrypt_with_nonce_then_decrypt_gives_the_payload() {
    let nonce: Vec<u8> = (1..=12u8).collect();
    let wire = encrypt_with_nonce(b"payload", "pw", &nonce);
    assert!(wire.starts_with("0102030405060708090a0b0c/"));
    assert_eq!(decrypt(&wire, "pw"), Ok(b"payload".to_vec()));
}

#[test]
fn wire_has_the_expected_shape() {
    let wire = encrypt(b"abc", "pw");
    let parts: Vec<&str> = wire.split('/').collect();
    assert_eq!(parts.len(), 3);
    assert_eq!(parts[0].len(), 24);
    assert_eq!(parts[1].len(), 6);
    assert_eq!(parts[2].len(), 32);
    assert_ne!(parts[1], "616263");
}

#[test]
fn each_encrypt_draws_a_new_nonce() {
    let a = encrypt(b"abc", "pw");
    let b = encrypt(b"abc", "pw");
    assert_ne!(a, b);
}

#[test]
fn flipped_tag_character_fails_authentication() {
    let wire = encrypt(b"some payload", "pw");
    let tag_start = wire.rfind('/').unwrap() + 1;
    for at in tag_start..wire.len() {
        let tampered = with_flipped(&wire, at);
        assert_eq!(decrypt(&tampered, "pw"), Err(DecodeError::AuthenticationFailed));
    }
}

#[test]
fn flipped_ciphertext_character_fails_authentication() {
    let wire = encrypt(b"some payload", "pw");
    let data_start = wire.find('/').unwrap() + 1;
    let data_end = wire.rfind('/').unwrap();
    for at in data_start..data_end {
        let tampered = with_flipped(&wire, at);
        assert_eq!(decrypt(&tampered, "pw"), Err(DecodeError::AuthenticationFailed));
    }
}

#[test]
fn wrong_secret_fails_authentication() {
    let wire = encrypt(b"some payload", "right");
    assert_eq!(decrypt(&wire, "wrong"), Err(DecodeError::AuthenticationFailed));
}

#[test]
fn secrets_with_the_same_first_sixteen_bytes_open_each_other() {
    let wire = encrypt(b"some payload", "0123456789abcdef-one");
    assert_eq!(decrypt(&wire, "0123456789abcdef-two"), Ok(b"some payload".to_vec()));
}

#[test]
fn malformed_wire_is_refused() {
    assert_eq!(decrypt("", "pw"), Err(DecodeError::MalformedWire));
    assert_eq!(decrypt("not a wire string", "pw"), Err(DecodeError::MalformedWire));
    assert_eq!(decrypt("00/11", "pw"), Err(DecodeError::MalformedWire));
    assert_eq!(decrypt("zz/11/22", "pw"), Err(DecodeError::MalformedWire));
}

#[test]
fn nonce_of_another_length_is_refused() {
    assert_eq!(decrypt("//", "pw"), Err(DecodeError::MalformedWire));
    assert_eq!(
        decrypt("0000/0388/ab6e47d42cec13bdf53a67b21257bddf", "pw"),
        Err(DecodeError::MalformedWire)
    );
    assert_eq!(open_parts(&[0u8; 11], &[], &[0u8; 16], "pw"), Err(DecodeError::MalformedWire));
}

#[test]
fn tag_of_another_length_fails_authentication() {
    assert_eq!(
        decrypt("000000000000000000000000//58e2fccefa7e3061367f1d57a4e745", ""),
        Err(DecodeError::AuthenticationFailed)
    );
    assert_eq!(open_parts(&[0u8; 12], &[], &[], ""), Err(DecodeError::AuthenticationFailed));
}

#[test]
fn open_parts_gives_the_payload() {
    let wire = encrypt_with_nonce(b"xyz", "pw", &[7u8; 12]);
    let (iv, data, mac) = split_iv_data_mac(&wire).unwrap();
    assert_eq!(iv, vec![7u8; 12]);
    assert_eq!(open_parts(&iv, &data, &mac, "pw"), Ok(b"xyz".to_vec()));
}
