use client_server::cipher::{decrypt_message, encrypt_message};

#[test]
fn hello_world_shift_three() {
    let cipher = encrypt_message(b"Hello World", 3);
    assert_eq!(cipher, b"Khoor Zruog".to_vec());
    let plain = decrypt_message(b"Khoor Zruog", 3);
    assert_eq!(plain, b"Hello World".to_vec());
}

#[test]
fn shift_twenty_six_is_full_wraparound() {
    let cipher = encrypt_message(b"Hello World", 26);
    assert_eq!(cipher, b"Hello World".to_vec());
}

#[test]
fn negative_shift_normalizes() {
    let cipher = encrypt_message(b"abc", -3);
    assert_eq!(cipher, b"xyz".to_vec());
    assert_eq!(encrypt_message(b"abc", 23), b"xyz".to_vec());
    assert_eq!(decrypt_message(b"xyz", -3), b"abc".to_vec());
}

#[test]
fn zero_shift_is_identity() {
    let msg = b"The quick brown Fox! 123";
    assert_eq!(encrypt_message(msg, 0), msg.to_vec());
    assert_eq!(decrypt_message(msg, 0), msg.to_vec());
}

#[test]
fn shift_is_periodic_modulo_twenty_six() {
    let msg = b"Wrap Around";
    assert_eq!(encrypt_message(msg, 5), encrypt_message(msg, 31));
    assert_eq!(encrypt_message(msg, 5), encrypt_message(msg, -21));
    assert_eq!(encrypt_message(msg, 1), encrypt_message(msg, 27));
}

#[test]
fn whitespace_passes_through() {
    let msg = b" \t\r\n ab YZ ";
    let cipher = encrypt_message(msg, 7);
    assert_eq!(cipher[0], b' ');
    assert_eq!(cipher[1], b'\t');
    assert_eq!(cipher[2], b'\r');
    assert_eq!(cipher[3], b'\n');
    assert_eq!(cipher[4], b' ');
    assert_eq!(cipher[7], b' ');
    assert_eq!(cipher[10], b' ');
    let big = encrypt_message(msg, 1000);
    let neg = encrypt_message(msg, -1000);
    assert_eq!(big[0], b' ');
    assert_eq!(big[1], b'\t');
    assert_eq!(neg[0], b' ');
    assert_eq!(neg[1], b'\t');
}

#[test]
fn nonletters_are_invariant() {
    let msg = b"0123456789!@#$%^&*()_+-=[]{};':\",./<>?";
    assert_eq!(encrypt_message(msg, 13), msg.to_vec());
    assert_eq!(encrypt_message(msg, -5), msg.to_vec());
    let high = [0x80u8, 0xff, 0xc3, 0xa9];
    assert_eq!(encrypt_message(&high, 9), high.to_vec());
}

#[test]
fn case_is_preserved() {
    let cipher = encrypt_message(b"aZbY", 11);
    assert!(cipher[0].is_ascii_lowercase());
    assert!(cipher[1].is_ascii_uppercase());
    assert!(cipher[2].is_ascii_lowercase());
    assert!(cipher[3].is_ascii_uppercase());
}

#[test]
fn round_trip_over_many_shifts() {
    let msg = b"Mixed CASE with spaces\tand 42 digits!";
    for s in [-1000, -27, -26, -3, -1, 0, 1, 3, 25, 26, 27, 52, 1000, i32::MAX, i32::MIN] {
        let cipher = encrypt_message(msg, s);
        assert_eq!(cipher.len(), msg.len());
        assert_eq!(decrypt_message(&cipher, s), msg.to_vec());
    }
}

#[test]
fn exact_rotation_values() {
    assert_eq!(encrypt_message(b"AZaz", 1), b"BAba".to_vec());
    assert_eq!(encrypt_message(b"AZaz", 25), b"ZYzy".to_vec());
    assert_eq!(decrypt_message(b"BAba", 1), b"AZaz".to_vec());
}
