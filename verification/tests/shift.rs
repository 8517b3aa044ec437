use classical_ciphers::ciphers::shift::ShiftCipher;
use classical_ciphers::Cipher;

#[test]
fn test_shift_by() {
    // basic tests
    assert_eq!('B', ShiftCipher::shift_by(1, 'A'));
    assert_eq!('C', ShiftCipher::shift_by(2, 'A'));
    assert_eq!('D', ShiftCipher::shift_by(3, 'A'));
    assert_eq!('B', ShiftCipher::shift_by(27, 'A'));

    // edge cases
    assert_eq!('A', ShiftCipher::shift_by(1, 'Z'));
    assert_eq!('Z', ShiftCipher::shift_by(-1, 'A'));
}

#[test]
fn test_zero_shift() {
    let cipher = ShiftCipher::new(0);
    let plaintext = String::from("Hello");

    assert_eq!(plaintext.to_uppercase(), cipher.encrypt(&plaintext));
}

#[test]
fn test_numeric_input() {
    for shift in 1..=25 {
        let cipher = ShiftCipher::new(shift);
        let plaintext = "918273456";

        assert_eq!(plaintext.to_string(), cipher.encrypt(plaintext));
    }
}

#[test]
fn shift_test_known_pairs() {
    // from https://cryptii.com
    let cipher = ShiftCipher::new(8);
    let plaintext = "attackatdawn";
    let ciphertext = String::from("ibbiksibliev");

    assert_eq!(ciphertext.to_uppercase(), cipher.encrypt(plaintext));

    assert_eq!(
        <ShiftCipher as Cipher>::clean_input(plaintext),
        cipher.decrypt(&ciphertext)
    );

    let cipher = ShiftCipher::new(13);
    let plaintext = "firstman";
    let ciphertext = String::from("svefgzna");

    assert_eq!(ciphertext.to_uppercase(), cipher.encrypt(plaintext));

    assert_eq!(
        <ShiftCipher as Cipher>::clean_input(plaintext),
        cipher.decrypt(&ciphertext)
    );
}

#[test]
fn shift_test_correct() {
    let plaintext = String::from("caesar");

    // it's actually just enough to check for shifts from 1 to 25...
    for shift in 0..=127 {
        let cipher = ShiftCipher::new(shift);

        assert_eq!(
            plaintext.to_uppercase(),
            cipher.decrypt(&cipher.encrypt(&plaintext))
        );
    }
}

#[test]
fn known_answer_shift_eight() {
    assert_eq!("IBBIKSIBLIEV", ShiftCipher::new(8).encrypt("attackatdawn"));
}

#[test]
fn shift_by_matches_the_modular_formula() {
    for n in i8::MIN..=i8::MAX {
        for pos in 0u8..26 {
            let ch = (b'A' + pos) as char;
            let expected = (b'A' + (pos as i32 + n as i32).rem_euclid(26) as u8) as char;
            assert_eq!(expected, ShiftCipher::shift_by(n, ch));
        }
    }
}

#[test]
fn shift_by_at_the_ends_of_the_key_range() {
    assert_eq!('C', ShiftCipher::shift_by(-128, 'A'));
    assert_eq!('X', ShiftCipher::shift_by(127, 'A'));
    assert_eq!('Q', ShiftCipher::shift_by(26, 'Q'));
    assert_eq!('Q', ShiftCipher::shift_by(-26, 'Q'));
    assert_eq!('Q', ShiftCipher::shift_by(0, 'Q'));
    assert_eq!('W', ShiftCipher::shift_by(-3, 'Z'));
}

#[test]
fn shift_by_keeps_digits() {
    for n in i8::MIN..=i8::MAX {
        for d in '0'..='9' {
            assert_eq!(d, ShiftCipher::shift_by(n, d));
        }
    }
}

#[test]
fn digits_pass_through_unshifted() {
    for n in i8::MIN..=i8::MAX {
        assert_eq!("123", ShiftCipher::new(n).encrypt("123"));
        assert_eq!("123", ShiftCipher::new(n).decrypt("123"));
    }
    assert_eq!("BC12A", ShiftCipher::new(1).encrypt("ab12z"));
}

#[test]
fn keys_that_agree_modulo_26_encrypt_alike() {
    assert_eq!("KHOOR", ShiftCipher::new(3).encrypt("hello"));
    assert_eq!("KHOOR", ShiftCipher::new(29).encrypt("hello"));
    assert_eq!("KHOOR", ShiftCipher::new(-23).encrypt("hello"));
    assert_eq!("KHOOR", ShiftCipher::new(107).encrypt("hello"));
    assert_eq!("KHOOR", ShiftCipher::new(-127).encrypt("hello"));
    assert_eq!("HELLO", ShiftCipher::new(26).encrypt("hello"));
    assert_eq!("HELLO", ShiftCipher::new(-104).encrypt("hello"));
}

#[test]
fn round_trip_for_every_key() {
    let text = "The quick brown fox jumps over 13 lazy dogs";
    let clean = <ShiftCipher as Cipher>::clean_input(text);
    for key in i8::MIN..=i8::MAX {
        let cipher = ShiftCipher::new(key);
        assert_eq!(clean, cipher.decrypt(&cipher.encrypt(text)));
        assert_eq!(clean, cipher.encrypt(&cipher.decrypt(text)));
    }
}

#[test]
fn decrypt_shifts_backwards() {
    assert_eq!("HELLO", ShiftCipher::new(3).decrypt("khoor"));
    assert_eq!("KHOOR", ShiftCipher::new(-3).decrypt("hello"));
    // the key -128 shifts back by two places, so decrypting shifts on by two
    assert_eq!("C", ShiftCipher::new(-128).encrypt("a"));
    assert_eq!("A", ShiftCipher::new(-128).decrypt("c"));
}

#[test]
fn empty_text_stays_empty() {
    assert_eq!("", ShiftCipher::new(5).encrypt(""));
    assert_eq!("", ShiftCipher::new(5).decrypt(""));
    assert_eq!("", ShiftCipher::new(5).encrypt("  -- !"));
}
