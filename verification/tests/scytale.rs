use classical_ciphers::ciphers::scytale::{InvalidKey, Scytale};
use classical_ciphers::Cipher;

#[test]
#[should_panic]
fn test_zero_length() {
    let cipher = Scytale::new(0).unwrap();

    cipher.encrypt("this should fail");
}

#[test]
fn zero_length_is_an_invalid_key() {
    assert!(matches!(Scytale::new(0), Err(InvalidKey)));
    assert!(Scytale::new(1).is_ok());
    assert!(Scytale::new(usize::MAX).is_ok());
}

#[test]
fn scytale_test_known_pairs() {
    // from https://en.wikipedia.org/wiki/Scytale
    let cipher = Scytale::new(5).unwrap();
    let plaintext = "I am hurt very badly help";
    let ciphertext = String::from("Iryyatbhmvaehedlurlp");

    assert_eq!(ciphertext.to_uppercase(), cipher.encrypt(plaintext));

    assert_eq!(
        <Scytale as Cipher>::clean_input(plaintext),
        cipher.decrypt(&ciphertext)
    );

    // from 'Programming in Cryptol', page 30
    let cipher = Scytale::new(4).unwrap(); // in the book the diameter is 3
    let plaintext = "attackatdawn";
    let ciphertext = String::from("ACDTKATAWATN");

    assert_eq!(ciphertext, cipher.encrypt(plaintext));

    assert_eq!(
        <Scytale as Cipher>::clean_input(plaintext),
        cipher.decrypt(&ciphertext)
    );
}

#[test]
fn scytale_test_correct() {
    let plaintext = String::from("Iamhurtverybadly");

    for length in 1..=plaintext.len() {
        let cipher = Scytale::new(length).unwrap();
        assert_eq!(
            plaintext.to_uppercase(),
            cipher.decrypt(&cipher.encrypt(&plaintext))
        );
    }
}

#[test]
fn known_answer_hurt() {
    let cipher = Scytale::new(5).unwrap();
    assert_eq!(
        "IRYYATBHMVAEHEDLURLP",
        cipher.encrypt("I am hurt very badly help")
    );
}

#[test]
fn known_answer_attack() {
    let cipher = Scytale::new(4).unwrap();
    assert_eq!("ACDTKATAWATN", cipher.encrypt("attackatdawn"));
}

#[test]
fn short_last_row() {
    // ABCD / EFGH / IJ
    let cipher = Scytale::new(4).unwrap();
    assert_eq!("AEIBFJCGDH", cipher.encrypt("abcdefghij"));
    assert_eq!("ABCDEFGHIJ", cipher.decrypt("AEIBFJCGDH"));

    // ABC / DEF / GHI / J
    assert_eq!("ADGJBEHCFI", Scytale::wrap_around_scytale("ABCDEFGHIJ", 3));
    assert_eq!("ABCDEFGHIJ", Scytale::unwrap_from_scytale("ADGJBEHCFI", 3));
}

#[test]
fn rod_longer_than_text() {
    let cipher = Scytale::new(10).unwrap();
    assert_eq!("ABC", cipher.encrypt("abc"));
    assert_eq!("ABC", cipher.decrypt("abc"));

    let cipher = Scytale::new(3).unwrap();
    assert_eq!("ABC", cipher.encrypt("abc"));
    assert_eq!("ABC", cipher.decrypt("abc"));

    let cipher = Scytale::new(usize::MAX).unwrap();
    assert_eq!("HELLO", cipher.encrypt("hello"));
    assert_eq!("HELLO", cipher.decrypt("hello"));
}

#[test]
fn rod_of_length_one_changes_nothing() {
    let cipher = Scytale::new(1).unwrap();
    assert_eq!("ATTACKATDAWN", cipher.encrypt("attack at dawn"));
    assert_eq!("ATTACKATDAWN", cipher.decrypt("attack at dawn"));
}

#[test]
fn empty_text_round_trips() {
    for length in 1..=5 {
        let cipher = Scytale::new(length).unwrap();
        assert_eq!("", cipher.encrypt(""));
        assert_eq!("", cipher.decrypt(""));
        assert_eq!("", cipher.encrypt(" ,.! "));
    }
}

#[test]
fn round_trip_for_every_rod() {
    let texts = ["", "a", "ab", "attack at dawn", "I am hurt very badly help", "r2d2 and c3po"];
    for text in texts {
        let clean = <Scytale as Cipher>::clean_input(text);
        for length in 1..=(clean.len() + 3) {
            let cipher = Scytale::new(length).unwrap();
            let ciphertext = cipher.encrypt(text);
            assert_eq!(clean.len(), ciphertext.len());
            assert_eq!(clean, cipher.decrypt(&ciphertext));
        }
    }
}

#[test]
fn encryption_strips_what_is_no_letter_or_digit() {
    let cipher = Scytale::new(2).unwrap();
    // A1 / B2 / C
    assert_eq!("ABC12", cipher.encrypt("a1-b2 c!"));
}

#[test]
fn padding_never_shows_in_the_plaintext() {
    let cipher = Scytale::new(4).unwrap();
    let plaintext = cipher.decrypt(&cipher.encrypt("abcdefghij"));
    assert_eq!("ABCDEFGHIJ", plaintext);
    assert!(!plaintext.contains('.'));
}

#[test]
fn diameter_counts_the_rows() {
    assert_eq!(3, Scytale::get_diameter("ABCDEFGHIJ", 4));
    assert_eq!(2, Scytale::get_diameter("ABCDEFGH", 4));
    assert_eq!(4, Scytale::get_diameter("IRYYATBHMVAEHEDLURLP", 5));
    assert_eq!(1, Scytale::get_diameter("ABC", 10));
    assert_eq!(0, Scytale::get_diameter("", 3));
    assert_eq!(3, Scytale::get_diameter("ABC", 1));
}
