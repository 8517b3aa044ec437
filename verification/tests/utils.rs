use classical_ciphers::ciphers::utils::{clean_chars, clean_input, collect, pad, to_chars, to_upper};

#[test]
fn clean_input_keeps_letters_and_digits() {
    assert_eq!("IAMHURTVERYBADLYHELP", clean_input("I am hurt very badly help"));
    assert_eq!("A1B2C3", clean_input("a1-b2 C3!"));
    assert_eq!("918273456", clean_input("918273456"));
    assert_eq!("", clean_input(""));
    assert_eq!("", clean_input(" .,;:-_()[]{}@`"));
    assert_eq!("AZAZ09", clean_input("azAZ09"));
}

#[test]
fn clean_input_drops_what_is_not_ascii() {
    assert_eq!("HLLO", clean_input("h\u{e9}llo"));
    assert_eq!("AB", clean_input("a\u{3b1}\u{10348}b"));
}

#[test]
fn clean_input_twice_is_clean_input_once() {
    let once = clean_input("Attack at dawn, 5 o'clock!");
    assert_eq!("ATTACKATDAWN5OCLOCK", once);
    assert_eq!(once, clean_input(&once));
}

#[test]
fn clean_chars_agrees_with_clean_input() {
    let chars = clean_chars("a1-b2 C3!");
    assert_eq!(vec!['A', '1', 'B', '2', 'C', '3'], chars);
    assert_eq!("A1B2C3", collect(&chars));
}

#[test]
fn to_upper_changes_lower_case_letters_only() {
    assert_eq!('A', to_upper('a'));
    assert_eq!('Z', to_upper('z'));
    assert_eq!('M', to_upper('M'));
    assert_eq!('7', to_upper('7'));
    assert_eq!('`', to_upper('`'));
    assert_eq!('{', to_upper('{'));
    assert_eq!('\u{e9}', to_upper('\u{e9}'));
}

#[test]
fn chars_and_back() {
    let chars = to_chars("h\u{e9}llo");
    assert_eq!(vec!['h', '\u{e9}', 'l', 'l', 'o'], chars);
    assert_eq!("h\u{e9}llo", collect(&chars));
    assert_eq!("", collect(&Vec::new()));
}

#[test]
fn pad_fills_up_to_the_next_multiple() {
    assert_eq!("ABCDE...", pad("ABCDE", 4, '.'));
    assert_eq!("ABCD", pad("ABCD", 4, '.'));
    assert_eq!("Axx", pad("A", 3, 'x'));
    assert_eq!("", pad("", 4, 'x'));
    assert_eq!("ABC", pad("ABC", 1, '.'));
    assert_eq!("ABC.......", pad("ABC", 10, '.'));
}
