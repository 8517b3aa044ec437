//! The shift (Caesar) cipher: every letter moves a fixed number of places
//! along the alphabet, wrapping round at its ends; digits stay as they are.
use vstd::prelude::*;
use crate::Cipher;
use crate::ciphers::utils::{
    clean_chars,
    collect,
    is_digit,
    is_normal,
    is_symbol,
    is_upper,
    lemma_normalized_fixed,
    lemma_normalized_is_normal,
    normalized,
};

verus! {

/// A shift cipher with its shift amount; a negative amount shifts backwards.
pub struct ShiftCipher {
    key: i8,
}

/// The letter `n` places after `c` in the alphabet taken as a ring; a
/// character that is no upper-case letter is left as it is.
pub open spec fn shifted(n: int, c: char) -> char {
    if is_upper(c) {
        (((c as int) - 65 + n) % 26 + 65) as char
    } else {
        c
    }
}

/// The alphabet rotated by `k` places to the left: its first letter is the
/// one that stood at place `k`.
pub open spec fn ring_left(k: int) -> Seq<char> {
    Seq::new(26, |i: int| (65 + (i + k) % 26) as char)
}

/// The alphabet rotated by `k` places to the right.
pub open spec fn ring_right(k: int) -> Seq<char> {
    Seq::new(26, |i: int| (65 + (i - k) % 26) as char)
}

/// The shift of `c` by `n`, read off a rotated alphabet: the alphabet is
/// rotated by `|n| mod 26`, to the right for a negative `n` and to the left
/// otherwise, and `c` is replaced by the letter that now stands at its place.
pub open spec fn ring_shifted(n: int, c: char) -> char {
    let k = (if n < 0 { -n } else { n }) % 26;
    if !is_upper(c) {
        c
    } else if n < 0 {
        ring_right(k)[(c as int) - 65]
    } else {
        ring_left(k)[(c as int) - 65]
    }
}

/// A text with each of its characters shifted by `n`.
pub open spec fn shifted_text(n: int, text: Seq<char>) -> Seq<char> {
    Seq::new(text.len(), |i: int| shifted(n, text[i]))
}

/// Reading a letter off the rotated alphabet and computing it by modular
/// arithmetic give the same letter, for every shift amount.
pub proof fn lemma_ring_is_modular(n: int, c: char)
    ensures
        ring_shifted(n, c) == shifted(n, c),
{
    if is_upper(c) {
        let p = (c as int) - 65;
        let k = (if n < 0 { -n } else { n }) % 26;
        if n < 0 {
            assert((p - k) % 26 == (p + n) % 26) by {
                lemma_mod_congruent(p - k, p + n, (-n) / 26);
            }
        } else {
            assert((p + k) % 26 == (p + n) % 26) by {
                lemma_mod_congruent(p + n, p + k, n / 26);
            }
        }
    }
}

/// Two numbers that differ by a multiple of 26 have the same remainder.
pub proof fn lemma_mod_congruent(a: int, b: int, q: int)
    requires
        a == b + 26 * q,
    ensures
        a % 26 == b % 26,
{
    vstd::arithmetic::div_mod::lemma_mod_multiples_vanish(q, b, 26);
}

/// A shifted letter is a letter, a shifted digit is the same digit.
pub proof fn lemma_shifted_symbol(n: int, c: char)
    ensures
        is_upper(c) ==> is_upper(shifted(n, c)),
        !is_upper(c) ==> shifted(n, c) == c,
        is_symbol(c) ==> is_symbol(shifted(n, c)),
{
}

/// Shifting by `n` and then by `m` is shifting by `n + m`.
pub proof fn lemma_shifted_twice(n: int, m: int, c: char)
    ensures
        shifted(m, shifted(n, c)) == shifted(n + m, c),
{
    if is_upper(c) {
        let p = (c as int) - 65;
        let s = (p + n) % 26;
        lemma_mod_congruent(p + n + m, s + m, (p + n) / 26);
    }
}

/// Shift amounts that agree modulo 26 shift every character alike.
pub proof fn lemma_shifted_periodic(n: int, m: int, c: char)
    requires
        n % 26 == m % 26,
    ensures
        shifted(n, c) == shifted(m, c),
{
    if is_upper(c) {
        let p = (c as int) - 65;
        lemma_mod_congruent(p + n, p + m, n / 26 - m / 26);
    }
}

/// The remainder of `n` modulo 26, between 0 and 25 for negative `n` too.
fn reduce(n: i16) -> (r: u8)
    requires
        -128 <= n <= 128,
    ensures
        r == (n as int) % 26,
{
    if n >= 0 {
        (n % 26) as u8
    } else {
        let m: i16 = (-n) % 26;
        proof {
            lemma_mod_congruent(n as int + 26 * 5, n as int, 5);
        }
        if m == 0 {
            0
        } else {
            (26 - m) as u8
        }
    }
}

/// Shifts a normalised character by `k` places forward, `k` below 26.
fn shift_forward(k: u8, ch: char) -> (r: char)
    requires
        k < 26,
        is_symbol(ch),
    ensures
        r == shifted(k as int, ch),
{
    if '0' <= ch && ch <= '9' {
        ch
    } else {
        let idx: u8 = (ch as u8) - 65;
        ((idx + k) % 26 + 65) as char
    }
}

impl ShiftCipher {
    /// The shift amount of this cipher.
    pub closed spec fn key(&self) -> int {
        self.key as int
    }

    /// Initializes a new shift cipher with a given shift amount.
    pub fn new(key: i8) -> (r: Self)
        ensures
            r.key() == key,
    {
        ShiftCipher { key }
    }

    /// Shifts the character `ch` by `n` places along the alphabet, forwards
    /// for a positive `n` and backwards for a negative one; a digit is
    /// returned as it is.
    pub fn shift_by(n: i8, ch: char) -> (r: char)
        requires
            is_symbol(ch),
        ensures
            r == shifted(n as int, ch),
            r == ring_shifted(n as int, ch),
            is_symbol(r),
            is_digit(ch) ==> r == ch,
    {
        let k = reduce(n as i16);
        proof {
            lemma_shifted_periodic(k as int, n as int, ch);
            lemma_ring_is_modular(n as int, ch);
        }
        shift_forward(k, ch)
    }

    /// Shifts every character of a normalised text by `n` places, `n` taken
    /// modulo 26.
    fn shift_all(n: i16, text: &Vec<char>) -> (r: Vec<char>)
        requires
            -128 <= n <= 128,
            is_normal(text@),
        ensures
            r@ == shifted_text(n as int, text@),
    {
        let k = reduce(n);
        let mut out: Vec<char> = Vec::new();
        let mut i: usize = 0;
        while i < text.len()
            invariant
                i <= text.len(),
                k < 26,
                k == (n as int) % 26,
                is_normal(text@),
                out@ == shifted_text(n as int, text@).take(i as int),
            decreases text.len() - i,
        {
            let c = shift_forward(k, text[i]);
            proof {
                lemma_shifted_periodic(k as int, n as int, text@[i as int]);
                assert(shifted_text(n as int, text@).take(i + 1) =~= shifted_text(
                    n as int,
                    text@,
                ).take(i as int).push(c));
            }
            out.push(c);
            i += 1;
        }
        proof {
            assert(shifted_text(n as int, text@).take(text.len() as int) =~= shifted_text(
                n as int,
                text@,
            ));
        }
        out
    }
}

impl Cipher for ShiftCipher {
    /// Every character shifted by the key.
    open spec fn encrypted(&self, text: Seq<char>) -> Seq<char> {
        shifted_text(self.key(), text)
    }

    /// Every character shifted back by the key.
    open spec fn decrypted(&self, text: Seq<char>) -> Seq<char> {
        shifted_text(-self.key(), text)
    }

    /// Normalises the plaintext and shifts each of its letters by the key.
    fn encrypt(&self, plaintext: &str) -> (r: String) {
        let clean = clean_chars(plaintext);
        let out = ShiftCipher::shift_all(self.key as i16, &clean);
        collect(&out)
    }

    /// Normalises the ciphertext and shifts each of its letters back by the
    /// key.
    fn decrypt(&self, ciphertext: &str) -> (r: String) {
        let clean = clean_chars(ciphertext);
        let out = ShiftCipher::shift_all(-(self.key as i16), &clean);
        collect(&out)
    }
}

/// Ciphers whose keys agree modulo 26 encrypt and decrypt every text alike.
pub proof fn lemma_shift_periodic(a: ShiftCipher, b: ShiftCipher, text: Seq<char>)
    requires
        a.key() % 26 == b.key() % 26,
    ensures
        a.encrypted(text) == b.encrypted(text),
        a.decrypted(text) == b.decrypted(text),
{
    assert forall|i: int| 0 <= i < text.len() implies shifted(a.key(), text[i]) == shifted(
        b.key(),
        text[i],
    ) && shifted(-a.key(), text[i]) == shifted(-b.key(), text[i]) by {
        lemma_shifted_periodic(a.key(), b.key(), text[i]);
        lemma_mod_congruent(-a.key(), -b.key(), b.key() / 26 - a.key() / 26);
        lemma_shifted_periodic(-a.key(), -b.key(), text[i]);
    }
    assert(a.encrypted(text) =~= b.encrypted(text));
    assert(a.decrypted(text) =~= b.decrypted(text));
}

/// The cipher with key 0 changes nothing: a text is its own ciphertext.
pub proof fn lemma_shift_zero(c: ShiftCipher, text: Seq<char>)
    requires
        c.key() == 0,
    ensures
        c.encrypted(text) == text,
        c.decrypted(text) == text,
{
    assert(c.encrypted(text) =~= text);
    assert(c.decrypted(text) =~= text);
}

/// Decrypting what was encrypted with the same key gives the text back, and
/// so does encrypting what was decrypted.
pub proof fn lemma_shift_round_trip(c: ShiftCipher, text: Seq<char>)
    ensures
        c.decrypted(c.encrypted(text)) == text,
        c.encrypted(c.decrypted(text)) == text,
{
    assert forall|i: int| 0 <= i < text.len() implies shifted(
        -c.key(),
        shifted(c.key(), text[i]),
    ) == text[i] && shifted(c.key(), shifted(-c.key(), text[i])) == text[i] by {
        lemma_shifted_twice(c.key(), -c.key(), text[i]);
        lemma_shifted_twice(-c.key(), c.key(), text[i]);
    }
    assert(c.decrypted(c.encrypted(text)) =~= text);
    assert(c.encrypted(c.decrypted(text)) =~= text);
}

/// A text without upper-case letters, such as one made of digits, is its own
/// ciphertext under every key.
pub proof fn lemma_shift_keeps_digits(c: ShiftCipher, text: Seq<char>)
    requires
        forall|i: int| 0 <= i < text.len() ==> !is_upper(#[trigger] text[i]),
    ensures
        c.encrypted(text) == text,
        c.decrypted(text) == text,
{
    assert(c.encrypted(text) =~= text);
    assert(c.decrypted(text) =~= text);
}

/// Encryption keeps a normalised text normalised and of the same length.
pub proof fn lemma_shift_keeps_normal(c: ShiftCipher, text: Seq<char>)
    requires
        is_normal(text),
    ensures
        is_normal(c.encrypted(text)),
        is_normal(c.decrypted(text)),
        c.encrypted(text).len() == text.len(),
        c.decrypted(text).len() == text.len(),
{
    assert forall|i: int| 0 <= i < text.len() implies is_symbol(
        #[trigger] c.encrypted(text)[i],
    ) && is_symbol(#[trigger] c.decrypted(text)[i]) by {
        assert(is_symbol(text[i]));
        lemma_shifted_symbol(c.key(), text[i]);
        lemma_shifted_symbol(-c.key(), text[i]);
    }
}

/// Encrypting any text and decrypting the ciphertext, each with the
/// normalisation that goes before it, gives the normal form of the text.
pub proof fn lemma_shift_decrypts_encrypted(c: ShiftCipher, text: Seq<char>)
    ensures
        c.decrypted(normalized(c.encrypted(normalized(text)))) == normalized(text),
{
    lemma_normalized_is_normal(text);
    lemma_shift_keeps_normal(c, normalized(text));
    lemma_normalized_fixed(c.encrypted(normalized(text)));
    lemma_shift_round_trip(c, normalized(text));
}

} // verus!
