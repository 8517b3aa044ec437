//! Classical ciphers over normalised text: the Caesar shift and the scytale
//! transposition, each with a proved statement of what it computes.
use vstd::prelude::*;

pub mod ciphers;

verus! {

/// What every cipher of this crate offers: both directions work on the
/// normalised form of their input, and what they compute on it is given by
/// `encrypted` and `decrypted`.
pub trait Cipher {
    /// The ciphertext of an already normalised text.
    spec fn encrypted(&self, text: Seq<char>) -> Seq<char>;

    /// The plaintext of an already normalised ciphertext.
    spec fn decrypted(&self, text: Seq<char>) -> Seq<char>;

    /// Normalises `text`: keeps its letters and digits, in order, with the
    /// letters in upper case.
    fn clean_input(text: &str) -> (r: String)
        ensures
            r@ == crate::ciphers::utils::normalized(text@),
            crate::ciphers::utils::is_normal(r@),
    {
        crate::ciphers::utils::clean_input(text)
    }

    /// Normalises the plaintext and encrypts it.
    fn encrypt(&self, plaintext: &str) -> (r: String)
        ensures
            r@ == self.encrypted(crate::ciphers::utils::normalized(plaintext@)),
    ;

    /// Normalises the ciphertext and decrypts it.
    fn decrypt(&self, ciphertext: &str) -> (r: String)
        ensures
            r@ == self.decrypted(crate::ciphers::utils::normalized(ciphertext@)),
    ;
}

} // verus!
