//! Text normalisation and padding, shared by the ciphers.
use vstd::prelude::*;
use vstd::string::*;

verus! {

/// `String::push` of std appends the given character to the end of the
/// string and changes nothing else.
pub assume_specification[ String::push ](s: &mut String, ch: char)
    ensures
        final(s)@ == old(s)@.push(ch),
;

/// An upper-case letter of the Latin alphabet.
pub open spec fn is_upper(c: char) -> bool {
    'A' <= c <= 'Z'
}

/// A lower-case letter of the Latin alphabet.
pub open spec fn is_lower(c: char) -> bool {
    'a' <= c <= 'z'
}

/// A decimal digit.
pub open spec fn is_digit(c: char) -> bool {
    '0' <= c <= '9'
}

/// The characters normalised text is made of: upper-case letters and digits.
pub open spec fn is_symbol(c: char) -> bool {
    is_upper(c) || is_digit(c)
}

/// Normalised text: every character is an upper-case letter or a digit.
pub open spec fn is_normal(text: Seq<char>) -> bool {
    forall|i: int| 0 <= i < text.len() ==> is_symbol(#[trigger] text[i])
}

/// Whether normalisation keeps a character (letters and digits) or drops it.
pub open spec fn survives(c: char) -> bool {
    is_upper(c) || is_lower(c) || is_digit(c)
}

/// The upper-case form of a letter; any other character is unchanged.
pub open spec fn upper(c: char) -> char {
    if is_lower(c) {
        ((c as u8) - 32) as u8 as char
    } else {
        c
    }
}

/// The normal form of a text: its letters and digits in their order, the
/// letters in upper case; every other character is dropped.
pub open spec fn normalized(text: Seq<char>) -> Seq<char>
    decreases text.len(),
{
    if text.len() == 0 {
        Seq::empty()
    } else if survives(text.last()) {
        normalized(text.drop_last()).push(upper(text.last()))
    } else {
        normalized(text.drop_last())
    }
}

/// How many filler characters bring a text of `len` characters to the next
/// multiple of `block`.
pub open spec fn padding(len: nat, block: nat) -> nat
    recommends
        block > 0,
{
    ((block - len % block) % (block as int)) as nat
}

/// A text followed by as many fillers as its length lacks to a multiple of
/// `block`.
pub open spec fn padded(text: Seq<char>, block: nat, filler: char) -> Seq<char>
    recommends
        block > 0,
{
    text + Seq::new(padding(text.len(), block), |i: int| filler)
}

/// The normal form of any text is normalised text.
pub proof fn lemma_normalized_is_normal(text: Seq<char>)
    ensures
        is_normal(normalized(text)),
        normalized(text).len() <= text.len(),
    decreases text.len(),
{
    if text.len() > 0 {
        lemma_normalized_is_normal(text.drop_last());
    }
}

/// Normalised text is its own normal form, so normalising twice is
/// normalising once.
pub proof fn lemma_normalized_fixed(text: Seq<char>)
    requires
        is_normal(text),
    ensures
        normalized(text) == text,
    decreases text.len(),
{
    if text.len() > 0 {
        assert(is_symbol(text.last()));
        assert forall|i: int| 0 <= i < text.drop_last().len() implies is_symbol(
            #[trigger] text.drop_last()[i],
        ) by {
            assert(is_symbol(text[i]));
        }
        lemma_normalized_fixed(text.drop_last());
        assert(text.drop_last().push(text.last()) =~= text);
    } else {
        assert(text =~= Seq::<char>::empty());
    }
}

/// The upper-case form of `c`.
pub fn to_upper(c: char) -> (r: char)
    ensures
        r == upper(c),
{
    if 'a' <= c && c <= 'z' {
        ((c as u8) - 32) as char
    } else {
        c
    }
}

/// The normal form of `text`, character by character.
pub fn clean_chars(text: &str) -> (r: Vec<char>)
    ensures
        r@ == normalized(text@),
        is_normal(r@),
{
    let mut out: Vec<char> = Vec::new();
    for c in it: text.chars()
        invariant
            it.seq() == text@,
            out@ == normalized(text@.take(it.index() as int)),
            is_normal(out@),
    {
        proof {
            assert(text@.take(it.index() + 1).drop_last() =~= text@.take(it.index() as int));
        }
        if ('A' <= c && c <= 'Z') || ('a' <= c && c <= 'z') || ('0' <= c && c <= '9') {
            out.push(to_upper(c));
        }
    }
    proof {
        assert(text@.take(text@.len() as int) =~= text@);
    }
    out
}

/// The string that holds exactly the given characters.
pub fn collect(chars: &Vec<char>) -> (r: String)
    ensures
        r@ == chars@,
{
    let mut out = String::new();
    let mut i: usize = 0;
    while i < chars.len()
        invariant
            i <= chars.len(),
            out@ == chars@.take(i as int),
        decreases chars.len() - i,
    {
        out.push(chars[i]);
        proof {
            assert(chars@.take(i + 1) =~= chars@.take(i as int).push(chars@[i as int]));
        }
        i += 1;
    }
    proof {
        assert(chars@.take(chars.len() as int) =~= chars@);
    }
    out
}

/// The characters of `text`, in order.
pub fn to_chars(text: &str) -> (r: Vec<char>)
    ensures
        r@ == text@,
{
    let mut out: Vec<char> = Vec::new();
    for c in it: text.chars()
        invariant
            it.seq() == text@,
            out@ == text@.take(it.index() as int),
    {
        proof {
            assert(text@.take(it.index() + 1) =~= text@.take(it.index() as int).push(c));
        }
        out.push(c);
    }
    proof {
        assert(text@.take(text@.len() as int) =~= text@);
    }
    out
}

/// Appends `filler` to `text` until its length is a multiple of
/// `block_size`; a text whose length already is one comes back unchanged.
pub fn pad(text: &str, block_size: u32, filler: char) -> (r: String)
    requires
        block_size > 0,
    ensures
        r@ == padded(text@, block_size as nat, filler),
        r@.len() % (block_size as nat) == 0,
{
    let len: usize = text.unicode_len();
    let block: usize = block_size as usize;
    let rest: usize = len % block;
    let missing: usize = if rest == 0 {
        0
    } else {
        block - rest
    };
    proof {
        lemma_padding(len as nat, block as nat);
    }
    let mut out = String::from_str(text);
    let mut i: usize = 0;
    while i < missing
        invariant
            i <= missing,
            out@ == text@ + Seq::new(i as nat, |k: int| filler),
        decreases missing - i,
    {
        out.push(filler);
        proof {
            assert(out@ =~= text@ + Seq::new((i + 1) as nat, |k: int| filler));
        }
        i += 1;
    }
    out
}

/// The padding is what the length lacks to the next multiple of the block,
/// and nothing where the length is a multiple already.
pub proof fn lemma_padding(len: nat, block: nat)
    requires
        block > 0,
    ensures
        len % block == 0 ==> padding(len, block) == 0,
        len % block != 0 ==> padding(len, block) == block - len % block,
        (len + padding(len, block)) % block == 0,
        (len + padding(len, block)) / block == len / block + if len % block == 0 {
            0nat
        } else {
            1nat
        },
{
    let b = block as int;
    let q = (len as int) / b;
    let m = (len as int) % b;
    vstd::arithmetic::div_mod::lemma_fundamental_div_mod(len as int, b);
    vstd::arithmetic::div_mod::lemma_mod_pos_bound(len as int, b);
    assert(b * q == q * b) by (nonlinear_arith);
    if m == 0 {
        vstd::arithmetic::div_mod::lemma_mod_self_0(b);
        assert(padding(len, block) == 0);
        vstd::arithmetic::div_mod::lemma_fundamental_div_mod_converse(len as int, b, q, 0);
    } else {
        vstd::arithmetic::div_mod::lemma_small_mod((b - m) as nat, block);
        assert(padding(len, block) == b - m);
        assert((q + 1) * b == q * b + b) by (nonlinear_arith);
        vstd::arithmetic::div_mod::lemma_fundamental_div_mod_converse(
            len as int + b - m,
            b,
            q + 1,
            0,
        );
    }
}

/// Normalises `text`: keeps its letters and digits, in order, with the
/// letters in upper case.
pub fn clean_input(text: &str) -> (r: String)
    ensures
        r@ == normalized(text@),
        is_normal(r@),
{
    let chars = clean_chars(text);
    collect(&chars)
}

} // verus!
