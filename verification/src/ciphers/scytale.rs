//! The scytale: a transposition cipher. The text is written in rows along a
//! rod that takes `key` letters per row, and the ciphertext is read off
//! column by column.
//!
//! ```text
//! | a b c d |
//! | e f g h |
//! | l m n o |    length (the key) = 4, diameter = 3
//! ```
//!
//! Decryption is the exact inverse of encryption for every text and every
//! rod, also where the last row is short or the rod is longer than the text
//! (`lemma_unwound_wound`). On a rod that the text fills completely it is the
//! same as winding the ciphertext round a rod whose length is the diameter
//! (`lemma_unwound_by_diameter`); with a short last row that would mix the
//! letters up, so the short columns are accounted for one by one.
use vstd::prelude::*;
use vstd::string::*;
use vstd::arithmetic::div_mod::{
    lemma_fundamental_div_mod,
    lemma_fundamental_div_mod_converse,
    lemma_mod_pos_bound,
    lemma_div_pos_is_pos,
};
use crate::Cipher;
use crate::ciphers::utils::{
    clean_input,
    collect,
    is_normal,
    is_symbol,
    lemma_normalized_fixed,
    lemma_normalized_is_normal,
    lemma_padding,
    normalized,
    padded,
    padding,
    to_chars,
};

verus! {

/// The error for a rod of length zero, on which nothing can be written.
#[derive(Debug, PartialEq, Eq, Structural)]
pub struct InvalidKey;

/// A scytale of a certain length; the length is never zero.
pub struct Scytale {
    key: usize,
}

/// The number of rows that a text of `len` letters takes on a rod of length
/// `n`: the length of the text padded to a multiple of `n`, divided by `n`.
pub open spec fn diameter(len: nat, n: nat) -> nat
    recommends
        n > 0,
{
    (len + padding(len, n)) / n
}

/// The number of letters in column `c` when `len` letters are written in
/// rows of `n`: one more than the number of full rows where the last, short
/// row reaches the column.
pub open spec fn height(len: int, n: int, c: int) -> int {
    len / n + if c < len % n {
        1int
    } else {
        0int
    }
}

/// The number of letters in the columns before column `c`.
pub open spec fn offset(len: int, n: int, c: int) -> int {
    c * (len / n) + if c < len % n {
        c
    } else {
        len % n
    }
}

/// The place in the ciphertext of the letter at place `j` of the plaintext:
/// after the columns before its own, at its row.
pub open spec fn slot(len: int, n: int, j: int) -> int {
    offset(len, n, j % n) + j / n
}

/// Column `c` of a text written in rows of `n`, from the top down.
pub open spec fn column(text: Seq<char>, n: int, c: int) -> Seq<char> {
    Seq::new(height(text.len() as int, n, c) as nat, |r: int| text[r * n + c])
}

/// The first `c` columns of a text written in rows of `n`, one after the
/// other.
pub open spec fn columns(text: Seq<char>, n: int, c: int) -> Seq<char>
    decreases c,
{
    if c <= 0 {
        Seq::empty()
    } else {
        columns(text, n, c - 1) + column(text, n, c - 1)
    }
}

/// The text as read off a rod of length `n`: all its `n` columns, one after
/// the other.
pub open spec fn wound(text: Seq<char>, n: int) -> Seq<char> {
    columns(text, n, n)
}

/// The text that reads `text` when wound round a rod of length `n`: its
/// letter at place `j` is the one that stands at `slot(j)` in `text`.
pub open spec fn unwound(text: Seq<char>, n: int) -> Seq<char> {
    Seq::new(text.len(), |j: int| text[slot(text.len() as int, n, j)])
}

/// A length is its full rows times the row length, plus the short row.
pub proof fn lemma_rows(len: int, n: int)
    requires
        0 <= len,
        0 < n,
    ensures
        len == (len / n) * n + len % n,
        0 <= len % n < n,
        0 <= len / n,
{
    lemma_fundamental_div_mod(len, n);
    lemma_mod_pos_bound(len, n);
    lemma_div_pos_is_pos(len, n);
    assert(n * (len / n) == (len / n) * n) by (nonlinear_arith);
}

/// Row `r` of column `c` holds a letter exactly if `r` is below the height
/// of the column.
pub proof fn lemma_height(len: int, n: int, c: int, r: int)
    requires
        0 <= len,
        0 <= c < n,
        0 <= r,
    ensures
        0 <= height(len, n, c),
        r * n + c < len <==> r < height(len, n, c),
{
    lemma_rows(len, n);
    let q = len / n;
    if r < q {
        assert(r * n + n <= q * n) by (nonlinear_arith)
            requires
                r + 1 <= q,
                0 < n,
        ;
    } else if r > q {
        assert(q * n + n <= r * n) by (nonlinear_arith)
            requires
                q + 1 <= r,
                0 < n,
        ;
    }
}

/// The columns before column `c + 1` are those before `c`, and column `c`.
pub proof fn lemma_offset_step(len: int, n: int, c: int)
    requires
        0 <= len,
        0 <= c < n,
    ensures
        offset(len, n, c + 1) == offset(len, n, c) + height(len, n, c),
        offset(len, n, 0) == 0,
        offset(len, n, n) == len,
{
    lemma_rows(len, n);
    let q = len / n;
    assert((c + 1) * q == c * q + q) by (nonlinear_arith);
    assert(0 * q == 0);
    assert(n * q == q * n) by (nonlinear_arith);
}

/// The first `c` columns hold as many letters as `offset` says.
pub proof fn lemma_columns_len(text: Seq<char>, n: int, c: int)
    requires
        0 <= c <= n,
        0 < n,
    ensures
        columns(text, n, c).len() == offset(text.len() as int, n, c),
    decreases c,
{
    let len = text.len() as int;
    if c > 0 {
        lemma_columns_len(text, n, c - 1);
        lemma_offset_step(len, n, c - 1);
        lemma_height(len, n, c - 1, 0);
    } else {
        lemma_offset_step(len, n, 0);
    }
}

/// Winding keeps the length of the text.
pub proof fn lemma_wound_len(text: Seq<char>, n: int)
    requires
        0 < n,
    ensures
        wound(text, n).len() == text.len(),
{
    lemma_columns_len(text, n, n);
    lemma_offset_step(text.len() as int, n, 0);
}

/// Among the first `k` columns, the letter of column `c` and row `r` stands
/// after the columns before `c`, at place `r` of its own.
pub proof fn lemma_columns_index(text: Seq<char>, n: int, k: int, c: int, r: int)
    requires
        0 <= c < k <= n,
        0 <= r < height(text.len() as int, n, c),
    ensures
        0 <= offset(text.len() as int, n, c) + r < columns(text, n, k).len(),
        columns(text, n, k)[offset(text.len() as int, n, c) + r] == text[r * n + c],
    decreases k,
{
    let len = text.len() as int;
    lemma_columns_len(text, n, k - 1);
    lemma_columns_len(text, n, k);
    lemma_columns_len(text, n, c);
    lemma_offset_step(len, n, k - 1);
    if c < k - 1 {
        lemma_columns_index(text, n, k - 1, c, r);
    }
}

/// The letter at place `j` of a text stands at `slot(j)` once the text is
/// wound round a rod of length `n`.
pub proof fn lemma_wound_slot(text: Seq<char>, n: int, j: int)
    requires
        0 < n,
        0 <= j < text.len(),
    ensures
        0 <= slot(text.len() as int, n, j) < text.len(),
        wound(text, n)[slot(text.len() as int, n, j)] == text[j],
{
    let len = text.len() as int;
    lemma_rows(j, n);
    lemma_height(len, n, j % n, j / n);
    lemma_columns_index(text, n, n, j % n, j / n);
    lemma_wound_len(text, n);
}

/// Unwinding what was wound round a rod of the same length gives the text
/// back, whatever the text and the length of the rod: a rod longer than the
/// text and a last row that is not full are no exceptions.
pub proof fn lemma_unwound_wound(text: Seq<char>, n: int)
    requires
        0 < n,
    ensures
        unwound(wound(text, n), n) == text,
{
    lemma_wound_len(text, n);
    assert forall|j: int| 0 <= j < text.len() implies unwound(wound(text, n), n)[j]
        == text[j] by {
        lemma_wound_slot(text, n, j);
    }
    assert(unwound(wound(text, n), n) =~= text);
}

/// A column at or beyond the end of a text shorter than the rod is empty, so
/// the columns up to the end of the text are all there is.
pub proof fn lemma_columns_beyond(text: Seq<char>, n: int, k: int)
    requires
        text.len() <= k <= n,
        0 < n,
    ensures
        columns(text, n, k) == columns(text, n, text.len() as int),
    decreases k,
{
    let len = text.len() as int;
    if k > len {
        lemma_columns_beyond(text, n, k - 1);
        lemma_height(len, n, k - 1, 0);
        assert(column(text, n, k - 1) =~= Seq::<char>::empty());
        assert(columns(text, n, k) =~= columns(text, n, k - 1));
    }
}

/// The letters met on the way through a text from place `i` on, in steps
/// of `n`.
pub open spec fn strided(text: Seq<char>, n: int, i: int) -> Seq<char>
    decreases
            if i < text.len() {
                text.len() - i
            } else {
                0
            },
{
    if 0 <= i < text.len() && n > 0 {
        seq![text[i]] + strided(text, n, i + n)
    } else {
        Seq::empty()
    }
}

/// The ways through a text in steps of `n` that start at the places before
/// `k`, one after the other.
pub open spec fn traversals(text: Seq<char>, n: int, k: int) -> Seq<char>
    decreases k,
{
    if k <= 0 {
        Seq::empty()
    } else {
        traversals(text, n, k - 1) + strided(text, n, k - 1)
    }
}

/// The way through a text in steps of `n` from row `r` of column `c` on is
/// the rest of that column.
pub proof fn lemma_strided_column(text: Seq<char>, n: int, c: int, r: int)
    requires
        0 <= c < n,
        0 <= r <= height(text.len() as int, n, c),
    ensures
        strided(text, n, r * n + c) == column(text, n, c).skip(r),
    decreases height(text.len() as int, n, c) - r,
{
    let len = text.len() as int;
    lemma_height(len, n, c, r);
    assert(0 <= r * n) by (nonlinear_arith)
        requires
            0 <= r,
            0 < n,
    ;
    if r < height(len, n, c) {
        assert((r + 1) * n + c == r * n + c + n) by (nonlinear_arith);
        lemma_strided_column(text, n, c, r + 1);
        assert(seq![text[r * n + c]] + column(text, n, c).skip(r + 1) =~= column(
            text,
            n,
            c,
        ).skip(r));
    } else {
        assert(column(text, n, c).skip(r) =~= Seq::<char>::empty());
    }
}

/// The ways that start in the first row are the columns.
pub proof fn lemma_traversals_columns(text: Seq<char>, n: int, k: int)
    requires
        0 <= k <= n,
    ensures
        traversals(text, n, k) == columns(text, n, k),
    decreases k,
{
    if k > 0 {
        lemma_traversals_columns(text, n, k - 1);
        lemma_height(text.len() as int, n, k - 1, 0);
        lemma_strided_column(text, n, k - 1, 0);
        assert(column(text, n, k - 1).skip(0) =~= column(text, n, k - 1));
    }
}

/// More starting places only add letters at the end.
pub proof fn lemma_traversals_prefix(text: Seq<char>, n: int, m: int, k: int)
    requires
        0 <= m <= k,
    ensures
        traversals(text, n, m).len() <= traversals(text, n, k).len(),
        traversals(text, n, k).take(traversals(text, n, m).len() as int) == traversals(
            text,
            n,
            m,
        ),
    decreases k,
{
    let short = traversals(text, n, m);
    if m < k {
        lemma_traversals_prefix(text, n, m, k - 1);
        assert(traversals(text, n, k).take(short.len() as int) =~= traversals(text, n, k - 1).take(
            short.len() as int,
        ));
    } else {
        assert(short.take(short.len() as int) =~= short);
    }
}

/// Winding by restarts: going through the text in steps of `n` from every
/// place in turn, the end of the text included, and keeping as many letters
/// as the text has, reads the text off the rod column by column.
pub proof fn lemma_wound_by_restarts(text: Seq<char>, n: int)
    requires
        0 < n,
    ensures
        traversals(text, n, text.len() as int + 1).len() >= text.len(),
        traversals(text, n, text.len() as int + 1).take(text.len() as int) == wound(text, n),
{
    let len = text.len() as int;
    let m = if n < len {
        n
    } else {
        len
    };
    lemma_traversals_columns(text, n, m);
    if m < n {
        lemma_columns_beyond(text, n, n);
    }
    lemma_wound_len(text, n);
    lemma_traversals_prefix(text, n, m, len + 1);
}

/// The diameter is the number of full rows, and one more where a short row
/// follows them.
pub proof fn lemma_diameter(len: nat, n: nat)
    requires
        n > 0,
    ensures
        diameter(len, n) == len / n + if len % n == 0 {
            0nat
        } else {
            1nat
        },
{
    lemma_padding(len, n);
}

/// Reads the text off a rod of length `n`, column by column.
fn wind(text: &Vec<char>, n: usize) -> (r: Vec<char>)
    requires
        n > 0,
    ensures
        r@ == wound(text@, n as int),
{
    let len: usize = text.len();
    let mut out: Vec<char> = Vec::new();
    let mut c: usize = 0;
    while c < n && c < len
        invariant
            len == text.len(),
            c <= n,
            c <= len,
            out@ == columns(text@, n as int, c as int),
        decreases n - c,
    {
        let ghost before = out@;
        let ghost mut row: int = 0;
        let mut j: usize = c;
        proof {
            lemma_height(len as int, n as int, c as int, 0);
            assert(column(text@, n as int, c as int).take(0) =~= Seq::<char>::empty());
            assert(out@ =~= before + column(text@, n as int, c as int).take(0));
        }
        while j < len
            invariant
                len == text.len(),
                c < n,
                j <= len,
                0 <= row <= height(len as int, n as int, c as int),
                j < len ==> j == row * n + c,
                j >= len ==> row == height(len as int, n as int, c as int),
                out@ == before + column(text@, n as int, c as int).take(row),
            decreases len - j,
        {
            proof {
                lemma_height(len as int, n as int, c as int, row);
                lemma_height(len as int, n as int, c as int, row + 1);
                assert((row + 1) * n == row * n + n) by (nonlinear_arith);
                assert(column(text@, n as int, c as int).take(row + 1) =~= column(
                    text@,
                    n as int,
                    c as int,
                ).take(row).push(text@[j as int]));
            }
            out.push(text[j]);
            j = if n < len - j {
                j + n
            } else {
                len
            };
            proof {
                row = row + 1;
                assert(out@ =~= before + column(text@, n as int, c as int).take(row));
            }
        }
        proof {
            assert(column(text@, n as int, c as int).take(row) =~= column(
                text@,
                n as int,
                c as int,
            ));
        }
        c += 1;
    }
    proof {
        if c < n {
            lemma_columns_beyond(text@, n as int, n as int);
        }
    }
    out
}

/// Puts the letters read off a rod of length `n` and of the given diameter
/// back in the order in which they were written.
fn unwind(text: &Vec<char>, n: usize, rows: usize) -> (r: Vec<char>)
    requires
        n > 0,
        rows == diameter(text@.len(), n as nat),
    ensures
        r@ == unwound(text@, n as int),
{
    let len: usize = text.len();
    let short: usize = len % n;
    proof {
        lemma_diameter(len as nat, n as nat);
        lemma_rows(len as int, n as int);
    }
    let full: usize = if short == 0 {
        rows
    } else {
        rows - 1
    };
    let mut out: Vec<char> = Vec::new();
    let mut j: usize = 0;
    while j < len
        invariant
            len == text.len(),
            n > 0,
            j <= len,
            full == (len as int) / (n as int),
            short == (len as int) % (n as int),
            out@ == unwound(text@, n as int).take(j as int),
        decreases len - j,
    {
        let c: usize = j % n;
        let r: usize = j / n;
        proof {
            lemma_wound_slot(text@, n as int, j as int);
            lemma_rows(j as int, n as int);
            assert(0 <= c * full) by (nonlinear_arith)
                requires
                    0 <= c,
                    0 <= full,
            ;
        }
        let k: usize = c * full + (if c < short {
            c
        } else {
            short
        }) + r;
        out.push(text[k]);
        proof {
            assert(unwound(text@, n as int).take(j + 1) =~= unwound(text@, n as int).take(
                j as int,
            ).push(text@[k as int]));
        }
        j += 1;
    }
    proof {
        assert(unwound(text@, n as int).take(len as int) =~= unwound(text@, n as int));
    }
    out
}

impl Scytale {
    #[verifier::type_invariant]
    spec fn positive(self) -> bool {
        self.key > 0
    }

    /// The length of the rod.
    pub closed spec fn key(&self) -> int {
        self.key as int
    }

    /// Creates a new scytale of a certain length. A rod of length zero is
    /// refused.
    pub fn new(key: usize) -> (r: Result<Self, InvalidKey>)
        ensures
            key == 0 <==> r is Err,
            r is Ok ==> r->Ok_0.key() == key,
    {
        if key == 0 {
            Err(InvalidKey)
        } else {
            Ok(Scytale { key })
        }
    }

    /// Computes the diameter of the scytale given its length: the number of
    /// rows that `s` takes once it is padded to whole rows.
    pub fn get_diameter(s: &str, length: usize) -> (d: usize)
        requires
            length > 0,
        ensures
            d == diameter(s@.len(), length as nat),
            d == padded(s@, length as nat, '.').len() / (length as nat),
    {
        let len: usize = s.unicode_len();
        proof {
            lemma_diameter(len as nat, length as nat);
            lemma_rows(len as int, length as int);
            lemma_padding(len as nat, length as nat);
        }
        let q: usize = len / length;
        if len % length == 0 {
            q
        } else {
            proof {
                assert(q < len) by (nonlinear_arith)
                    requires
                        len == q * length + (len as int) % (length as int),
                        0 < (len as int) % (length as int),
                        0 <= q,
                        0 < length,
                ;
            }
            q + 1
        }
    }

    /// Simulates wrapping the parchment around a scytale of length `n` and
    /// reading it column by column.
    pub fn wrap_around_scytale(text: &str, n: usize) -> (r: String)
        requires
            n > 0,
        ensures
            r@ == wound(text@, n as int),
            r@ == traversals(text@, n as int, text@.len() as int + 1).take(text@.len() as int),
    {
        proof {
            lemma_wound_by_restarts(text@, n as int);
        }
        let chars = to_chars(text);
        let out = wind(&chars, n);
        collect(&out)
    }

    /// Takes the parchment off a scytale of length `n`: the text that reads
    /// `text` when it is wrapped around the scytale.
    pub fn unwrap_from_scytale(text: &str, n: usize) -> (r: String)
        requires
            n > 0,
        ensures
            r@ == unwound(text@, n as int),
    {
        let rows = Scytale::get_diameter(text, n);
        let chars = to_chars(text);
        let out = unwind(&chars, n, rows);
        collect(&out)
    }
}

impl Cipher for Scytale {
    /// The text read off the rod column by column.
    open spec fn encrypted(&self, text: Seq<char>) -> Seq<char> {
        wound(text, self.key())
    }

    /// The text that gives `text` when read off the rod.
    open spec fn decrypted(&self, text: Seq<char>) -> Seq<char> {
        unwound(text, self.key())
    }

    /// Normalises the plaintext and winds it round the rod.
    fn encrypt(&self, plaintext: &str) -> (r: String) {
        proof {
            use_type_invariant(self);
        }
        let clean = clean_input(plaintext);
        Scytale::wrap_around_scytale(clean.as_str(), self.key)
    }

    /// Normalises the ciphertext and takes it off the rod.
    fn decrypt(&self, ciphertext: &str) -> (r: String) {
        proof {
            use_type_invariant(self);
        }
        let clean = clean_input(ciphertext);
        Scytale::unwrap_from_scytale(clean.as_str(), self.key)
    }
}

/// Decrypting what was encrypted with the same scytale gives the text back,
/// for every text and every rod.
pub proof fn lemma_scytale_round_trip(c: Scytale, text: Seq<char>)
    requires
        c.key() > 0,
    ensures
        c.decrypted(c.encrypted(text)) == text,
        c.encrypted(text).len() == text.len(),
{
    lemma_unwound_wound(text, c.key());
    lemma_wound_len(text, c.key());
}

/// The columns of a normalised text hold normalised text.
pub proof fn lemma_columns_normal(text: Seq<char>, n: int, k: int)
    requires
        is_normal(text),
        0 <= k <= n,
    ensures
        is_normal(columns(text, n, k)),
    decreases k,
{
    if k > 0 {
        lemma_columns_normal(text, n, k - 1);
        let before = columns(text, n, k - 1);
        let last = column(text, n, k - 1);
        assert forall|i: int| 0 <= i < columns(text, n, k).len() implies is_symbol(
            #[trigger] columns(text, n, k)[i],
        ) by {
            if i < before.len() {
                assert(is_symbol(before[i]));
            } else {
                let r = i - before.len();
                lemma_height(text.len() as int, n, k - 1, r);
                assert(r * n >= 0) by (nonlinear_arith)
                    requires
                        r >= 0,
                        n > 0,
                ;
                assert(is_symbol(text[r * n + (k - 1)]));
            }
        }
    }
}

/// Encrypting any text and decrypting the ciphertext, each with the
/// normalisation that goes before it, gives the normal form of the text.
pub proof fn lemma_scytale_decrypts_encrypted(c: Scytale, text: Seq<char>)
    requires
        c.key() > 0,
    ensures
        c.decrypted(normalized(c.encrypted(normalized(text)))) == normalized(text),
{
    lemma_normalized_is_normal(text);
    lemma_columns_normal(normalized(text), c.key(), c.key());
    lemma_normalized_fixed(c.encrypted(normalized(text)));
    lemma_scytale_round_trip(c, normalized(text));
}

/// On a rod that the text fills to the end of its last row, unwinding is
/// winding round a rod whose length is the diameter.
pub proof fn lemma_unwound_by_diameter(text: Seq<char>, n: int)
    requires
        0 < n,
        (text.len() as int) % n == 0,
    ensures
        unwound(text, n) == wound(text, diameter(text.len(), n as nat) as int),
{
    let len = text.len() as int;
    let d = diameter(text.len(), n as nat) as int;
    lemma_diameter(text.len(), n as nat);
    lemma_rows(len, n);
    assert(len == d * n);
    if d == 0 {
        assert(unwound(text, n) =~= wound(text, d));
    } else {
        assert(len == n * d) by (nonlinear_arith)
            requires
                len == d * n,
        ;
        lemma_fundamental_div_mod_converse(len, d, n, 0);
        lemma_wound_len(text, d);
        assert forall|i: int| 0 <= i < len implies unwound(text, n)[i] == wound(text, d)[i] by {
            let j = slot(len, n, i);
            lemma_rows(i, n);
            lemma_wound_slot(text, n, i);
            assert(j == (i % n) * d + i / n);
            lemma_height(len, n, i % n, i / n);
            lemma_fundamental_div_mod_converse(j, d, i % n, i / n);
            lemma_wound_slot(text, d, j);
            assert(slot(len, d, j) == (i / n) * n + i % n);
        }
        assert(unwound(text, n) =~= wound(text, d));
    }
}

} // verus!
