use vstd::arithmetic::div_mod::*;
use vstd::prelude::*;
use vstd::string::*;
use vstd::utf8::encode_utf8;

use crate::numeric::{lemma_wrapping_add_u64, u64_modulus};

verus! {

/// Returns a greeting that embeds `name` as it is.
pub fn greet(name: &str) -> (r: String)
    ensures
        r@ == "Hello, "@ + name@ + "! Greetings from Rust and WebAssembly \u{1F980}"@,
{
    let mut r = String::from_str("Hello, ");
    r.append(name);
    r.append("! Greetings from Rust and WebAssembly \u{1F980}");
    r
}

/// The djb2 hash of `bytes` over the integers: start from 5381 and, for each
/// byte in order, multiply by 33 and add the byte.
pub open spec fn djb2(bytes: Seq<u8>) -> nat
    decreases bytes.len(),
{
    if bytes.len() == 0 {
        5381
    } else {
        djb2(bytes.drop_last()) * 33 + bytes.last() as nat
    }
}

/// Returns the djb2 hash of the UTF-8 bytes of `input`, modulo 2^64.
pub fn hash_string(input: &str) -> (r: u64)
    ensures
        r as int == (djb2(encode_utf8(input@)) as int) % u64_modulus(),
{
    let bytes = input.as_bytes();
    let mut hash: u64 = 5381;
    let mut i: usize = 0;
    proof {
        lemma_small_mod(5381, u64_modulus() as nat);
        assert(bytes@.subrange(0, 0) =~= Seq::<u8>::empty());
    }
    while i < bytes.len()
        invariant
            i <= bytes@.len(),
            bytes@ == encode_utf8(input@),
            hash as int == (djb2(bytes@.subrange(0, i as int)) as int) % u64_modulus(),
        decreases bytes@.len() - i,
    {
        let b = bytes[i];
        let ghost prefix = bytes@.subrange(0, i as int);
        let ghost h = djb2(prefix) as int;
        let m = hash.wrapping_mul(33);
        proof {
            lemma_mul_mod_noop_left(h, 33, u64_modulus());
            lemma_small_mod(b as nat, u64_modulus() as nat);
            lemma_wrapping_add_u64(m, b as u64, h * 33, b as int);
            assert(bytes@.subrange(0, i + 1).drop_last() =~= prefix);
        }
        hash = m.wrapping_add(b as u64);
        i = i + 1;
    }
    proof {
        assert(bytes@.subrange(0, i as int) =~= bytes@);
    }
    hash
}

/// Returns the number of bytes in the UTF-8 encoding of `text`.
pub fn utf8_byte_count(text: &str) -> (r: usize)
    ensures
        r == encode_utf8(text@).len(),
{
    text.as_bytes().len()
}

/// Returns the number of Unicode scalar values in `text`.
pub fn unicode_char_count(text: &str) -> (r: usize)
    ensures
        r == text@.len(),
{
    text.unicode_len()
}


/// Unicode's White_Space property.
pub open spec fn white_space(c: char) -> bool {
    let v = c as u32;
    (0x9 <= v <= 0xD) || v == 0x20 || v == 0x85 || v == 0xA0 || v == 0x1680 || (0x2000 <= v
        <= 0x200A) || v == 0x2028 || v == 0x2029 || v == 0x202F || v == 0x205F || v == 0x3000
}

/// Relies on `char::is_whitespace`, which is true exactly of the characters
/// that have Unicode's White_Space property.
#[verifier::external_body]
fn is_white_space(c: char) -> (r: bool)
    ensures
        r == white_space(c),
{
    c.is_whitespace()
}

/// The number of words in `s`: maximal runs of characters that are not
/// white space. Each word is counted at its first character.
pub open spec fn word_count_of(s: Seq<char>) -> nat
    decreases s.len(),
{
    if s.len() == 0 {
        0
    } else {
        let starts_word = !white_space(s.last()) && (s.len() == 1 || white_space(
            s[s.len() - 2],
        ));
        word_count_of(s.drop_last()) + if starts_word {
            1nat
        } else {
            0nat
        }
    }
}

/// The number of `'\n'` characters in `s`.
pub open spec fn newline_count(s: Seq<char>) -> nat
    decreases s.len(),
{
    if s.len() == 0 {
        0
    } else {
        newline_count(s.drop_last()) + if s.last() == '\n' {
            1nat
        } else {
            0nat
        }
    }
}

proof fn lemma_newline_count_bound(s: Seq<char>)
    ensures
        newline_count(s) <= s.len(),
    decreases s.len(),
{
    if s.len() > 0 {
        lemma_newline_count_bound(s.drop_last());
    }
}

/// The number of lines in `s`: each `'\n'` ends one, and a last line without
/// a terminator counts too; the empty text has none. A `'\r'` before a `'\n'`
/// belongs to the terminator and does not change the count.
pub open spec fn line_count_of(s: Seq<char>) -> nat {
    if s.len() == 0 {
        0
    } else if s.last() == '\n' {
        newline_count(s)
    } else {
        newline_count(s) + 1
    }
}

/// Counts that describe one text.
pub struct StringAnalysis {
    pub byte_count: usize,
    pub char_count: usize,
    pub word_count: usize,
    pub line_count: usize,
}

impl StringAnalysis {
    /// A text always counts as at least one line.
    pub open spec fn wf(&self) -> bool {
        self.line_count >= 1
    }

    /// The four counts are those of the text `s`, with at least one line.
    pub open spec fn describes(&self, s: Seq<char>) -> bool {
        &&& self.byte_count == encode_utf8(s).len()
        &&& self.char_count == s.len()
        &&& self.word_count == word_count_of(s)
        &&& self.line_count == if line_count_of(s) == 0 {
            1
        } else {
            line_count_of(s)
        }
    }

    /// The analysis of the empty text.
    pub fn new() -> (r: StringAnalysis)
        ensures
            r.describes(Seq::empty()),
            r.wf(),
    {
        StringAnalysis { byte_count: 0, char_count: 0, word_count: 0, line_count: 1 }
    }
}

/// Counts the bytes, characters, words and lines of `text`.
pub fn analyze_string(text: &str) -> (r: StringAnalysis)
    ensures
        r.describes(text@),
        r.wf(),
{
    let byte_count = text.as_bytes().len();
    let char_count = text.unicode_len();
    let mut words: usize = 0;
    let mut newlines: usize = 0;
    let mut after_space = true;
    let mut ends_with_newline = false;
    for c in it: text.chars()
        invariant
            it.seq() == text@,
            char_count == text@.len(),
            words <= it.index(),
            newlines <= it.index(),
            words == word_count_of(text@.take(it.index())),
            newlines == newline_count(text@.take(it.index())),
            after_space == (it.index() == 0 || white_space(text@[it.index() - 1])),
            ends_with_newline == (it.index() > 0 && text@[it.index() - 1] == '\n'),
    {
        let ghost k = it.index();
        proof {
            assert(text@.take(k + 1).drop_last() =~= text@.take(k));
        }
        let space = is_white_space(c);
        if !space && after_space {
            words = words + 1;
        }
        if c == '\n' {
            newlines = newlines + 1;
        }
        after_space = space;
        ends_with_newline = c == '\n';
    }
    proof {
        assert(text@.take(text@.len() as int) =~= text@);
        if char_count > 0 {
            lemma_newline_count_bound(text@.drop_last());
        }
    }
    let lines = if char_count == 0 {
        0
    } else if ends_with_newline {
        newlines
    } else {
        newlines + 1
    };
    let line_count = if lines == 0 {
        1
    } else {
        lines
    };
    StringAnalysis { byte_count, char_count, word_count: words, line_count }
}


/// The hash reads the text byte by byte: the hash of a byte sequence with one
/// more byte `b` at its end is the previous hash times 33 plus `b`, modulo
/// 2^64, whatever characters the bytes encode.
pub proof fn lemma_hash_step(bytes: Seq<u8>, b: u8)
    ensures
        (djb2(bytes.push(b)) as int) % u64_modulus() == ((djb2(bytes) as int) % u64_modulus() * 33
            + b) % u64_modulus(),
{
    let h = djb2(bytes) as int;
    let m = u64_modulus();
    assert(bytes.push(b).drop_last() =~= bytes);
    lemma_mul_mod_noop_left(h, 33, m);
    lemma_add_mod_noop((h % m) * 33, b as int, m);
    lemma_add_mod_noop(h * 33, b as int, m);
}

} // verus!
