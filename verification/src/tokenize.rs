//! Splitting text into normalized word tokens.

use unicode_normalization::UnicodeNormalization;
use unicode_segmentation::UnicodeSegmentation;
use vstd::prelude::*;

use crate::text::{chars_of, push_char};

verus! {

/// An ASCII letter.
pub open spec fn is_ascii_letter(b: u8) -> bool {
    (0x41 <= b <= 0x5a) || (0x61 <= b <= 0x7a)
}

/// An ASCII decimal digit.
pub open spec fn is_ascii_digit(b: u8) -> bool {
    0x30 <= b <= 0x39
}

/// An ASCII letter, digit or apostrophe.
pub open spec fn spec_is_word_byte(b: u8) -> bool {
    is_ascii_letter(b) || is_ascii_digit(b) || b == 0x27
}

/// ASCII lowercase of one byte.
pub open spec fn ascii_lower(b: u8) -> u8 {
    if 0x41 <= b <= 0x5a {
        (b + 0x20) as u8
    } else {
        b
    }
}

/// A byte that ASCII words are built from: a letter, a digit or `_` (the
/// UAX #29 classes ALetter, Numeric and ExtendNumLet). Any two such bytes
/// side by side belong to one word (WB5, WB8-WB10, WB13a/b).
pub open spec fn is_core_byte(b: u8) -> bool {
    is_ascii_letter(b) || is_ascii_digit(b) || b == 0x5f
}

/// Whether the byte at `i` holds the bytes around it in one word: `'`, `.`
/// or `:` between two letters (UAX #29 WB6/WB7), or `.`, `,`, `;` or `'`
/// between two digits (WB11/WB12).
pub open spec fn joins_at(b: Seq<u8>, i: int) -> bool {
    &&& 0 < i && i + 1 < b.len()
    &&& {
        ||| (b[i] == 0x27 || b[i] == 0x2e || b[i] == 0x3a) && is_ascii_letter(b[i - 1])
            && is_ascii_letter(b[i + 1])
        ||| (b[i] == 0x2e || b[i] == 0x2c || b[i] == 0x3b || b[i] == 0x27) && is_ascii_digit(
            b[i - 1],
        ) && is_ascii_digit(b[i + 1])
    }
}

/// Whether the byte at `i` belongs to the word that reaches `i - 1`.
pub open spec fn continues_word(b: Seq<u8>, i: int) -> bool {
    is_core_byte(b[i]) || joins_at(b, i)
}

/// The end of the word that reaches `i - 1`: the first index at or after `i`
/// whose byte does not continue it.
pub open spec fn word_end(b: Seq<u8>, i: int) -> int
    decreases b.len() - i,
{
    if i < 0 || i >= b.len() || !continues_word(b, i) {
        i
    } else {
        word_end(b, i + 1)
    }
}

/// The token of one word: lowercased, and kept only when it holds an ASCII
/// letter (words of digits and `_` alone are dropped).
pub open spec fn spec_word_token(w: Seq<u8>) -> Option<Seq<char>> {
    if exists|k: int| 0 <= k < w.len() && is_ascii_letter(#[trigger] w[k]) {
        Some(w.map_values(|x: u8| ascii_lower(x) as char))
    } else {
        None
    }
}

/// Index of the first byte at or after `i` that is not an apostrophe.
pub open spec fn skip_leading_apostrophes(r: Seq<u8>, i: int) -> int
    decreases r.len() - i,
{
    if 0 <= i < r.len() && r[i] == 0x27 {
        skip_leading_apostrophes(r, i + 1)
    } else {
        i
    }
}

/// End of `r[start..j]` once trailing apostrophes are dropped.
pub open spec fn skip_trailing_apostrophes(r: Seq<u8>, start: int, j: int) -> int
    decreases j - start,
{
    if start < j <= r.len() && r[j - 1] == 0x27 {
        skip_trailing_apostrophes(r, start, j - 1)
    } else {
        j
    }
}

/// The token a run of word bytes yields: outer apostrophes stripped, kept only when
/// an ASCII letter remains, and lowercased.
pub open spec fn spec_ascii_normalize(run: Seq<u8>) -> Option<Seq<char>> {
    let s = skip_leading_apostrophes(run, 0);
    let e = skip_trailing_apostrophes(run, s, run.len() as int);
    let core = run.subrange(s, e);
    if s >= e || !(exists|k: int| 0 <= k < core.len() && is_ascii_letter(#[trigger] core[k])) {
        None
    } else {
        Some(core.map_values(|b: u8| ascii_lower(b) as char))
    }
}

/// The tokens of the words of `b` that start at or after `i`. A word starts
/// at a core byte and runs on while bytes continue it; every other byte
/// (space, other punctuation, a byte outside ASCII) stands alone and is no
/// word.
pub open spec fn ascii_tokens_from(b: Seq<u8>, i: int) -> Seq<Seq<char>>
    decreases b.len() - i, 1int,
{
    if i < 0 || i >= b.len() {
        seq![]
    } else if !is_core_byte(b[i]) {
        ascii_tokens_from(b, i + 1)
    } else {
        let e = word_end(b, i + 1);
        if e <= i || e > b.len() {
            seq![]
        } else {
            match spec_word_token(b.subrange(i, e)) {
                Some(t) => seq![t] + ascii_tokens_from(b, e),
                None => ascii_tokens_from(b, e),
            }
        }
    }
}

/// The tokens of the ASCII path over the bytes `b`: the UAX #29 words of
/// ASCII text that hold a letter, lowercased.
pub open spec fn spec_ascii_tokens(b: Seq<u8>) -> Seq<Seq<char>> {
    ascii_tokens_from(b, 0)
}

/// An ASCII letter or digit.
pub open spec fn is_ascii_alnum(b: u8) -> bool {
    is_ascii_letter(b) || is_ascii_digit(b)
}

/// ASCII bytes read as chars.
pub open spec fn bytes_as_chars(w: Seq<u8>) -> Seq<char> {
    w.map_values(|x: u8| x as char)
}

/// The UAX #29 words of the ASCII bytes `b` that start at or after `i`: each
/// run from a core byte to its `word_end`, kept when it holds a letter or a
/// digit. Spaces, line breaks and other punctuation make no word.
pub open spec fn ascii_words_from(b: Seq<u8>, i: int) -> Seq<Seq<char>>
    decreases b.len() - i, 1int,
{
    if i < 0 || i >= b.len() {
        seq![]
    } else if !is_core_byte(b[i]) {
        ascii_words_from(b, i + 1)
    } else {
        let e = word_end(b, i + 1);
        if e <= i || e > b.len() {
            seq![]
        } else if exists|k: int| i <= k < e && is_ascii_alnum(#[trigger] b[k]) {
            seq![bytes_as_chars(b.subrange(i, e))] + ascii_words_from(b, e)
        } else {
            ascii_words_from(b, e)
        }
    }
}

/// The UAX #29 words of ASCII bytes.
pub open spec fn spec_ascii_words(b: Seq<u8>) -> Seq<Seq<char>> {
    ascii_words_from(b, 0)
}

/// ASCII lowercase of one char.
pub open spec fn ascii_lower_char(c: char) -> char {
    if 'A' <= c <= 'Z' {
        ((c as u32) + 0x20) as char
    } else {
        c
    }
}

/// The words that hold an ASCII letter, in order, each ASCII-lowercased.
pub open spec fn lowered_letter_words(words: Seq<Seq<char>>) -> Seq<Seq<char>>
    decreases words.len(),
{
    if words.len() == 0 {
        seq![]
    } else {
        let w = words[0];
        let rest = lowered_letter_words(words.drop_first());
        if exists|k: int| 0 <= k < w.len() && (('A' <= #[trigger] w[k] <= 'Z') || ('a' <= w[k] <= 'z')) {
            seq![w.map_values(|c: char| ascii_lower_char(c))] + rest
        } else {
            rest
        }
    }
}

proof fn lemma_word_end_bounds(b: Seq<u8>, i: int)
    requires
        0 <= i <= b.len(),
    ensures
        i <= word_end(b, i) <= b.len(),
        word_end(b, i) < b.len() ==> !continues_word(b, word_end(b, i)),
        forall|k: int| i <= k < word_end(b, i) ==> continues_word(b, k),
    decreases b.len() - i,
{
    if i < b.len() && continues_word(b, i) {
        lemma_word_end_bounds(b, i + 1);
    }
}

/// A word starts and ends with a core byte, and every byte of it is a core
/// byte or one that joins its neighbours.
proof fn lemma_word_edges(b: Seq<u8>, i: int)
    requires
        0 <= i < b.len(),
        is_core_byte(b[i]),
    ensures
        i < word_end(b, i + 1) <= b.len(),
        is_core_byte(b[word_end(b, i + 1) - 1]),
        forall|k: int| i <= k < word_end(b, i + 1) ==> is_core_byte(#[trigger] b[k]) || joins_at(b, k),
{
    let e = word_end(b, i + 1);
    lemma_word_end_bounds(b, i + 1);
    assert forall|k: int| i <= k < e implies is_core_byte(#[trigger] b[k]) || joins_at(b, k) by {
        if k > i {
            assert(continues_word(b, k));
        }
    }
    if e - 1 > i && !is_core_byte(b[e - 1]) {
        assert(continues_word(b, e - 1));
        assert(joins_at(b, e - 1));
        assert(continues_word(b, e));
    }
}

proof fn lemma_skip_leading_bounds(r: Seq<u8>, i: int)
    requires
        0 <= i <= r.len(),
    ensures
        i <= skip_leading_apostrophes(r, i) <= r.len(),
        skip_leading_apostrophes(r, i) < r.len() ==> r[skip_leading_apostrophes(r, i)] != 0x27,
    decreases r.len() - i,
{
    if i < r.len() && r[i] == 0x27 {
        lemma_skip_leading_bounds(r, i + 1);
    }
}

proof fn lemma_skip_trailing_bounds(r: Seq<u8>, start: int, j: int)
    requires
        0 <= start <= j <= r.len(),
    ensures
        start <= skip_trailing_apostrophes(r, start, j) <= j,
        start < skip_trailing_apostrophes(r, start, j) ==> r[skip_trailing_apostrophes(r, start, j) - 1]
            != 0x27,
    decreases j - start,
{
    if start < j && r[j - 1] == 0x27 {
        lemma_skip_trailing_bounds(r, start, j - 1);
    }
}

/// Whether `b` is an ASCII letter, digit or apostrophe.
pub fn is_ascii_word_byte(b: u8) -> (res: bool)
    ensures
        res == spec_is_word_byte(b),
{
    (0x41 <= b && b <= 0x5a) || (0x61 <= b && b <= 0x7a) || (0x30 <= b && b <= 0x39) || b == 0x27
}

/// Normalizes a run of bytes into a token: outer apostrophes stripped,
/// lowercased, or `None` when no ASCII letter is left.
pub fn ascii_normalize(run: &[u8]) -> (res: Option<String>)
    ensures
        res is Some == spec_ascii_normalize(run@) is Some,
        res matches Some(s) ==> s@ == spec_ascii_normalize(run@)->Some_0,
{
    let mut start: usize = 0;
    let mut end: usize = run.len();
    while start < end && run[start] == 0x27
        invariant
            0 <= start <= end == run.len(),
            skip_leading_apostrophes(run@, start as int) == skip_leading_apostrophes(run@, 0),
        decreases end - start,
    {
        start += 1;
    }
    proof {
        lemma_skip_leading_bounds(run@, start as int);
    }
    let ghost s0 = start as int;
    while end > start && run[end - 1] == 0x27
        invariant
            s0 == start,
            start <= end <= run.len(),
            skip_trailing_apostrophes(run@, s0, end as int) == skip_trailing_apostrophes(
                run@,
                s0,
                run@.len() as int,
            ),
        decreases end - start,
    {
        end -= 1;
    }
    if start == end {
        return None;
    }
    let slice = &run[start..end];
    let ghost core = run@.subrange(start as int, end as int);
    assert(slice@ == core);
    let mut has_letter = false;
    let mut k: usize = 0;
    while k < slice.len()
        invariant
            slice@ == core,
            k <= slice.len(),
            has_letter == (exists|m: int| 0 <= m < k && is_ascii_letter(#[trigger] core[m])),
        decreases slice.len() - k,
    {
        let b = slice[k];
        if (0x41 <= b && b <= 0x5a) || (0x61 <= b && b <= 0x7a) {
            has_letter = true;
        }
        k += 1;
    }
    if !has_letter {
        return None;
    }
    let mut s = String::new();
    let mut k: usize = 0;
    while k < slice.len()
        invariant
            slice@ == core,
            k <= slice.len(),
            s@ == core.subrange(0, k as int).map_values(|b: u8| ascii_lower(b) as char),
        decreases slice.len() - k,
    {
        let b = slice[k];
        let lower = if 0x41 <= b && b <= 0x5a {
            assert(b | 0x20 == b + 0x20) by (bit_vector)
                requires
                    0x41 <= b <= 0x5a,
            ;
            b | 0x20
        } else {
            b
        };
        push_char(&mut s, lower as char);
        proof {
            assert(core.subrange(0, k + 1) =~= core.subrange(0, k as int).push(b));
        }
        assert(s@ =~= core.subrange(0, (k + 1) as int).map_values(|b: u8| ascii_lower(b) as char));
        k += 1;
    }
    assert(core.subrange(0, core.len() as int) =~= core);
    Some(s)
}

fn is_core(b: u8) -> (res: bool)
    ensures
        res == is_core_byte(b),
{
    (0x41 <= b && b <= 0x5a) || (0x61 <= b && b <= 0x7a) || (0x30 <= b && b <= 0x39) || b == 0x5f
}

fn joins(bytes: &[u8], i: usize) -> (res: bool)
    ensures
        res == joins_at(bytes@, i as int),
{
    if i == 0 || i >= bytes.len() || bytes.len() - i < 2 {
        return false;
    }
    let c = bytes[i];
    let p = bytes[i - 1];
    let n = bytes[i + 1];
    let p_letter = (0x41 <= p && p <= 0x5a) || (0x61 <= p && p <= 0x7a);
    let n_letter = (0x41 <= n && n <= 0x5a) || (0x61 <= n && n <= 0x7a);
    let p_digit = 0x30 <= p && p <= 0x39;
    let n_digit = 0x30 <= n && n <= 0x39;
    ((c == 0x27 || c == 0x2e || c == 0x3a) && p_letter && n_letter) || ((c == 0x2e || c == 0x2c
        || c == 0x3b || c == 0x27) && p_digit && n_digit)
}

/// On a word, which starts and ends with a core byte, `ascii_normalize`
/// strips nothing and gives the word's token.
proof fn lemma_normalize_word(w: Seq<u8>)
    requires
        w.len() > 0,
        is_core_byte(w[0]),
        is_core_byte(w[w.len() - 1]),
    ensures
        spec_ascii_normalize(w) == spec_word_token(w),
{
    assert(skip_leading_apostrophes(w, 0) == 0);
    assert(skip_trailing_apostrophes(w, 0, w.len() as int) == w.len());
    assert(w.subrange(0, w.len() as int) =~= w);
}

/// Splits ASCII text into tokens along the UAX #29 word rules for ASCII: a
/// word is a run of letters, digits and `_`, also held together by `'`, `.`
/// or `:` between two letters and by `.`, `,`, `;` or `'` between two
/// digits. Words with a letter become tokens, lowercased. Bytes outside ASCII
/// never belong to a word here.
pub fn tokenize_ascii(input: &str) -> (res: Vec<String>)
    ensures
        res.deep_view() == spec_ascii_tokens(vstd::utf8::encode_utf8(input@)),
{
    let bytes = input.as_bytes();
    let ghost b = bytes@;
    let mut out: Vec<String> = Vec::new();
    let mut i: usize = 0;
    while i < bytes.len()
        invariant
            bytes@ == b,
            i <= b.len(),
            out.deep_view() + ascii_tokens_from(b, i as int) == ascii_tokens_from(b, 0),
        decreases b.len() - i,
    {
        if is_core(bytes[i]) {
            let start = i;
            i += 1;
            while i < bytes.len() && (is_core(bytes[i]) || joins(bytes, i))
                invariant
                    bytes@ == b,
                    start < i <= b.len(),
                    word_end(b, i as int) == word_end(b, start + 1),
                decreases b.len() - i,
            {
                i += 1;
            }
            proof {
                lemma_word_edges(b, start as int);
                lemma_word_end_bounds(b, i as int);
                lemma_normalize_word(b.subrange(start as int, i as int));
            }
            assert(word_end(b, start + 1) == i);
            let ghost before = out.deep_view();
            if let Some(word) = ascii_normalize(&bytes[start..i]) {
                out.push(word);
                assert(out.deep_view() =~= before.push(word@));
                assert(before.push(word@) + ascii_tokens_from(b, i as int) =~= before + (seq![word@]
                    + ascii_tokens_from(b, i as int)));
            }
        } else {
            i += 1;
        }
    }
    out
}

/// The UAX #29 words of a text, as `unicode_segmentation` splits them.
pub uninterp spec fn spec_unicode_words(text: Seq<char>) -> Seq<Seq<char>>;

/// The NFKC normal form of a text, as `unicode_normalization` computes it.
pub uninterp spec fn spec_nfkc(text: Seq<char>) -> Seq<char>;

/// The chars of the Unicode default lowercase mapping of `c`.
pub uninterp spec fn spec_to_lowercase(c: char) -> Seq<char>;

/// Whether `c` has the Unicode `Alphabetic` property.
pub uninterp spec fn spec_is_alphabetic(c: char) -> bool;

/// Splits `text` on UAX #29 word boundaries and keeps the words.
///
/// Calls `UnicodeSegmentation::unicode_words`; the result, each word copied
/// into a `String`, is the name `spec_unicode_words` applied to the text.
/// For ASCII text the crate takes its own ASCII path (`new_unicode_words_ascii`
/// in its `word.rs`): runs that start at a letter, digit or `_` and go on
/// over such bytes and over `'`, `.`, `:` between letters and `.`, `,`, `;`,
/// `'` between digits, kept when they hold a letter or digit. The contract
/// says that those words are `spec_ascii_words` of the text's bytes.
#[verifier::external_body]
pub(crate) fn unicode_words(text: &str) -> (res: Vec<String>)
    ensures
        res.deep_view() == spec_unicode_words(text@),
        vstd::utf8::is_ascii_chars(text@) ==> res.deep_view() == spec_ascii_words(
            vstd::utf8::encode_utf8(text@),
        ),
{
    text.unicode_words().map(String::from).collect()
}

/// The NFKC form of `text`, char by char.
///
/// Calls `UnicodeNormalization::nfkc`; the chars it yields are the name
/// `spec_nfkc` applied to the text.
#[verifier::external_body]
fn nfkc_chars(text: &str) -> (res: Vec<char>)
    ensures
        res@ == spec_nfkc(text@),
{
    text.nfkc().collect()
}

/// The Unicode default lowercase mapping of one char.
///
/// Calls `char::to_lowercase`; the chars it yields are the name
/// `spec_to_lowercase` applied to `c`.
#[verifier::external_body]
fn to_lowercase_chars(c: char) -> (res: Vec<char>)
    ensures
        res@ == spec_to_lowercase(c),
{
    c.to_lowercase().collect()
}

/// Whether `c` is alphabetic.
///
/// Calls `char::is_alphabetic`; the result is the name `spec_is_alphabetic`
/// applied to `c`.
#[verifier::external_body]
fn is_alphabetic(c: char) -> (res: bool)
    ensures
        res == spec_is_alphabetic(c),
{
    c.is_alphabetic()
}

/// The lowercase mappings of all chars of `s`, concatenated in order.
pub open spec fn spec_lowercase_all(s: Seq<char>) -> Seq<char>
    decreases s.len(),
{
    if s.len() == 0 {
        seq![]
    } else {
        spec_lowercase_all(s.drop_last()) + spec_to_lowercase(s.last())
    }
}

/// NFKC followed by Unicode default lowercase.
pub open spec fn spec_normalize(word: Seq<char>) -> Seq<char> {
    spec_lowercase_all(spec_nfkc(word))
}

/// Whether some char of `w` is alphabetic.
pub open spec fn spec_has_alphabetic(w: Seq<char>) -> bool {
    exists|k: int| 0 <= k < w.len() && spec_is_alphabetic(#[trigger] w[k])
}

/// The tokens the Unicode path makes of a list of words: words with an
/// alphabetic char, normalized, dropping those that normalize to nothing.
pub open spec fn spec_unicode_tokens(words: Seq<Seq<char>>) -> Seq<Seq<char>>
    decreases words.len(),
{
    if words.len() == 0 {
        seq![]
    } else {
        let prev = spec_unicode_tokens(words.drop_last());
        let w = words.last();
        if spec_has_alphabetic(w) && spec_normalize(w).len() > 0 {
            prev.push(spec_normalize(w))
        } else {
            prev
        }
    }
}

/// The tokens of a text: the ASCII path for ASCII input, the Unicode path otherwise.
pub open spec fn spec_tokenize(text: Seq<char>) -> Seq<Seq<char>> {
    if vstd::utf8::is_ascii_chars(text) {
        spec_ascii_tokens(vstd::utf8::encode_utf8(text))
    } else {
        spec_unicode_tokens(spec_unicode_words(text))
    }
}

/// NFKC-normalizes a word and lowercases it with the Unicode default mapping,
/// which keeps Turkish `İ`/`I`/`ı`/`i` apart.
pub fn normalize(word: &str) -> (res: String)
    ensures
        res@ == spec_normalize(word@),
{
    let nf = nfkc_chars(word);
    let mut out = String::new();
    let mut i: usize = 0;
    while i < nf.len()
        invariant
            i <= nf.len(),
            nf@ == spec_nfkc(word@),
            out@ == spec_lowercase_all(nf@.subrange(0, i as int)),
        decreases nf.len() - i,
    {
        let lower = to_lowercase_chars(nf[i]);
        let ghost before = out@;
        let mut j: usize = 0;
        while j < lower.len()
            invariant
                j <= lower.len(),
                out@ == before + lower@.subrange(0, j as int),
            decreases lower.len() - j,
        {
            push_char(&mut out, lower[j]);
            assert(out@ =~= before + lower@.subrange(0, (j + 1) as int));
            j += 1;
        }
        assert(lower@.subrange(0, j as int) =~= lower@);
        assert(nf@.subrange(0, (i + 1) as int).drop_last() =~= nf@.subrange(0, i as int));
        i += 1;
    }
    assert(nf@.subrange(0, nf.len() as int) =~= nf@);
    out
}

pub fn has_alphabetic(w: &str) -> (res: bool)
    ensures
        res == spec_has_alphabetic(w@),
{
    let cs = chars_of(w);
    let mut k: usize = 0;
    while k < cs.len()
        invariant
            cs@ == w@,
            k <= cs.len(),
            forall|m: int| 0 <= m < k ==> !spec_is_alphabetic(#[trigger] cs@[m]),
        decreases cs.len() - k,
    {
        if is_alphabetic(cs[k]) {
            return true;
        }
        k += 1;
    }
    false
}

/// Tokenizes and normalizes text. ASCII input takes the fast path of
/// [`tokenize_ascii`], which follows the UAX #29 word rules for ASCII;
/// other input is split on UAX #29 word boundaries, words without an
/// alphabetic char are dropped, and the rest are NFKC-normalized and
/// lowercased.
pub fn tokenize(input: &str) -> (res: Vec<String>)
    ensures
        res.deep_view() == spec_tokenize(input@),
{
    if input.is_ascii() {
        return tokenize_ascii(input);
    }
    let words = unicode_words(input);
    let ghost ws = words.deep_view();
    let mut out: Vec<String> = Vec::new();
    let mut i: usize = 0;
    while i < words.len()
        invariant
            i <= words.len(),
            words.deep_view() == ws,
            ws == spec_unicode_words(input@),
            out.deep_view() == spec_unicode_tokens(ws.subrange(0, i as int)),
        decreases words.len() - i,
    {
        let w = words[i].as_str();
        assert(w@ == ws[i as int]);
        assert(ws.subrange(0, (i + 1) as int).drop_last() =~= ws.subrange(0, i as int));
        if has_alphabetic(w) {
            let n = normalize(w);
            if !n.as_str().is_empty() {
                let ghost before = out.deep_view();
                out.push(n);
                assert(out.deep_view() =~= before.push(n@));
            }
        }
        i += 1;
    }
    assert(ws.subrange(0, words.len() as int) =~= ws);
    out
}

/// A char a token of the ASCII path may hold: a lowercase letter, a digit,
/// `_`, or one of the joining chars `'`, `.`, `:`, `,`, `;`.
pub open spec fn ascii_token_char(c: char) -> bool {
    ('a' <= c <= 'z') || ('0' <= c <= '9') || c == '_' || c == '\'' || c == '.' || c == ':' || c
        == ',' || c == ';'
}

/// A lowercase letter, a digit or `_`.
pub open spec fn ascii_token_core(c: char) -> bool {
    ('a' <= c <= 'z') || ('0' <= c <= '9') || c == '_'
}

/// What every token of the ASCII path looks like: not empty, made of
/// lowercase letters, digits, `_` and joining chars, starting and ending
/// with a letter, digit or `_`, and holding at least one letter.
pub open spec fn ascii_token_shape(t: Seq<char>) -> bool {
    &&& t.len() > 0
    &&& ascii_token_core(t[0]) && ascii_token_core(t.last())
    &&& forall|k: int| 0 <= k < t.len() ==> ascii_token_char(#[trigger] t[k])
    &&& exists|k: int| 0 <= k < t.len() && 'a' <= #[trigger] t[k] <= 'z'
}

proof fn lemma_word_token_shape(b: Seq<u8>, i: int)
    requires
        0 <= i < b.len(),
        is_core_byte(b[i]),
    ensures
        spec_word_token(b.subrange(i, word_end(b, i + 1))) matches Some(t) ==> ascii_token_shape(t),
{
    let e = word_end(b, i + 1);
    lemma_word_edges(b, i);
    let w = b.subrange(i, e);
    if let Some(t) = spec_word_token(w) {
        assert(t == w.map_values(|x: u8| ascii_lower(x) as char));
        assert forall|k: int| 0 <= k < t.len() implies ascii_token_char(#[trigger] t[k]) by {
            assert(is_core_byte(b[i + k]) || joins_at(b, i + k));
        }
        let k = choose|k: int| 0 <= k < w.len() && is_ascii_letter(#[trigger] w[k]);
        assert('a' <= t[k] <= 'z');
        assert(t[0] == ascii_lower(b[i]) as char);
        assert(t.last() == ascii_lower(b[e - 1]) as char);
    }
}

proof fn lemma_tokens_from_shape(b: Seq<u8>, i: int)
    requires
        0 <= i <= b.len(),
    ensures
        forall|k: int|
            0 <= k < ascii_tokens_from(b, i).len() ==> ascii_token_shape(
                #[trigger] ascii_tokens_from(b, i)[k],
            ),
    decreases b.len() - i,
{
    if i < b.len() {
        if !is_core_byte(b[i]) {
            lemma_tokens_from_shape(b, i + 1);
            assert(ascii_tokens_from(b, i) == ascii_tokens_from(b, i + 1));
        } else {
            let e = word_end(b, i + 1);
            lemma_word_edges(b, i);
            lemma_tokens_from_shape(b, e);
            lemma_word_token_shape(b, i);
            if let Some(t) = spec_word_token(b.subrange(i, e)) {
                let rest = ascii_tokens_from(b, e);
                assert(ascii_tokens_from(b, i) == seq![t] + rest);
                assert forall|k: int| 0 <= k < ascii_tokens_from(b, i).len() implies ascii_token_shape(
                    #[trigger] ascii_tokens_from(b, i)[k],
                ) by {
                    if k > 0 {
                        assert(ascii_tokens_from(b, i)[k] == rest[k - 1]);
                    }
                }
            } else {
                assert(ascii_tokens_from(b, i) == ascii_tokens_from(b, e));
            }
        }
    }
}

/// Every token of the ASCII path is lowercase, not empty, holds an ASCII
/// letter (numbers alone are dropped) and starts and ends with a letter, a
/// digit or `_`.
pub proof fn lemma_ascii_tokens_shape(b: Seq<u8>)
    ensures
        forall|k: int|
            0 <= k < spec_ascii_tokens(b).len() ==> ascii_token_shape(
                #[trigger] spec_ascii_tokens(b)[k],
            ),
{
    lemma_tokens_from_shape(b, 0);
}

proof fn lemma_no_letters_from(b: Seq<u8>, i: int)
    requires
        0 <= i <= b.len(),
        forall|k: int| 0 <= k < b.len() ==> !is_ascii_letter(#[trigger] b[k]),
    ensures
        ascii_tokens_from(b, i) == Seq::<Seq<char>>::empty(),
    decreases b.len() - i,
{
    if i < b.len() {
        if !is_core_byte(b[i]) {
            lemma_no_letters_from(b, i + 1);
        } else {
            let e = word_end(b, i + 1);
            lemma_word_edges(b, i);
            lemma_no_letters_from(b, e);
            let w = b.subrange(i, e);
            assert forall|k: int| 0 <= k < w.len() implies !is_ascii_letter(#[trigger] w[k]) by {
                assert(w[k] == b[i + k]);
            }
        }
    }
}

/// Text without ASCII letters (blank, punctuation, numbers) has no tokens on
/// the ASCII path.
pub proof fn lemma_no_letters_no_tokens(b: Seq<u8>)
    requires
        forall|k: int| 0 <= k < b.len() ==> !is_ascii_letter(#[trigger] b[k]),
    ensures
        spec_ascii_tokens(b) == Seq::<Seq<char>>::empty(),
{
    lemma_no_letters_from(b, 0);
}

proof fn lemma_word_chars(w: Seq<u8>)
    ensures
        (exists|k: int| 0 <= k < w.len() && is_ascii_letter(#[trigger] w[k])) == (exists|k: int|
            0 <= k < bytes_as_chars(w).len() && (('A' <= #[trigger] bytes_as_chars(w)[k] <= 'Z') || (
            'a' <= bytes_as_chars(w)[k] <= 'z'))),
        bytes_as_chars(w).map_values(|c: char| ascii_lower_char(c)) == w.map_values(
            |x: u8| ascii_lower(x) as char,
        ),
{
    let cs = bytes_as_chars(w);
    assert forall|k: int| 0 <= k < w.len() implies (cs[k] as u32) == (w[k] as u32) by {
        assert(cs[k] == w[k] as char);
    }
    if exists|k: int| 0 <= k < w.len() && is_ascii_letter(#[trigger] w[k]) {
        let k = choose|k: int| 0 <= k < w.len() && is_ascii_letter(#[trigger] w[k]);
        assert(('A' <= cs[k] <= 'Z') || ('a' <= cs[k] <= 'z'));
    }
    if exists|k: int| 0 <= k < cs.len() && (('A' <= #[trigger] cs[k] <= 'Z') || ('a' <= cs[k] <= 'z')) {
        let k = choose|k: int| 0 <= k < cs.len() && (('A' <= #[trigger] cs[k] <= 'Z') || ('a' <= cs[k] <= 'z'));
        assert(is_ascii_letter(w[k]));
    }
    assert(cs.map_values(|c: char| ascii_lower_char(c)) =~= w.map_values(|x: u8| ascii_lower(x) as char));
}

proof fn lemma_tokens_are_words_from(b: Seq<u8>, i: int)
    requires
        0 <= i <= b.len(),
    ensures
        ascii_tokens_from(b, i) == lowered_letter_words(ascii_words_from(b, i)),
    decreases b.len() - i,
{
    if i < b.len() {
        if !is_core_byte(b[i]) {
            lemma_tokens_are_words_from(b, i + 1);
        } else {
            let e = word_end(b, i + 1);
            lemma_word_edges(b, i);
            lemma_tokens_are_words_from(b, e);
            let w = b.subrange(i, e);
            lemma_word_chars(w);
            let rest = ascii_words_from(b, e);
            if exists|k: int| i <= k < e && is_ascii_alnum(#[trigger] b[k]) {
                let ws = seq![bytes_as_chars(w)] + rest;
                assert(ws[0] == bytes_as_chars(w));
                assert(ws.drop_first() =~= rest);
            } else {
                assert forall|k: int| 0 <= k < w.len() implies !is_ascii_letter(#[trigger] w[k]) by {
                    assert(w[k] == b[i + k]);
                    assert(!is_ascii_alnum(b[i + k]));
                }
            }
            if exists|k: int| 0 <= k < w.len() && is_ascii_letter(#[trigger] w[k]) {
                let k = choose|k: int| 0 <= k < w.len() && is_ascii_letter(#[trigger] w[k]);
                assert(is_ascii_alnum(b[i + k]));
            }
        }
    }
}

/// The tokens of the ASCII path are exactly the UAX #29 words of the text
/// (`spec_ascii_words`, which `unicode_words` yields for ASCII text) that
/// hold a letter, each lowercased: the fast path and the Unicode path split
/// ASCII text into the same words.
pub proof fn lemma_ascii_tokens_are_uax29_words(b: Seq<u8>)
    ensures
        spec_ascii_tokens(b) == lowered_letter_words(spec_ascii_words(b)),
{
    lemma_tokens_are_words_from(b, 0);
}

/// The words the Unicode path keeps: some char is alphabetic (at any
/// position) and the normal form is not empty.
pub open spec fn keeps_word(w: Seq<char>) -> bool {
    (exists|k: int| 0 <= k < w.len() && spec_is_alphabetic(#[trigger] w[k])) && spec_normalize(w).len()
        > 0
}

proof fn lemma_unicode_tokens_filter_map(words: Seq<Seq<char>>)
    ensures
        spec_unicode_tokens(words) == words.filter(|w: Seq<char>| keeps_word(w)).map_values(
            |w: Seq<char>| spec_normalize(w),
        ),
    decreases words.len(),
{
    reveal(Seq::filter);
    if words.len() > 0 {
        lemma_unicode_tokens_filter_map(words.drop_last());
        let f = words.drop_last().filter(|w: Seq<char>| keeps_word(w));
        if keeps_word(words.last()) {
            assert(f.push(words.last()).map_values(|w: Seq<char>| spec_normalize(w)) =~= f.map_values(
                |w: Seq<char>| spec_normalize(w),
            ).push(spec_normalize(words.last())));
        }
    } else {
        assert(words.filter(|w: Seq<char>| keeps_word(w)) =~= words);
        assert(spec_unicode_tokens(words) =~= words.filter(|w: Seq<char>| keeps_word(w)).map_values(
            |w: Seq<char>| spec_normalize(w),
        ));
    }
}

/// On text that is not all ASCII, the tokens are the UAX #29 words that hold
/// an alphabetic char anywhere and do not normalize to nothing, each
/// normalized, in order.
pub proof fn lemma_unicode_path_tokens(text: Seq<char>)
    requires
        !vstd::utf8::is_ascii_chars(text),
    ensures
        spec_tokenize(text) == spec_unicode_words(text).filter(
            |w: Seq<char>|
                (exists|k: int| 0 <= k < w.len() && spec_is_alphabetic(#[trigger] w[k]))
                    && spec_normalize(w).len() > 0,
        ).map_values(|w: Seq<char>| spec_normalize(w)),
{
    lemma_unicode_tokens_filter_map(spec_unicode_words(text));
    assert((|w: Seq<char>| keeps_word(w)) =~= (|w: Seq<char>|
        (exists|k: int| 0 <= k < w.len() && spec_is_alphabetic(#[trigger] w[k]))
            && spec_normalize(w).len() > 0));
}

} // verus!
