//! Small verified helpers on strings and bytes.

use vstd::prelude::*;

verus! {

broadcast use vstd::utf8::group_utf8_lib;

/// Two char sequences are equal exactly when their UTF-8 encodings are.
pub proof fn lemma_encode_utf8_injective(a: Seq<char>, b: Seq<char>)
    ensures
        (vstd::utf8::encode_utf8(a) == vstd::utf8::encode_utf8(b)) == (a == b),
{
    vstd::utf8::encode_utf8_decode_utf8(a);
    vstd::utf8::encode_utf8_decode_utf8(b);
}

/// Compares two byte slices element by element.
pub fn bytes_eq(a: &[u8], b: &[u8]) -> (res: bool)
    ensures
        res == (a@ == b@),
{
    if a.len() != b.len() {
        return false;
    }
    let mut i: usize = 0;
    while i < a.len()
        invariant
            a.len() == b.len(),
            i <= a.len(),
            forall|j: int| 0 <= j < i ==> a@[j] == b@[j],
        decreases a.len() - i,
    {
        if a[i] != b[i] {
            return false;
        }
        i += 1;
    }
    assert(a@ =~= b@);
    true
}

/// String equality, decided on the UTF-8 bytes.
pub fn str_eq(a: &str, b: &str) -> (res: bool)
    ensures
        res == (a@ == b@),
{
    let r = bytes_eq(a.as_bytes(), b.as_bytes());
    proof {
        lemma_encode_utf8_injective(a@, b@);
    }
    r
}

/// Appends one char to a string.
///
/// Calls `String::push`, whose documentation says it appends the given char
/// to the end of the string; the contract states exactly that.
#[verifier::external_body]
pub(crate) fn push_char(s: &mut String, c: char)
    ensures
        final(s)@ == old(s)@.push(c),
{
    s.push(c)
}

/// The chars of a string, in order.
pub fn chars_of(s: &str) -> (res: Vec<char>)
    ensures
        res@ == s@,
{
    let mut out: Vec<char> = Vec::new();
    for c in it: s.chars()
        invariant
            out@ == it.seq().take(it.index() as int),
    {
        out.push(c);
    }
    out
}

/// Whether `c` has the Unicode `White_Space` property (the chars for which
/// `char::is_whitespace` holds): tab through carriage return, space, next
/// line, no-break space, ogham space mark, the spaces U+2000 to U+200A, line
/// and paragraph separators, narrow no-break space, medium mathematical space
/// and ideographic space.
pub open spec fn spec_is_whitespace(c: char) -> bool {
    let v = c as u32;
    ||| 0x09 <= v <= 0x0d
    ||| v == 0x20
    ||| v == 0x85
    ||| v == 0xa0
    ||| v == 0x1680
    ||| 0x2000 <= v <= 0x200a
    ||| v == 0x2028
    ||| v == 0x2029
    ||| v == 0x202f
    ||| v == 0x205f
    ||| v == 0x3000
}

/// Whether `c` is whitespace.
pub fn is_whitespace(c: char) -> (res: bool)
    ensures
        res == spec_is_whitespace(c),
{
    let v = c as u32;
    (0x09 <= v && v <= 0x0d) || v == 0x20 || v == 0x85 || v == 0xa0 || v == 0x1680 || (0x2000 <= v
        && v <= 0x200a) || v == 0x2028 || v == 0x2029 || v == 0x202f || v == 0x205f || v == 0x3000
}

/// A string made of the given chars.
pub fn string_from_chars(cs: &[char]) -> (res: String)
    ensures
        res@ == cs@,
{
    let mut s = String::new();
    let mut i: usize = 0;
    while i < cs.len()
        invariant
            i <= cs.len(),
            s@ == cs@.subrange(0, i as int),
        decreases cs.len() - i,
    {
        push_char(&mut s, cs[i]);
        assert(s@ =~= cs@.subrange(0, i + 1));
        i += 1;
    }
    assert(cs@.subrange(0, cs.len() as int) =~= cs@);
    s
}

/// Index of the first char at or after `i` that is not whitespace.
pub open spec fn skip_leading_ws(s: Seq<char>, i: int) -> int
    decreases s.len() - i,
{
    if 0 <= i < s.len() && spec_is_whitespace(s[i]) {
        skip_leading_ws(s, i + 1)
    } else {
        i
    }
}

/// End of `s[start..j]` once trailing whitespace is dropped.
pub open spec fn skip_trailing_ws(s: Seq<char>, start: int, j: int) -> int
    decreases j - start,
{
    if start < j <= s.len() && spec_is_whitespace(s[j - 1]) {
        skip_trailing_ws(s, start, j - 1)
    } else {
        j
    }
}

/// `s` without leading and trailing whitespace.
pub open spec fn spec_trim(s: Seq<char>) -> Seq<char> {
    let a = skip_leading_ws(s, 0);
    s.subrange(a, skip_trailing_ws(s, a, s.len() as int))
}

proof fn lemma_skip_leading_ws(s: Seq<char>, i: int)
    requires
        0 <= i <= s.len(),
    ensures
        i <= skip_leading_ws(s, i) <= s.len(),
    decreases s.len() - i,
{
    if i < s.len() && spec_is_whitespace(s[i]) {
        lemma_skip_leading_ws(s, i + 1);
    }
}

proof fn lemma_skip_trailing_ws(s: Seq<char>, start: int, j: int)
    requires
        0 <= start <= j <= s.len(),
    ensures
        start <= skip_trailing_ws(s, start, j) <= j,
    decreases j - start,
{
    if start < j && spec_is_whitespace(s[j - 1]) {
        lemma_skip_trailing_ws(s, start, j - 1);
    }
}

/// The chars of `s` between its leading and trailing whitespace (`str::trim`).
pub fn trim_chars(s: &[char]) -> (res: Vec<char>)
    ensures
        res@ == spec_trim(s@),
{
    let mut a: usize = 0;
    while a < s.len() && is_whitespace(s[a])
        invariant
            a <= s.len(),
            skip_leading_ws(s@, a as int) == skip_leading_ws(s@, 0),
        decreases s.len() - a,
    {
        a += 1;
    }
    let mut b: usize = s.len();
    let ghost a0 = a as int;
    while b > a && is_whitespace(s[b - 1])
        invariant
            a0 == a,
            a <= b <= s.len(),
            skip_trailing_ws(s@, a0, b as int) == skip_trailing_ws(s@, a0, s@.len() as int),
        decreases b - a,
    {
        b -= 1;
    }
    let mut out: Vec<char> = Vec::new();
    let mut k: usize = a;
    while k < b
        invariant
            a <= k <= b <= s.len(),
            out@ == s@.subrange(a as int, k as int),
        decreases b - k,
    {
        out.push(s[k]);
        assert(out@ =~= s@.subrange(a as int, k + 1));
        k += 1;
    }
    out
}

/// `str::trim` on a string.
pub fn trim(s: &str) -> (res: String)
    ensures
        res@ == spec_trim(s@),
{
    let cs = chars_of(s);
    let t = trim_chars(cs.as_slice());
    string_from_chars(t.as_slice())
}

/// Index of the first `\n` at or after `i`, or the length when there is none.
pub open spec fn next_newline(s: Seq<char>, i: int) -> int
    decreases s.len() - i,
{
    if i < 0 || i >= s.len() || s[i] == '\n' {
        i
    } else {
        next_newline(s, i + 1)
    }
}

/// A line as `str::lines` yields it: a `\r` right before the ending `\n` is dropped.
pub open spec fn strip_cr(line: Seq<char>, terminated: bool) -> Seq<char> {
    if terminated && line.len() > 0 && line.last() == '\r' {
        line.drop_last()
    } else {
        line
    }
}

/// The lines of `s` from index `i` on (`str::lines`): split at `\n`, a final
/// line ending being optional, and a `\r` before a `\n` dropped.
pub open spec fn lines_from(s: Seq<char>, i: int) -> Seq<Seq<char>>
    decreases s.len() - i,
{
    if i < 0 || i >= s.len() {
        seq![]
    } else {
        let e = next_newline(s, i);
        if e < i || e >= s.len() {
            seq![strip_cr(s.subrange(i, s.len() as int), false)]
        } else {
            seq![strip_cr(s.subrange(i, e), true)] + lines_from(s, e + 1)
        }
    }
}

/// The lines of `s`.
pub open spec fn spec_lines(s: Seq<char>) -> Seq<Seq<char>> {
    lines_from(s, 0)
}

proof fn lemma_next_newline(s: Seq<char>, i: int)
    requires
        0 <= i <= s.len(),
    ensures
        i <= next_newline(s, i) <= s.len(),
        next_newline(s, i) < s.len() ==> s[next_newline(s, i)] == '\n',
    decreases s.len() - i,
{
    if i < s.len() && s[i] != '\n' {
        lemma_next_newline(s, i + 1);
    }
}

/// The lines of `s` as char vectors (`str::lines`).
pub fn lines(s: &str) -> (res: Vec<Vec<char>>)
    ensures
        res.deep_view() == spec_lines(s@),
{
    let cs = chars_of(s);
    let ghost c = cs@;
    let mut out: Vec<Vec<char>> = Vec::new();
    let mut i: usize = 0;
    while i < cs.len()
        invariant
            cs@ == c,
            c == s@,
            i <= c.len(),
            out.deep_view() + lines_from(c, i as int) == spec_lines(c),
        decreases c.len() - i,
    {
        let start = i;
        let mut line: Vec<char> = Vec::new();
        while i < cs.len() && cs[i] != '\n'
            invariant
                cs@ == c,
                start <= i <= c.len(),
                next_newline(c, i as int) == next_newline(c, start as int),
                line@ == c.subrange(start as int, i as int),
            decreases c.len() - i,
        {
            line.push(cs[i]);
            assert(line@ =~= c.subrange(start as int, i + 1));
            i += 1;
        }
        proof {
            lemma_next_newline(c, start as int);
        }
        let terminated = i < cs.len();
        if terminated && line.len() > 0 && line[line.len() - 1] == '\r' {
            line.pop();
        }
        assert(line@ =~= strip_cr(c.subrange(start as int, i as int), terminated));
        let ghost before = out.deep_view();
        let ghost l = line@;
        assert(line.deep_view() =~= l);
        out.push(line);
        assert(out.deep_view() =~= before.push(l));
        assert(before.push(l) + lines_from(c, i + 1) =~= before + (seq![l] + lines_from(c, i + 1)));
        if terminated {
            i += 1;
        }
    }
    out
}

/// Whether `c` is a char that a fixture line replaces by a space.
pub open spec fn is_line_break_or_tab(c: char) -> bool {
    c == '\t' || c == '\n' || c == '\r'
}

/// `s` with every tab, newline and carriage return replaced by a space.
pub open spec fn spec_flatten_whitespace(s: Seq<char>) -> Seq<char> {
    s.map_values(|c: char| if is_line_break_or_tab(c) { ' ' } else { c })
}

/// Replaces tabs, newlines and carriage returns by spaces, so a sentence fits
/// in one TSV field.
pub fn flatten_whitespace(s: &str) -> (res: String)
    ensures
        res@ == spec_flatten_whitespace(s@),
{
    let cs = chars_of(s);
    let mut out = String::new();
    let mut i: usize = 0;
    while i < cs.len()
        invariant
            cs@ == s@,
            i <= cs.len(),
            out@ == spec_flatten_whitespace(cs@.subrange(0, i as int)),
        decreases cs.len() - i,
    {
        let c = cs[i];
        push_char(&mut out, if c == '\t' || c == '\n' || c == '\r' { ' ' } else { c });
        assert(out@ =~= spec_flatten_whitespace(cs@.subrange(0, i + 1)));
        i += 1;
    }
    assert(cs@.subrange(0, cs.len() as int) =~= cs@);
    out
}

/// `parts` joined with `sep` between consecutive parts.
pub open spec fn spec_join(parts: Seq<Seq<char>>, sep: Seq<char>) -> Seq<char>
    decreases parts.len(),
{
    if parts.len() == 0 {
        seq![]
    } else if parts.len() == 1 {
        parts[0]
    } else {
        spec_join(parts.drop_last(), sep) + sep + parts.last()
    }
}

/// Joins strings with a separator (`[String]::join`).
pub fn join(parts: &[String], sep: &str) -> (res: String)
    ensures
        res@ == spec_join(parts.deep_view(), sep@),
{
    let ghost ps = parts.deep_view();
    let mut out = String::new();
    let mut i: usize = 0;
    while i < parts.len()
        invariant
            ps == parts.deep_view(),
            i <= parts.len(),
            out@ == spec_join(ps.subrange(0, i as int), sep@),
        decreases parts.len() - i,
    {
        assert(ps.subrange(0, i + 1).drop_last() =~= ps.subrange(0, i as int));
        assert(ps[i as int] == parts@[i as int]@);
        if i > 0 {
            out.append(sep);
        } else {
            assert(spec_join(ps.subrange(0, 0), sep@) =~= Seq::<char>::empty());
        }
        out.append(parts[i].as_str());
        assert(out@ =~= spec_join(ps.subrange(0, i + 1), sep@));
        i += 1;
    }
    assert(ps.subrange(0, parts.len() as int) =~= ps);
    out
}

/// Index of the first `c` at or after `i`, or the length when there is none.
pub open spec fn next_index_of(s: Seq<char>, c: char, i: int) -> int
    decreases s.len() - i,
{
    if i < 0 || i >= s.len() || s[i] == c {
        i
    } else {
        next_index_of(s, c, i + 1)
    }
}

pub proof fn lemma_next_index_of(s: Seq<char>, c: char, i: int)
    requires
        0 <= i <= s.len(),
    ensures
        i <= next_index_of(s, c, i) <= s.len(),
        next_index_of(s, c, i) < s.len() ==> s[next_index_of(s, c, i)] == c,
        forall|k: int| i <= k < next_index_of(s, c, i) ==> #[trigger] s[k] != c,
    decreases s.len() - i,
{
    if i < s.len() && s[i] != c {
        lemma_next_index_of(s, c, i + 1);
    }
}

/// The index of the first `c` in `s` at or after `from`, if any.
pub fn find_char(s: &[char], c: char, from: usize) -> (res: Option<usize>)
    requires
        from <= s.len(),
    ensures
        match res {
            Some(k) => k == next_index_of(s@, c, from as int) && k < s.len(),
            None => next_index_of(s@, c, from as int) == s.len(),
        },
{
    let mut k = from;
    while k < s.len()
        invariant
            from <= k <= s.len(),
            next_index_of(s@, c, k as int) == next_index_of(s@, c, from as int),
        decreases s.len() - k,
    {
        if s[k] == c {
            return Some(k);
        }
        k += 1;
    }
    None
}

/// The chars `s[from..to]` as a string.
pub fn substring(s: &[char], from: usize, to: usize) -> (res: String)
    requires
        from <= to <= s.len(),
    ensures
        res@ == s@.subrange(from as int, to as int),
{
    let mut out = String::new();
    let mut k = from;
    while k < to
        invariant
            from <= k <= to <= s.len(),
            out@ == s@.subrange(from as int, k as int),
        decreases to - k,
    {
        push_char(&mut out, s[k]);
        assert(out@ =~= s@.subrange(from as int, k + 1));
        k += 1;
    }
    out
}

} // verus!
