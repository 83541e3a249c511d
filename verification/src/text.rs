//! Character-level helpers shared by the game and the statistics: UTF-8
//! byte lengths, line splitting, ASCII case folding, decimal rendering, and
//! the few `std` string operations the library relies on.
use vstd::prelude::*;
use vstd::utf8::encode_utf8;
use vstd::utf8::encode_scalar;

verus! {

broadcast use vstd::string::group_string_axioms;

// ── UTF-8 byte lengths ───────────────────────────────────────────────────────

/// Number of bytes in the UTF-8 encoding of `s`; this is what `str::len` reports.
pub open spec fn byte_len(s: Seq<char>) -> nat {
    encode_utf8(s).len()
}

/// Number of bytes in the UTF-8 encoding of one character.
pub open spec fn char_width(c: char) -> nat {
    encode_scalar(c as u32).len()
}

/// The byte length of a concatenation is the sum of the byte lengths.
pub proof fn lemma_byte_len_concat(a: Seq<char>, b: Seq<char>)
    ensures
        byte_len(a + b) == byte_len(a) + byte_len(b),
    decreases a.len(),
{
    if a.len() == 0 {
        assert(a + b =~= b);
    } else {
        assert((a + b).drop_first() =~= a.drop_first() + b);
        lemma_byte_len_concat(a.drop_first(), b);
    }
}

/// Appending a character adds its width to the byte length.
pub proof fn lemma_byte_len_push(s: Seq<char>, c: char)
    ensures
        byte_len(s.push(c)) == byte_len(s) + char_width(c),
        1 <= char_width(c) <= 4,
{
    lemma_byte_len_concat(s, seq![c]);
    assert(s + seq![c] =~= s.push(c));
    assert(seq![c].drop_first() =~= Seq::<char>::empty());
    assert(encode_utf8(seq![c]) =~= encode_scalar(c as u32) + encode_utf8(Seq::<char>::empty()));
}

/// Dropping the last character removes its width from the byte length.
pub proof fn lemma_byte_len_drop_last(s: Seq<char>)
    requires
        s.len() > 0,
    ensures
        byte_len(s) == byte_len(s.drop_last()) + char_width(s.last()),
{
    lemma_byte_len_push(s.drop_last(), s.last());
    assert(s.drop_last().push(s.last()) =~= s);
}

/// Width in bytes of the UTF-8 encoding of `c` (what `char::len_utf8` returns).
pub fn char_byte_width(c: char) -> (w: usize)
    ensures
        w == char_width(c),
        1 <= w <= 4,
{
    let v = c as u32;
    if v <= 0x7f {
        1
    } else if v <= 0x7ff {
        2
    } else if v <= 0xffff {
        3
    } else {
        4
    }
}

/// The byte length of `s`, or `cap` when `s` is longer than that.
pub fn byte_len_capped(s: &str, cap: usize) -> (n: usize)
    ensures
        n == if byte_len(s@) < cap { byte_len(s@) } else { cap as nat },
{
    let mut n: usize = 0;
    let ghost mut seen: Seq<char> = Seq::empty();
    for c in it: s.chars()
        invariant
            it.seq() == s@,
            seen == s@.take(it.index()),
            n == if byte_len(seen) < cap { byte_len(seen) } else { cap as nat },
    {
        proof {
            lemma_byte_len_push(seen, c);
            assert(s@.take(it.index() + 1) =~= seen.push(c));
            seen = seen.push(c);
        }
        let w = char_byte_width(c);
        if n < cap {
            if w <= cap - n {
                n = n + w;
            } else {
                n = cap;
            }
        }
    }
    proof {
        assert(s@.take(s@.len() as int) =~= s@);
    }
    n
}

// ── Lines ────────────────────────────────────────────────────────────────────

/// A line without its trailing carriage return, if it has one.
pub open spec fn strip_cr(line: Seq<char>) -> Seq<char> {
    if line.len() > 0 && line.last() == '\r' {
        line.drop_last()
    } else {
        line
    }
}

/// The result of reading `s` from the start: the lines completed by a line
/// feed, and the characters read since the last line feed.
pub open spec fn scan_lines(s: Seq<char>) -> (Seq<Seq<char>>, Seq<char>)
    decreases s.len(),
{
    if s.len() == 0 {
        (Seq::empty(), Seq::empty())
    } else {
        let (done, cur) = scan_lines(s.drop_last());
        if s.last() == '\n' {
            (done.push(strip_cr(cur)), Seq::empty())
        } else {
            (done, cur.push(s.last()))
        }
    }
}

/// The lines of `s`, as `str::lines` yields them: split at each `\n`, a
/// `\r` just before the `\n` removed, and no empty line after a final `\n`.
pub open spec fn lines(s: Seq<char>) -> Seq<Seq<char>> {
    let (done, cur) = scan_lines(s);
    if cur.len() == 0 {
        done
    } else {
        done.push(cur)
    }
}

/// The entries of `ls` whose UTF-8 encoding is exactly `n` bytes long, in order.
pub open spec fn with_byte_len(ls: Seq<Seq<char>>, n: nat) -> Seq<Seq<char>>
    decreases ls.len(),
{
    if ls.len() == 0 {
        Seq::empty()
    } else {
        let rest = with_byte_len(ls.drop_last(), n);
        if byte_len(ls.last()) == n {
            rest.push(ls.last())
        } else {
            rest
        }
    }
}

/// The views of a sequence of strings.
pub open spec fn string_views(v: Seq<String>) -> Seq<Seq<char>> {
    v.map_values(|s: String| s@)
}

proof fn lemma_with_byte_len_push(ls: Seq<Seq<char>>, l: Seq<char>, n: nat)
    ensures
        with_byte_len(ls.push(l), n) == if byte_len(l) == n {
            with_byte_len(ls, n).push(l)
        } else {
            with_byte_len(ls, n)
        },
{
    assert(ls.push(l).drop_last() =~= ls);
}

/// The lines of `text` whose UTF-8 encoding is exactly `n` bytes long, in order.
pub fn lines_of_byte_len(text: &str, n: usize) -> (out: Vec<String>)
    requires
        n < usize::MAX,
    ensures
        string_views(out@) == with_byte_len(lines(text@), n as nat),
{
    let mut out: Vec<String> = Vec::new();
    let mut cur = String::new();
    // byte length of `cur`, capped just above `n`
    let mut cur_len: usize = 0;
    let cap: usize = n + 1;
    let ghost mut seen: Seq<char> = Seq::empty();
    for c in it: text.chars()
        invariant
            it.seq() == text@,
            seen == text@.take(it.index()),
            n < usize::MAX,
            cap == n + 1,
            cur@ == scan_lines(seen).1,
            cur_len == if byte_len(cur@) < cap { byte_len(cur@) } else { cap as nat },
            string_views(out@) == with_byte_len(scan_lines(seen).0, n as nat),
    {
        let ghost prev = seen;
        proof {
            assert(text@.take(it.index() + 1) =~= seen.push(c));
            seen = seen.push(c);
            assert(seen.drop_last() =~= prev);
            assert(seen.last() == c);
            if c == '\n' {
                assert(scan_lines(seen) == (scan_lines(prev).0.push(strip_cr(scan_lines(prev).1)), Seq::<char>::empty()));
            } else {
                assert(scan_lines(seen) == (scan_lines(prev).0, scan_lines(prev).1.push(c)));
            }
        }
        if c == '\n' {
            let ghost before = cur@;
            let last = string_pop(&mut cur);
            match last {
                Some(l) => {
                    if l != '\r' {
                        string_push(&mut cur, l);
                        assert(cur@ =~= before);
                    } else {
                        cur_len = byte_len_capped(cur.as_str(), cap);
                    }
                }
                None => {}
            }
            assert(cur@ == strip_cr(before));
            if cur_len == n {
                proof { lemma_with_byte_len_push(scan_lines(prev).0, cur@, n as nat); }
                let ghost ov = out@;
                let ghost line = cur@;
                out.push(cur);
                assert(string_views(out@) =~= string_views(ov).push(line));
            } else {
                proof { lemma_with_byte_len_push(scan_lines(prev).0, cur@, n as nat); }
            }
            cur = String::new();
            cur_len = 0;
        } else {
            proof { lemma_byte_len_push(cur@, c); }
            string_push(&mut cur, c);
            let w = char_byte_width(c);
            if cur_len < cap {
                if w <= cap - cur_len {
                    cur_len = cur_len + w;
                } else {
                    cur_len = cap;
                }
            }
        }
    }
    proof {
        assert(text@.take(text@.len() as int) =~= text@);
        assert(seen == text@);
    }
    if cur.as_str().is_empty() {
        // no unfinished line
    } else if cur_len == n {
        proof { lemma_with_byte_len_push(scan_lines(text@).0, cur@, n as nat); }
        let ghost ov = out@;
        let ghost line = cur@;
        out.push(cur);
        assert(string_views(out@) =~= string_views(ov).push(line));
    } else {
        proof { lemma_with_byte_len_push(scan_lines(text@).0, cur@, n as nat); }
    }
    out
}

// ── Characters and strings ───────────────────────────────────────────────────

/// `c` in lower case when it is an ASCII upper-case letter, otherwise `c`
/// (what `char::to_ascii_lowercase` returns).
pub open spec fn ascii_lower(c: char) -> char {
    if 'A' <= c <= 'Z' {
        ((c as u32) + 32) as char
    } else {
        c
    }
}

/// ASCII lower-casing of a single character.
pub fn to_ascii_lower(c: char) -> (r: char)
    ensures
        r == ascii_lower(c),
{
    if 'A' <= c && c <= 'Z' {
        ((c as u8) + 32) as char
    } else {
        c
    }
}

/// ASCII lower-casing folds exactly the upper-case letters `A`..=`Z`, each
/// onto its lower-case letter 32 code points on, and leaves every other
/// character alone; so no ASCII upper-case letter is ever left.
pub proof fn lemma_ascii_lower(c: char)
    ensures
        'A' <= c <= 'Z' ==> ascii_lower(c) as u32 == c as u32 + 32 && 'a' <= ascii_lower(c) <= 'z',
        !('A' <= c <= 'Z') ==> ascii_lower(c) == c,
        !('A' <= ascii_lower(c) <= 'Z'),
{
}

/// The decimal digit character for `d < 10`.
pub open spec fn digit_char(d: nat) -> char {
    ((d + 48) as u32) as char
}

/// The decimal representation of `n`, without sign or leading zeros.
pub open spec fn decimal(n: nat) -> Seq<char>
    decreases n,
{
    if n < 10 {
        seq![digit_char(n)]
    } else {
        decimal(n / 10).push(digit_char(n % 10))
    }
}

/// Whether `c` is one of the digits `0`..=`9`.
pub open spec fn is_digit(c: char) -> bool {
    '0' <= c <= '9'
}

/// The number a string of decimal digits stands for, most significant
/// digit first (zero for the empty string).
pub open spec fn digits_value(s: Seq<char>) -> int
    decreases s.len(),
{
    if s.len() == 0 {
        0
    } else {
        digits_value(s.drop_last()) * 10 + (s.last() as u32 - '0' as u32)
    }
}

/// The decimal text of `n` reads back as `n`: it is a nonempty string of
/// digits, without a leading zero unless it is `0` itself, whose value is `n`.
pub proof fn lemma_decimal_reads_back(n: nat)
    ensures
        decimal(n).len() > 0,
        forall|i: int| 0 <= i < decimal(n).len() ==> is_digit(#[trigger] decimal(n)[i]),
        decimal(n)[0] == '0' ==> n == 0 && decimal(n).len() == 1,
        digits_value(decimal(n)) == n,
    decreases n,
{
    if n >= 10 {
        lemma_decimal_reads_back(n / 10);
        let d = decimal(n);
        assert(d.drop_last() =~= decimal(n / 10));
        assert(d[0] == decimal(n / 10)[0]);
        assert(d.last() as u32 == n % 10 + 48);
        assert('0' as u32 == 48);
        assert(digits_value(d) == digits_value(decimal(n / 10)) * 10 + (n % 10));
        assert(n == (n / 10) * 10 + n % 10);
        assert forall|i: int| 0 <= i < d.len() implies is_digit(#[trigger] d[i]) by {
            if i < d.len() - 1 {
                assert(d[i] == decimal(n / 10)[i]);
            }
        }
    } else {
        assert(seq![digit_char(n)].drop_last() =~= Seq::<char>::empty());
        assert(digit_char(n) as u32 == n + 48);
        assert('0' as u32 == 48);
        assert(digits_value(Seq::<char>::empty()) == 0);
    }
}

/// The character of a decimal digit.
pub fn digit(d: u64) -> (c: char)
    requires
        d < 10,
    ensures
        c == digit_char(d as nat),
{
    ((d as u8) + 48) as char
}

/// Renders `n` in decimal, most significant digit first, with no sign and
/// no leading zeros.
pub fn decimal_string(n: u64) -> (s: String)
    ensures
        s@ == decimal(n as nat),
    decreases n,
{
    if n < 10 {
        let mut s = String::new();
        string_push(&mut s, digit(n));
        assert(s@ =~= decimal(n as nat));
        s
    } else {
        let mut s = decimal_string(n / 10);
        string_push(&mut s, digit(n % 10));
        s
    }
}

/// What `str::to_uppercase` returns for a string: its Unicode upper-case mapping.
pub uninterp spec fn str_to_uppercase(s: Seq<char>) -> Seq<char>;

/// What `str::to_lowercase` returns for a string: its Unicode lower-case mapping.
pub uninterp spec fn str_to_lowercase(s: Seq<char>) -> Seq<char>;

/// What `str::trim` returns for a string: it without leading and trailing
/// Unicode white space.
pub uninterp spec fn str_trim(s: Seq<char>) -> Seq<char>;

/// Upper-cases `s`.
///
/// Trusted: `str::to_uppercase`; the result depends on the string alone. The
/// Unicode case tables it follows are not written out here.
#[verifier::external_body]
pub(crate) fn to_uppercase(s: &str) -> (r: String)
    ensures
        r@ == str_to_uppercase(s@),
{
    s.to_uppercase()
}

/// Lower-cases `s`.
///
/// Trusted: `str::to_lowercase`; the result depends on the string alone. The
/// Unicode case tables it follows are not written out here.
#[verifier::external_body]
pub(crate) fn to_lowercase(s: &str) -> (r: String)
    ensures
        r@ == str_to_lowercase(s@),
{
    s.to_lowercase()
}

/// Removes leading and trailing white space.
///
/// Trusted: `str::trim`; the result depends on the string alone. Which
/// characters count as white space (Unicode's `White_Space`) is not written
/// out here.
#[verifier::external_body]
pub(crate) fn trim(s: &str) -> (r: &str)
    ensures
        r@ == str_trim(s@),
{
    s.trim()
}

/// Appends `c` to `s`.
///
/// Trusted: `String::push` appends the character to the end of the string.
#[verifier::external_body]
pub(crate) fn string_push(s: &mut String, c: char)
    ensures
        final(s)@ == old(s)@.push(c),
{
    s.push(c)
}

/// Removes and returns the last character of `s`, if any.
///
/// Trusted: `String::pop` removes the last character and returns it, or
/// returns `None` and leaves an empty string as it is.
#[verifier::external_body]
pub(crate) fn string_pop(s: &mut String) -> (r: Option<char>)
    ensures
        old(s)@.len() == 0 ==> r is None && final(s)@ == old(s)@,
        old(s)@.len() > 0 ==> r == Some(old(s)@.last()) && final(s)@ == old(s)@.drop_last(),
{
    s.pop()
}

/// The characters of `s`, in order.
pub fn chars_of(s: &str) -> (v: Vec<char>)
    ensures
        v@ == s@,
{
    let mut v: Vec<char> = Vec::new();
    for c in it: s.chars()
        invariant
            it.seq() == s@,
            v@ == s@.take(it.index()),
    {
        v.push(c);
        assert(s@.take(it.index() + 1) =~= v@);
    }
    assert(s@.take(s@.len() as int) =~= s@);
    v
}

/// A copy of `s` as an owned string.
pub fn to_owned_string(s: &str) -> (r: String)
    ensures
        r@ == s@,
{
    s.to_owned()
}

} // verus!
