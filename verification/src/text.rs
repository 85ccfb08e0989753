//! Text helpers on which the game's screens and its highscore file rest:
//! decimal numbers, repeated characters, and splitting text into pieces.

use vstd::prelude::*;
use vstd::std_specs::iter::IteratorSpec;
use vstd::utf8::{encode_scalar, encode_utf8};

verus! {

/// Appends one character to a string.
///
/// Trusted: calls `String::push`, which std documents as appending the given
/// `char` to the end of the string; the contract states exactly that.
#[verifier::external_body]
pub(crate) fn push_char(s: &mut String, c: char)
    ensures
        final(s)@ == old(s)@.push(c),
{
    s.push(c)
}

/// The character of a decimal digit.
pub open spec fn digit_char(d: nat) -> char {
    ((d + 48) as u8) as char
}

/// The decimal digits of a natural number, without leading zeros.
pub open spec fn decimal(n: nat) -> Seq<char>
    decreases n,
{
    if n < 10 {
        seq![digit_char(n)]
    } else {
        decimal(n / 10).push(digit_char(n % 10))
    }
}

/// An integer as `Display` writes it: a minus sign for negative numbers,
/// then the decimal digits of its magnitude.
pub open spec fn int_text(i: int) -> Seq<char> {
    if i < 0 {
        seq!['-'] + decimal((-i) as nat)
    } else {
        decimal(i as nat)
    }
}

/// The character `c`, `n` times.
pub open spec fn repeated(c: char, n: nat) -> Seq<char> {
    Seq::new(n, |i: int| c)
}

fn push_decimal(s: &mut String, n: u64)
    ensures
        final(s)@ == old(s)@ + decimal(n as nat),
    decreases n,
{
    if n >= 10 {
        push_decimal(s, n / 10);
    }
    let d: u8 = (n % 10) as u8;
    let c: char = (d + 48) as char;
    push_char(s, c);
    proof {
        assert(c == digit_char((n % 10) as nat));
        if n >= 10 {
            assert(decimal(n as nat) == decimal((n / 10) as nat).push(digit_char((n % 10) as nat)));
        } else {
            assert(decimal(n as nat) == seq![digit_char(n as nat)]);
        }
    }
}

/// Appends `n` copies of `c` to `s`.
pub fn push_repeated(s: &mut String, c: char, n: usize)
    ensures
        final(s)@ == old(s)@ + repeated(c, n as nat),
{
    let mut i: usize = 0;
    while i < n
        invariant
            i <= n,
            s@ == old(s)@ + repeated(c, i as nat),
        decreases n - i,
    {
        push_char(s, c);
        i = i + 1;
        assert(s@ =~= old(s)@ + repeated(c, i as nat));
    }
}

/// Appends the text of an `i32`, as `Display` writes it, to `s`.
pub fn push_i32(s: &mut String, v: i32)
    ensures
        final(s)@ == old(s)@ + int_text(v as int),
{
    if v < 0 {
        push_char(s, '-');
        let m: i64 = -(v as i64);
        push_decimal(s, m as u64);
        assert(s@ =~= old(s)@ + int_text(v as int));
    } else {
        push_decimal(s, v as u64);
    }
}

/// Appends the text of a `u64`, as `Display` writes it, to `s`.
pub fn push_u64(s: &mut String, v: u64)
    ensures
        final(s)@ == old(s)@ + int_text(v as int),
{
    push_decimal(s, v);
}

/// The characters of a string, one by one.
pub fn chars_of(s: &str) -> (v: Vec<char>)
    ensures
        v@ == s@,
{
    let mut v: Vec<char> = Vec::new();
    let mut it = s.chars();
    loop
        invariant
            v@ + it.remaining() == s@,
            it.decrease() is Some,
        ensures
            v@ == s@,
        decreases it.decrease()->0,
    {
        let ghost before = it.remaining();
        match it.next() {
            Some(c) => {
                v.push(c);
                assert(v@ + it.remaining() =~= s@);
            },
            None => {
                assert(v@ =~= s@);
                break;
            },
        }
    }
    v
}

/// The views of a sequence of strings.
pub open spec fn texts(v: Seq<String>) -> Seq<Seq<char>> {
    v.map_values(|x: String| x@)
}

/// The pieces of `s` between occurrences of `sep`, in order, as `str::split`
/// with a `char` pattern gives them: one more piece than there are separators.
pub open spec fn split_on(s: Seq<char>, sep: char) -> Seq<Seq<char>>
    decreases s.len(),
{
    if s.len() == 0 {
        seq![Seq::<char>::empty()]
    } else {
        let init = split_on(s.drop_last(), sep);
        if s.last() == sep {
            init.push(Seq::<char>::empty())
        } else {
            init.update(init.len() - 1, init.last().push(s.last()))
        }
    }
}

/// A line without the carriage return that ended it, if it had one.
pub open spec fn strip_cr(l: Seq<char>) -> Seq<char> {
    if l.len() > 0 && l.last() == '\r' {
        l.drop_last()
    } else {
        l
    }
}

/// The lines of `s`, as `str::lines` gives them: the text between line feeds,
/// each line that a line feed ends without a carriage return just before that
/// line feed; a last line that no line feed ends keeps what it holds, and an
/// empty one is no line at all.
pub open spec fn text_lines(s: Seq<char>) -> Seq<Seq<char>> {
    let segs = split_on(s, '\n');
    let body = segs.drop_last().map_values(|l: Seq<char>| strip_cr(l));
    if segs.last().len() == 0 {
        body
    } else {
        body.push(segs.last())
    }
}

/// There is always at least one piece.
pub proof fn lemma_split_on_len(s: Seq<char>, sep: char)
    ensures
        split_on(s, sep).len() >= 1,
    decreases s.len(),
{
    if s.len() > 0 {
        lemma_split_on_len(s.drop_last(), sep);
    }
}

/// The characters `cs[start..end]` as a string.
pub fn string_from(cs: &Vec<char>, start: usize, end: usize) -> (r: String)
    requires
        start <= end <= cs@.len(),
    ensures
        r@ == cs@.subrange(start as int, end as int),
{
    let mut r = String::new();
    let mut i: usize = start;
    while i < end
        invariant
            start <= i <= end <= cs@.len(),
            r@ == cs@.subrange(start as int, i as int),
        decreases end - i,
    {
        push_char(&mut r, cs[i]);
        i = i + 1;
        assert(r@ =~= cs@.subrange(start as int, i as int));
    }
    r
}

/// Splits `s` at every `sep`, as `str::split` with a `char` pattern does.
pub fn split_text(s: &str, sep: char) -> (pieces: Vec<String>)
    ensures
        texts(pieces@) == split_on(s@, sep),
{
    let cs = chars_of(s);
    let mut pieces: Vec<String> = Vec::new();
    let mut start: usize = 0;
    let mut i: usize = 0;
    assert(cs@.take(0) =~= Seq::<char>::empty());
    while i < cs.len()
        invariant
            start <= i <= cs@.len(),
            texts(pieces@).push(cs@.subrange(start as int, i as int)) =~= split_on(
                cs@.take(i as int),
                sep,
            ),
        decreases cs@.len() - i,
    {
        let ghost prev = cs@.take(i as int);
        assert(cs@.take(i + 1).drop_last() =~= prev);
        assert(cs@.take(i + 1).last() == cs@[i as int]);
        let ghost old_pieces = pieces@;
        if cs[i] == sep {
            let piece = string_from(&cs, start, i);
            let ghost pv = piece@;
            pieces.push(piece);
            assert(texts(pieces@) =~= texts(old_pieces).push(pv));
            assert(split_on(cs@.take(i + 1), sep) == split_on(prev, sep).push(Seq::<char>::empty()));
            start = i + 1;
            i = i + 1;
            assert(cs@.subrange(start as int, i as int) =~= Seq::<char>::empty());
        } else {
            i = i + 1;
            proof {
                lemma_split_on_len(prev, sep);
            }
            assert(cs@.subrange(start as int, i as int) =~= cs@.subrange(
                start as int,
                i - 1,
            ).push(cs@[i - 1]));
        }
    }
    let last = string_from(&cs, start, cs.len());
    pieces.push(last);
    assert(cs@.take(cs@.len() as int) =~= cs@);
    assert(texts(pieces@) =~= texts(pieces@.drop_last()).push(last@));
    pieces
}

/// Splits `s` into lines, as `str::lines` does.
pub fn lines_of(s: &str) -> (lines: Vec<String>)
    ensures
        texts(lines@) == text_lines(s@),
{
    let cs = chars_of(s);
    let mut lines: Vec<String> = Vec::new();
    let mut start: usize = 0;
    let mut i: usize = 0;
    assert(cs@.take(0) =~= Seq::<char>::empty());
    while i < cs.len()
        invariant
            start <= i <= cs@.len(),
            split_on(cs@.take(i as int), '\n').len() >= 1,
            texts(lines@) =~= split_on(cs@.take(i as int), '\n').drop_last().map_values(
                |l: Seq<char>| strip_cr(l),
            ),
            split_on(cs@.take(i as int), '\n').last() =~= cs@.subrange(start as int, i as int),
        decreases cs@.len() - i,
    {
        let ghost prev = cs@.take(i as int);
        let ghost segs = split_on(prev, '\n');
        let ghost old_lines = lines@;
        assert(cs@.take(i + 1).drop_last() =~= prev);
        assert(cs@.take(i + 1).last() == cs@[i as int]);
        if cs[i] == '\n' {
            let end: usize = if i > start && cs[i - 1] == '\r' {
                i - 1
            } else {
                i
            };
            let piece = string_from(&cs, start, end);
            let ghost pv = piece@;
            assert(pv =~= strip_cr(cs@.subrange(start as int, i as int)));
            lines.push(piece);
            assert(texts(lines@) =~= texts(old_lines).push(pv));
            assert(split_on(cs@.take(i + 1), '\n') == segs.push(Seq::<char>::empty()));
            assert(segs.push(Seq::<char>::empty()).drop_last() =~= segs);
            assert(segs.map_values(|l: Seq<char>| strip_cr(l)) =~= segs.drop_last().map_values(
                |l: Seq<char>| strip_cr(l),
            ).push(strip_cr(segs.last())));
            start = i + 1;
            i = i + 1;
            assert(cs@.subrange(start as int, i as int) =~= Seq::<char>::empty());
        } else {
            i = i + 1;
            assert(cs@.subrange(start as int, i as int) =~= cs@.subrange(
                start as int,
                i - 1,
            ).push(cs@[i - 1]));
            assert(split_on(cs@.take(i as int), '\n') == segs.update(
                segs.len() - 1,
                segs.last().push(cs@[i - 1]),
            ));
            assert(segs.update(segs.len() - 1, segs.last().push(cs@[i - 1])).drop_last()
                =~= segs.drop_last());
        }
    }
    assert(cs@.take(cs@.len() as int) =~= cs@);
    if start < cs.len() {
        let last = string_from(&cs, start, cs.len());
        let ghost old_lines = lines@;
        lines.push(last);
        assert(texts(lines@) =~= texts(old_lines).push(last@));
    }
    lines
}

/// A decimal digit character.
pub open spec fn is_digit(c: char) -> bool {
    '0' <= c <= '9'
}

/// Every character of `s` is a decimal digit.
pub open spec fn all_digits(s: Seq<char>) -> bool {
    forall|i: int| 0 <= i < s.len() ==> is_digit(#[trigger] s[i])
}

/// The number that a string of decimal digits writes.
pub open spec fn digits_value(s: Seq<char>) -> int
    decreases s.len(),
{
    if s.len() == 0 {
        0
    } else {
        digits_value(s.drop_last()) * 10 + ((s.last() as int) - 48)
    }
}

/// What `str::parse::<i32>` gives: an optional `+` or `-` sign, then one or
/// more decimal digits, whose value must fit in an `i32`; `None` where the
/// parse fails.
pub open spec fn parse_i32(s: Seq<char>) -> Option<i32> {
    let signed = s.len() > 0 && (s[0] == '+' || s[0] == '-');
    let digits = if signed {
        s.drop_first()
    } else {
        s
    };
    let v = if signed && s[0] == '-' {
        -digits_value(digits)
    } else {
        digits_value(digits)
    };
    if digits.len() == 0 || !all_digits(digits) || v < i32::MIN || v > i32::MAX {
        None
    } else {
        Some(v as i32)
    }
}

/// Parses an `i32` as `str::parse::<i32>` does; `None` where that fails.
pub fn parse_i32_text(s: &str) -> (r: Option<i32>)
    ensures
        r == parse_i32(s@),
{
    let cs = chars_of(s);
    let n = cs.len();
    let mut neg = false;
    let mut k: usize = 0;
    if n > 0 && (cs[0] == '+' || cs[0] == '-') {
        neg = cs[0] == '-';
        k = 1;
    }
    let ghost digits = if k == 1 {
        cs@.drop_first()
    } else {
        cs@
    };
    assert(digits =~= cs@.subrange(k as int, n as int));
    assert(digits == (if s@.len() > 0 && (s@[0] == '+' || s@[0] == '-') {
        s@.drop_first()
    } else {
        s@
    }));
    if k == n {
        return None;
    }
    let cap: i64 = 2147483649;
    let mut acc: i64 = 0;
    let mut i: usize = k;
    assert(digits.take(0) =~= Seq::<char>::empty());
    while i < n
        invariant
            k <= i <= n == cs@.len(),
            digits == cs@.subrange(k as int, n as int),
            cs@ == s@,
            digits == (if s@.len() > 0 && (s@[0] == '+' || s@[0] == '-') {
                s@.drop_first()
            } else {
                s@
            }),
            neg == (s@.len() > 0 && (s@[0] == '+' || s@[0] == '-') && s@[0] == '-'),
            all_digits(digits.take(i - k)),
            0 <= acc <= cap,
            cap == 2147483649,
            acc == (if digits_value(digits.take(i - k)) < cap {
                digits_value(digits.take(i - k))
            } else {
                cap as int
            }),
        decreases n - i,
    {
        let c = cs[i];
        if !(c >= '0' && c <= '9') {
            assert(digits[i - k] == c);
            assert(!is_digit(digits[i - k]));
            assert(!all_digits(digits));
            return None;
        }
        let d: i64 = (c as u32 - 48) as i64;
        let ghost pre = digits.take(i - k);
        assert(digits.take(i + 1 - k).drop_last() =~= pre);
        assert(digits.take(i + 1 - k).last() == c);
        acc = if acc * 10 + d < cap {
            acc * 10 + d
        } else {
            cap
        };
        i = i + 1;
        assert(all_digits(digits.take(i - k)));
    }
    assert(digits.take(n - k) =~= digits);
    if neg {
        if acc > 2147483648 {
            None
        } else {
            Some((-acc) as i32)
        }
    } else {
        if acc > 2147483647 {
            None
        } else {
            Some(acc as i32)
        }
    }
}

/// The length of a text in bytes, as `str::len` gives it: the length of its
/// UTF-8 encoding.
pub open spec fn byte_len(s: Seq<char>) -> nat {
    encode_utf8(s).len()
}

/// The UTF-8 encoding of two texts one after the other is the encoding of the
/// first followed by that of the second.
pub proof fn lemma_encode_utf8_add(a: Seq<char>, b: Seq<char>)
    ensures
        encode_utf8(a + b) == encode_utf8(a) + encode_utf8(b),
    decreases a.len(),
{
    if a.len() == 0 {
        assert(a + b =~= b);
        assert(encode_utf8(a) =~= Seq::<u8>::empty());
        assert(encode_utf8(a) + encode_utf8(b) =~= encode_utf8(b));
    } else {
        lemma_encode_utf8_add(a.drop_first(), b);
        assert((a + b).drop_first() =~= a.drop_first() + b);
        assert(encode_utf8(a + b) =~= encode_utf8(a) + encode_utf8(b));
    }
}

/// The byte length of `s`, when it is at most `limit`; `None` when it is more.
pub fn byte_len_within(s: &str, limit: usize) -> (r: Option<usize>)
    ensures
        match r {
            Some(n) => n == byte_len(s@) && n <= limit,
            None => byte_len(s@) > limit,
        },
{
    let cs = chars_of(s);
    let mut total: usize = 0;
    let mut i: usize = 0;
    assert(cs@.take(0) =~= Seq::<char>::empty());
    while i < cs.len()
        invariant
            i <= cs@.len(),
            cs@ == s@,
            total == byte_len(cs@.take(i as int)),
            total <= limit,
        decreases cs@.len() - i,
    {
        let c = cs[i];
        let v: u32 = c as u32;
        let w: usize = if v <= 0x7f {
            1
        } else if v <= 0x7ff {
            2
        } else if v <= 0xffff {
            3
        } else {
            4
        };
        proof {
            vstd::utf8::char_is_scalar(c);
            assert(w == encode_scalar(c as u32).len());
            lemma_encode_utf8_add(cs@.take(i as int), seq![c]);
            assert(cs@.take(i + 1) =~= cs@.take(i as int) + seq![c]);
            assert(seq![c].drop_first() =~= Seq::<char>::empty());
            assert(encode_utf8(Seq::<char>::empty()) =~= Seq::<u8>::empty());
            assert(encode_utf8(seq![c]) =~= encode_scalar(c as u32) + encode_utf8(
                Seq::<char>::empty(),
            ));
            assert(encode_utf8(seq![c]) =~= encode_scalar(c as u32));
        }
        if w > limit - total {
            proof {
                lemma_encode_utf8_add(cs@.take(i + 1), cs@.skip(i + 1));
                assert(cs@.take(i + 1) + cs@.skip(i + 1) =~= cs@);
            }
            return None;
        }
        total = total + w;
        i = i + 1;
    }
    assert(cs@.take(cs@.len() as int) =~= cs@);
    Some(total)
}

/// Appends the text `t` to `s`.
pub fn push_text(s: &mut String, t: &str)
    ensures
        final(s)@ == old(s)@ + t@,
{
    let cs = chars_of(t);
    let mut i: usize = 0;
    while i < cs.len()
        invariant
            i <= cs@.len(),
            cs@ == t@,
            s@ == old(s)@ + cs@.take(i as int),
        decreases cs@.len() - i,
    {
        push_char(s, cs[i]);
        i = i + 1;
        assert(s@ =~= old(s)@ + cs@.take(i as int));
    }
    assert(cs@.take(cs@.len() as int) =~= cs@);
}

/// The pieces of `s` between occurrences of `"\r\n"`, in order, as
/// `str::split("\r\n")` gives them.
pub open spec fn split_crlf(s: Seq<char>) -> Seq<Seq<char>>
    decreases s.len(),
{
    if s.len() == 0 {
        seq![Seq::<char>::empty()]
    } else if s.len() >= 2 && s[s.len() - 2] == '\r' && s.last() == '\n' {
        split_crlf(s.take(s.len() - 2)).push(Seq::<char>::empty())
    } else {
        let init = split_crlf(s.drop_last());
        init.update(init.len() - 1, init.last().push(s.last()))
    }
}

/// There is always at least one piece.
pub proof fn lemma_split_crlf_len(s: Seq<char>)
    ensures
        split_crlf(s).len() >= 1,
    decreases s.len(),
{
    if s.len() >= 2 && s[s.len() - 2] == '\r' && s.last() == '\n' {
        lemma_split_crlf_len(s.take(s.len() - 2));
    } else if s.len() > 0 {
        lemma_split_crlf_len(s.drop_last());
    }
}

/// Whether a text is not empty.
pub open spec fn non_empty() -> spec_fn(Seq<char>) -> bool {
    |p: Seq<char>| p.len() > 0
}

/// The dictionary in the text of the word file: the pieces between `"\r\n"`
/// separators that are not empty, in order.
pub fn dictionary_from_text(s: &str) -> (pieces: Vec<String>)
    ensures
        texts(pieces@) == split_crlf(s@).filter(non_empty()),
{
    let cs = chars_of(s);
    let mut pieces: Vec<String> = Vec::new();
    let mut start: usize = 0;
    let mut i: usize = 0;
    assert(cs@.take(0) =~= Seq::<char>::empty());
    while i < cs.len()
        invariant
            start <= i <= cs@.len(),
            start > 0 ==> cs@[start - 1] == '\n',
            split_crlf(cs@.take(i as int)).len() >= 1,
            texts(pieces@) =~= split_crlf(cs@.take(i as int)).drop_last().filter(non_empty()),
            split_crlf(cs@.take(i as int)).last() =~= cs@.subrange(start as int, i as int),
        decreases cs@.len() - i,
    {
        let ghost prev = cs@.take(i as int);
        let ghost segs = split_crlf(prev);
        let ghost next = cs@.take(i + 1);
        assert(next.drop_last() =~= prev);
        assert(next.last() == cs@[i as int]);
        if cs[i] == '\n' && i > 0 && cs[i - 1] == '\r' {
            assert(next.take(next.len() - 2) =~= cs@.take(i - 1));
            assert(i - 1 >= start);
            let ghost pp = cs@.take(i - 1);
            proof {
                lemma_split_crlf_len(pp);
                // the piece so far ends with the carriage return
                assert(prev.len() >= 1);
                if prev.len() >= 2 && prev[prev.len() - 2] == '\r' && prev.last() == '\n' {
                    assert(false);
                }
                assert(prev.drop_last() =~= pp);
                assert(segs == split_crlf(pp).update(
                    split_crlf(pp).len() - 1,
                    split_crlf(pp).last().push('\r'),
                ));
            }
            assert(split_crlf(next) == split_crlf(pp).push(Seq::<char>::empty()));
            assert(segs.drop_last() =~= split_crlf(pp).drop_last());
            assert(split_crlf(pp).last() =~= cs@.subrange(start as int, i - 1));
            let ghost old_pieces = pieces@;
            if i - 1 > start {
                let piece = string_from(&cs, start, i - 1);
                let ghost pv = piece@;
                pieces.push(piece);
                assert(texts(pieces@) =~= texts(old_pieces).push(pv));
            }
            proof {
                let pr = split_crlf(pp);
                assert(pr =~= pr.drop_last().push(pr.last()));
                reveal_with_fuel(Seq::filter, 1);
                assert(pr.filter(non_empty()) == (if non_empty()(pr.last()) {
                    pr.drop_last().filter(non_empty()).push(pr.last())
                } else {
                    pr.drop_last().filter(non_empty())
                }));
                assert(split_crlf(next).drop_last() =~= pr);
            }
            start = i + 1;
            i = i + 1;
            assert(cs@.subrange(start as int, i as int) =~= Seq::<char>::empty());
        } else {
            proof {
                if next.len() >= 2 && next[next.len() - 2] == '\r' && next.last() == '\n' {
                    assert(next[next.len() - 2] == cs@[i - 1]);
                    assert(false);
                }
            }
            assert(split_crlf(next) == segs.update(segs.len() - 1, segs.last().push(cs@[i as int])));
            assert(segs.update(segs.len() - 1, segs.last().push(cs@[i as int])).drop_last()
                =~= segs.drop_last());
            i = i + 1;
            assert(cs@.subrange(start as int, i as int) =~= cs@.subrange(
                start as int,
                i - 1,
            ).push(cs@[i - 1]));
        }
    }
    assert(cs@.take(cs@.len() as int) =~= cs@);
    let ghost segs = split_crlf(cs@);
    let ghost old_pieces = pieces@;
    if start < cs.len() {
        let last = string_from(&cs, start, cs.len());
        let ghost lv = last@;
        pieces.push(last);
        assert(texts(pieces@) =~= texts(old_pieces).push(lv));
    }
    proof {
        assert(segs =~= segs.drop_last().push(segs.last()));
        reveal_with_fuel(Seq::filter, 1);
        assert(segs.filter(non_empty()) == (if non_empty()(segs.last()) {
            segs.drop_last().filter(non_empty()).push(segs.last())
        } else {
            segs.drop_last().filter(non_empty())
        }));
    }
    pieces
}

/// The decimal digits of a number are digits, at least one, and they write
/// the number.
pub proof fn lemma_decimal(n: nat)
    ensures
        decimal(n).len() >= 1,
        all_digits(decimal(n)),
        digits_value(decimal(n)) == n,
    decreases n,
{
    if n < 10 {
        let s = decimal(n);
        assert(((n + 48) as u8) as int == n + 48);
        assert(digit_char(n) as int == n + 48);
        assert(s.drop_last() =~= Seq::<char>::empty());
        assert(digits_value(s.drop_last()) == 0);
        assert(s.last() == digit_char(n));
        assert(is_digit(s[0]));
    } else {
        lemma_decimal(n / 10);
        let s = decimal(n);
        assert(((n % 10 + 48) as u8) as int == n % 10 + 48);
        assert(digit_char(n % 10) as int == n % 10 + 48);
        assert(s.last() == digit_char(n % 10));
        assert(s.drop_last() =~= decimal(n / 10));
        assert(digits_value(s) == digits_value(decimal(n / 10)) * 10 + (n % 10));
        assert((n / 10) * 10 + n % 10 == n);
        assert forall|i: int| 0 <= i < s.len() implies is_digit(#[trigger] s[i]) by {
            if i < s.len() - 1 {
                assert(s[i] == decimal(n / 10)[i]);
            }
        }
    }
}

/// Parsing the text of an `i32` gives it back.
pub proof fn lemma_parse_int_text(v: i32)
    ensures
        parse_i32(int_text(v as int)) == Some(v),
{
    if v < 0 {
        let m = (-(v as int)) as nat;
        lemma_decimal(m);
        let s = int_text(v as int);
        assert(s.drop_first() =~= decimal(m));
    } else {
        lemma_decimal(v as nat);
        let s = decimal(v as nat);
        assert(is_digit(s[0]));
    }
}

/// The text of a number holds no character but digits and a minus sign.
pub proof fn lemma_int_text_chars(v: int, c: char)
    requires
        c != '-',
        !is_digit(c),
    ensures
        !int_text(v).contains(c),
{
    if v < 0 {
        lemma_decimal((-v) as nat);
        let s = int_text(v);
        assert forall|i: int| 0 <= i < s.len() implies s[i] != c by {
            if i > 0 {
                assert(s[i] == decimal((-v) as nat)[i - 1]);
                assert(is_digit(decimal((-v) as nat)[i - 1]));
            }
        }
    } else {
        lemma_decimal(v as nat);
        let s = int_text(v);
        assert forall|i: int| 0 <= i < s.len() implies s[i] != c by {
            assert(is_digit(s[i]));
        }
    }
}

/// A text without the separator is a single piece.
pub proof fn lemma_split_on_no_sep(t: Seq<char>, sep: char)
    requires
        !t.contains(sep),
    ensures
        split_on(t, sep) == seq![t],
    decreases t.len(),
{
    if t.len() > 0 {
        assert(!t.drop_last().contains(sep)) by {
            if t.drop_last().contains(sep) {
                let i = choose|i: int| 0 <= i < t.drop_last().len() && t.drop_last()[i] == sep;
                assert(t[i] == sep);
            }
        }
        lemma_split_on_no_sep(t.drop_last(), sep);
        assert(t.last() != sep) by {
            assert(t[t.len() - 1] == t.last());
        }
        assert(t.drop_last().push(t.last()) =~= t);
        assert(split_on(t, sep) =~= seq![t]);
    } else {
        assert(t =~= Seq::<char>::empty());
    }
}

/// Splitting two texts joined by the separator gives the pieces of the first
/// followed by the pieces of the second.
pub proof fn lemma_split_on_join(a: Seq<char>, b: Seq<char>, sep: char)
    ensures
        split_on(a.push(sep) + b, sep) == split_on(a, sep) + split_on(b, sep),
    decreases b.len(),
{
    if b.len() == 0 {
        assert(a.push(sep) + b =~= a.push(sep));
        assert(a.push(sep).drop_last() =~= a);
        assert(split_on(a, sep) + split_on(b, sep) =~= split_on(a, sep).push(Seq::<char>::empty()));
    } else {
        let b0 = b.drop_last();
        let c = b.last();
        lemma_split_on_join(a, b0, sep);
        lemma_split_on_len(b0, sep);
        lemma_split_on_len(a, sep);
        let t = a.push(sep) + b;
        assert(t.drop_last() =~= a.push(sep) + b0);
        assert(t.last() == c);
        let sa = split_on(a, sep);
        let sb0 = split_on(b0, sep);
        if c == sep {
            assert(split_on(t, sep) == (sa + sb0).push(Seq::<char>::empty()));
            assert(split_on(b, sep) == sb0.push(Seq::<char>::empty()));
            assert((sa + sb0).push(Seq::<char>::empty()) =~= sa + sb0.push(Seq::<char>::empty()));
        } else {
            let init = sa + sb0;
            assert(split_on(t, sep) == init.update(init.len() - 1, init.last().push(c)));
            assert(split_on(b, sep) == sb0.update(sb0.len() - 1, sb0.last().push(c)));
            assert(init.last() == sb0.last());
            assert(init.update(init.len() - 1, init.last().push(c)) =~= sa + sb0.update(
                sb0.len() - 1,
                sb0.last().push(c),
            ));
        }
    }
}

/// The text holds a carriage return followed by a line feed.
pub open spec fn has_crlf(p: Seq<char>) -> bool {
    exists|i: int| 0 <= i < p.len() - 1 && #[trigger] p[i] == '\r' && p[i + 1] == '\n'
}

/// No piece of `split_crlf` holds a separator, and the last piece ends where
/// the text ends.
pub proof fn lemma_split_crlf_pieces(s: Seq<char>)
    ensures
        forall|k: int| 0 <= k < split_crlf(s).len() ==> !has_crlf(#[trigger] split_crlf(s)[k]),
        split_crlf(s).len() >= 1,
        split_crlf(s).last().len() > 0 ==> split_crlf(s).last().last() == s.last(),
    decreases s.len(),
{
    lemma_split_crlf_len(s);
    if s.len() == 0 {
        assert forall|k: int| 0 <= k < split_crlf(s).len() implies !has_crlf(
            #[trigger] split_crlf(s)[k],
        ) by {
            assert(split_crlf(s)[k].len() == 0);
        }
    } else if s.len() >= 2 && s[s.len() - 2] == '\r' && s.last() == '\n' {
        let t = s.take(s.len() - 2);
        lemma_split_crlf_pieces(t);
        assert forall|k: int| 0 <= k < split_crlf(s).len() implies !has_crlf(
            #[trigger] split_crlf(s)[k],
        ) by {
            if k < split_crlf(t).len() {
                assert(split_crlf(s)[k] == split_crlf(t)[k]);
            } else {
                assert(split_crlf(s)[k].len() == 0);
            }
        }
    } else {
        let t = s.drop_last();
        let c = s.last();
        lemma_split_crlf_pieces(t);
        let init = split_crlf(t);
        let last = init.last();
        let nl = last.push(c);
        assert(!has_crlf(nl)) by {
            if has_crlf(nl) {
                let i = choose|i: int| 0 <= i < nl.len() - 1 && #[trigger] nl[i] == '\r' && nl[i + 1] == '\n';
                if i < nl.len() - 2 {
                    assert(last[i] == '\r' && last[i + 1] == '\n');
                    assert(has_crlf(last));
                } else {
                    assert(last.last() == '\r' && c == '\n');
                    assert(t.last() == s[s.len() - 2]);
                    assert(false);
                }
            }
        }
        assert forall|k: int| 0 <= k < split_crlf(s).len() implies !has_crlf(
            #[trigger] split_crlf(s)[k],
        ) by {
            if k < init.len() - 1 {
                assert(split_crlf(s)[k] == init[k]);
            } else {
                assert(split_crlf(s)[k] == nl);
            }
        }
    }
}

/// The dictionary's words are not empty and hold no `"\r\n"`.
pub proof fn lemma_dictionary_words(s: Seq<char>, i: int)
    requires
        0 <= i < split_crlf(s).filter(non_empty()).len(),
    ensures
        split_crlf(s).filter(non_empty())[i].len() > 0,
        !has_crlf(split_crlf(s).filter(non_empty())[i]),
{
    let d = split_crlf(s).filter(non_empty());
    split_crlf(s).lemma_filter_pred(non_empty(), i);
    assert(d.contains(d[i]));
    split_crlf(s).lemma_filter_contains_rev(non_empty(), d[i]);
    lemma_split_crlf_pieces(s);
    let k = choose|k: int| 0 <= k < split_crlf(s).len() && split_crlf(s)[k] == d[i];
    assert(!has_crlf(split_crlf(s)[k]));
}

} // verus!
