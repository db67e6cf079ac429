//! Decimal text: how an octet is written and read, and how an address is
//! written in dotted-quad form.

use crate::ip::enumeration::Octets;
use vstd::prelude::*;

verus! {

/// The character that stands for the decimal digit `d`.
pub open spec fn digit_char(d: int) -> char {
    ('0' as int + d) as char
}

/// An octet in decimal, without sign, padding or leading zeros.
pub open spec fn octet_text(v: u8) -> Seq<char> {
    if v < 10 {
        seq![digit_char(v as int)]
    } else if v < 100 {
        seq![digit_char(v as int / 10), digit_char(v as int % 10)]
    } else {
        seq![digit_char(v as int / 100), digit_char(v as int / 10 % 10), digit_char(v as int % 10)]
    }
}

/// The one-character literal for a decimal digit.
fn digit_str(d: u8) -> (s: &'static str)
    requires
        d < 10,
    ensures
        s@ == seq![digit_char(d as int)],
{
    proof {
        reveal_strlit("0");
        reveal_strlit("1");
        reveal_strlit("2");
        reveal_strlit("3");
        reveal_strlit("4");
        reveal_strlit("5");
        reveal_strlit("6");
        reveal_strlit("7");
        reveal_strlit("8");
        reveal_strlit("9");
    }
    let s = match d {
        0 => "0",
        1 => "1",
        2 => "2",
        3 => "3",
        4 => "4",
        5 => "5",
        6 => "6",
        7 => "7",
        8 => "8",
        _ => "9",
    };
    assert(s@ =~= seq![digit_char(d as int)]);
    s
}

/// Appends the decimal text of `v` to `out`.
pub fn push_octet(out: &mut String, v: u8)
    ensures
        final(out)@ == old(out)@ + octet_text(v),
{
    if v >= 100 {
        out.append(digit_str(v / 100));
    }
    if v >= 10 {
        out.append(digit_str(v / 10 % 10));
    }
    out.append(digit_str(v % 10));
    assert(out@ =~= old(out)@ + octet_text(v));
}

/// Whether `c` is one of the ten decimal digits.
pub open spec fn is_digit(c: char) -> bool {
    '0' <= c <= '9'
}

/// The number that the decimal digit `c` stands for.
pub open spec fn digit_value(c: char) -> int {
    c as int - '0' as int
}

/// Whether `s` holds decimal digits only.
pub open spec fn all_digits(s: Seq<char>) -> bool {
    forall|i: int| 0 <= i < s.len() ==> is_digit(#[trigger] s[i])
}

/// The number that a run of decimal digits stands for, leading zeros allowed.
pub open spec fn decimal_value(s: Seq<char>) -> int
    decreases s.len(),
{
    if s.len() == 0 {
        0
    } else {
        decimal_value(s.drop_last()) * 10 + digit_value(s.last())
    }
}

/// `s` without the plus sign that may stand in front of a number.
pub open spec fn without_sign(s: Seq<char>) -> Seq<char> {
    if s.len() > 0 && s[0] == '+' {
        s.drop_first()
    } else {
        s
    }
}

/// The octet that `s` denotes: an optional plus sign, then one or more
/// decimal digits whose value is at most 255. Anything else denotes none.
pub open spec fn parse_octet(s: Seq<char>) -> Option<u8> {
    let digits = without_sign(s);
    if digits.len() > 0 && all_digits(digits) && decimal_value(digits) <= 255 {
        Some(decimal_value(digits) as u8)
    } else {
        None
    }
}

/// The value of a run of digits is at least the value of each of its
/// prefixes.
pub proof fn lemma_decimal_value_prefix(s: Seq<char>, k: int)
    requires
        all_digits(s),
        0 <= k <= s.len(),
    ensures
        0 <= decimal_value(s.take(k)) <= decimal_value(s),
    decreases s.len(),
{
    if k == s.len() {
        assert(s.take(k) =~= s);
        if s.len() > 0 {
            lemma_decimal_value_prefix(s.drop_last(), k - 1);
            assert(s.drop_last().take(k - 1) =~= s.drop_last());
            assert(is_digit(s[s.len() - 1]));
        }
    } else {
        lemma_decimal_value_prefix(s.drop_last(), k);
        assert(s.drop_last().take(k) =~= s.take(k));
        assert(is_digit(s[s.len() - 1]));
    }
}

/// What is written for an octet is read back as that octet.
pub proof fn lemma_octet_text_is_read_back(v: u8)
    ensures
        parse_octet(octet_text(v)) == Some(v),
{
    let text = octet_text(v);
    reveal_with_fuel(decimal_value, 4);
    assert(without_sign(text) == text);
    if v < 10 {
        assert(text.drop_last() =~= Seq::<char>::empty());
    } else if v < 100 {
        assert(text.drop_last() =~= seq![digit_char(v as int / 10)]);
        assert(text.drop_last().drop_last() =~= Seq::<char>::empty());
    } else {
        assert(text.drop_last() =~= seq![digit_char(v as int / 100), digit_char(v as int / 10 % 10)]);
        assert(text.drop_last().drop_last() =~= seq![digit_char(v as int / 100)]);
        assert(text.drop_last().drop_last().drop_last() =~= Seq::<char>::empty());
    }
}

/// An octet is written with one to three digits.
pub proof fn lemma_octet_text_shape(v: u8)
    ensures
        1 <= octet_text(v).len() <= 3,
        all_digits(octet_text(v)),
{
}

/// Two runs of digits, each followed by a full stop and more text: where the
/// whole texts are equal, so are the runs, and so is what follows them.
proof fn lemma_split_at_stop(x: Seq<char>, xs: Seq<char>, y: Seq<char>, ys: Seq<char>)
    requires
        all_digits(x),
        all_digits(y),
        x + seq!['.'] + xs == y + seq!['.'] + ys,
    ensures
        x == y,
        xs == ys,
{
    let s = x + seq!['.'] + xs;
    let t = y + seq!['.'] + ys;
    assert(s.len() == x.len() + 1 + xs.len());
    assert(t.len() == y.len() + 1 + ys.len());
    assert(s[x.len() as int] == '.');
    assert(t[y.len() as int] == '.');
    if x.len() < y.len() {
        assert(t[x.len() as int] == y[x.len() as int]);
        assert(is_digit(y[x.len() as int]));
    }
    if y.len() < x.len() {
        assert(s[y.len() as int] == x[y.len() as int]);
        assert(is_digit(x[y.len() as int]));
    }
    assert forall|i: int| 0 <= i < x.len() implies x[i] == y[i] by {
        assert(s[i] == x[i]);
        assert(t[i] == y[i]);
    }
    assert(x =~= y);
    assert forall|i: int| 0 <= i < xs.len() implies xs[i] == ys[i] by {
        assert(s[x.len() + 1 + i] == xs[i]);
        assert(t[y.len() + 1 + i] == ys[i]);
    }
    assert(xs =~= ys);
}

/// Different addresses are written differently.
pub proof fn lemma_dotted_quad_injective(a: Octets, b: Octets)
    requires
        dotted_quad(a) == dotted_quad(b),
    ensures
        a == b,
{
    let stop = seq!['.'];
    let a2 = octet_text(a.o2) + stop + octet_text(a.o3);
    let b2 = octet_text(b.o2) + stop + octet_text(b.o3);
    let a1 = octet_text(a.o1) + stop + a2;
    let b1 = octet_text(b.o1) + stop + b2;
    assert(dotted_quad(a) =~= octet_text(a.o0) + stop + a1);
    assert(dotted_quad(b) =~= octet_text(b.o0) + stop + b1);
    lemma_octet_text_shape(a.o0);
    lemma_octet_text_shape(a.o1);
    lemma_octet_text_shape(a.o2);
    lemma_octet_text_shape(b.o0);
    lemma_octet_text_shape(b.o1);
    lemma_octet_text_shape(b.o2);
    lemma_split_at_stop(octet_text(a.o0), a1, octet_text(b.o0), b1);
    lemma_split_at_stop(octet_text(a.o1), a2, octet_text(b.o1), b2);
    lemma_split_at_stop(octet_text(a.o2), octet_text(a.o3), octet_text(b.o2), octet_text(b.o3));
    lemma_octet_text_is_read_back(a.o0);
    lemma_octet_text_is_read_back(a.o1);
    lemma_octet_text_is_read_back(a.o2);
    lemma_octet_text_is_read_back(a.o3);
    lemma_octet_text_is_read_back(b.o0);
    lemma_octet_text_is_read_back(b.o1);
    lemma_octet_text_is_read_back(b.o2);
    lemma_octet_text_is_read_back(b.o3);
}

/// Reads the octet that the characters from `from` up to but not including
/// `to` denote.
pub fn read_octet(chars: &Vec<char>, from: usize, to: usize) -> (value: Option<u8>)
    requires
        from <= to <= chars.len(),
    ensures
        value == parse_octet(chars@.subrange(from as int, to as int)),
{
    let start = if from < to && chars[from] == '+' {
        from + 1
    } else {
        from
    };
    let ghost digits = chars@.subrange(start as int, to as int);
    assert(digits =~= without_sign(chars@.subrange(from as int, to as int)));
    if start == to {
        return None;
    }
    let mut value: u32 = 0;
    let mut i = start;
    assert(digits.take(0) =~= Seq::<char>::empty());
    while i < to
        invariant
            from <= start <= i <= to <= chars.len(),
            digits == chars@.subrange(start as int, to as int),
            digits == without_sign(chars@.subrange(from as int, to as int)),
            all_digits(digits.take(i - start)),
            value == decimal_value(digits.take(i - start)),
            value <= 255,
        decreases to - i,
    {
        let c = chars[i];
        let ghost read = digits.take(i - start);
        let ghost longer = digits.take(i - start + 1);
        assert(longer.drop_last() =~= read);
        assert(longer.last() == c);
        if !('0' <= c && c <= '9') {
            assert(!is_digit(digits[i - start]));
            return None;
        }
        value = value * 10 + (c as u32 - '0' as u32);
        if value > 255 {
            proof {
                if all_digits(digits) {
                    lemma_decimal_value_prefix(digits, i - start + 1);
                }
            }
            return None;
        }
        i += 1;
    }
    assert(digits.take(to - start) =~= digits);
    Some(value as u8)
}

/// An address in dotted-quad form: its four octets in decimal, most
/// significant first, with a full stop between neighbours.
pub open spec fn dotted_quad(a: Octets) -> Seq<char> {
    octet_text(a.o0) + seq!['.'] + octet_text(a.o1) + seq!['.'] + octet_text(a.o2) + seq!['.']
        + octet_text(a.o3)
}

/// Writes an address in dotted-quad form.
pub fn format_address(a: Octets) -> (text: String)
    ensures
        text@ == dotted_quad(a),
{
    proof {
        reveal_strlit(".");
    }
    let mut text = String::new();
    push_octet(&mut text, a.o0);
    text.append(".");
    push_octet(&mut text, a.o1);
    text.append(".");
    push_octet(&mut text, a.o2);
    text.append(".");
    push_octet(&mut text, a.o3);
    assert(text@ =~= dotted_quad(a));
    text
}

} // verus!
