//! One octet's inclusive interval and its textual form: `N` for the single
//! value `N`, `N-M` for the values from `N` to `M`.

use crate::ip::decimal::{parse_octet, read_octet};
use vstd::prelude::*;

verus! {

/// An inclusive interval of octet values, as contracts speak of it.
pub struct Interval {
    pub lower: u8,
    pub upper: u8,
}

impl Interval {
    /// The interval is not inverted.
    pub open spec fn wf(self) -> bool {
        self.lower <= self.upper
    }
}

/// Why a text denotes no interval.
#[derive(Clone, Copy, Debug, PartialEq, Eq, Structural)]
pub enum BoundErrorKind {
    /// The text is malformed: it holds more than one hyphen, or a part of it
    /// is no decimal number, or a number in it is above 255.
    InvalidBound,
    /// Both numbers are in order, but the upper one is below the lower one.
    InvertedBound,
}

/// A text that was refused, and why.
#[derive(Debug)]
pub struct BoundError {
    pub kind: BoundErrorKind,
    pub input: String,
}

/// Whether `c` is white space, by the Unicode property of that name.
pub open spec fn is_whitespace(c: char) -> bool {
    ||| '\u{9}' <= c <= '\u{d}'
    ||| c == ' '
    ||| c == '\u{85}'
    ||| c == '\u{a0}'
    ||| c == '\u{1680}'
    ||| '\u{2000}' <= c <= '\u{200a}'
    ||| c == '\u{2028}'
    ||| c == '\u{2029}'
    ||| c == '\u{202f}'
    ||| c == '\u{205f}'
    ||| c == '\u{3000}'
}

/// `s` without the white space it begins with.
pub open spec fn trim_start(s: Seq<char>) -> Seq<char>
    decreases s.len(),
{
    if s.len() > 0 && is_whitespace(s[0]) {
        trim_start(s.drop_first())
    } else {
        s
    }
}

/// `s` without the white space it ends with.
pub open spec fn trim_end(s: Seq<char>) -> Seq<char>
    decreases s.len(),
{
    if s.len() > 0 && is_whitespace(s.last()) {
        trim_end(s.drop_last())
    } else {
        s
    }
}

/// `s` without the white space around it.
pub open spec fn trim(s: Seq<char>) -> Seq<char> {
    trim_end(trim_start(s))
}

/// The interval that the two parts around a hyphen denote.
pub open spec fn parse_pair(first: Seq<char>, second: Seq<char>) -> Result<
    Interval,
    BoundErrorKind,
> {
    match (parse_octet(first), parse_octet(second)) {
        (Some(lower), Some(upper)) => if upper < lower {
            Err(BoundErrorKind::InvertedBound)
        } else {
            Ok(Interval { lower, upper })
        },
        _ => Err(BoundErrorKind::InvalidBound),
    }
}

/// The interval that `text` denotes, or why it denotes none.
///
/// White space around the text is ignored; white space inside it is not. A
/// text without a hyphen is a single number and denotes the interval that
/// holds only that number. A text with one hyphen is two numbers, the lower
/// and the upper end. A number is what `parse_octet` accepts.
pub open spec fn parse_bounds(text: Seq<char>) -> Result<Interval, BoundErrorKind> {
    let trimmed = trim(text);
    match trimmed.index_of_first('-') {
        None => match parse_octet(trimmed) {
            Some(value) => Ok(Interval { lower: value, upper: value }),
            None => Err(BoundErrorKind::InvalidBound),
        },
        Some(hyphen) => {
            let first = trimmed.subrange(0, hyphen);
            let second = trimmed.subrange(hyphen + 1, trimmed.len() as int);
            if second.contains('-') {
                Err(BoundErrorKind::InvalidBound)
            } else {
                parse_pair(first, second)
            }
        },
    }
}

/// Whether `text` denotes an interval, and if not, why not.
pub open spec fn validate_bounds(text: Seq<char>) -> Result<(), BoundErrorKind> {
    match parse_bounds(text) {
        Ok(_) => Ok(()),
        Err(kind) => Err(kind),
    }
}

/// Validation accepts exactly the texts that parsing accepts, and refuses the
/// others for the reason for which parsing refuses them.
pub proof fn lemma_validate_agrees_with_parse(text: Seq<char>)
    ensures
        validate_bounds(text) is Ok <==> parse_bounds(text) is Ok,
        validate_bounds(text) matches Err(kind) ==> parse_bounds(text) == Err::<
            Interval,
            BoundErrorKind,
        >(kind),
        parse_bounds(text) matches Err(kind) ==> validate_bounds(text) == Err::<
            (),
            BoundErrorKind,
        >(kind),
{
}

/// An interval that parsing yields is never inverted.
pub proof fn lemma_parsed_bounds_wf(text: Seq<char>)
    ensures
        parse_bounds(text) matches Ok(interval) ==> interval.wf(),
{
}

/// White space at the start is what `trim_start` takes away.
proof fn lemma_trim_start(s: Seq<char>, k: int)
    requires
        0 <= k <= s.len(),
        forall|i: int| 0 <= i < k ==> is_whitespace(#[trigger] s[i]),
        k < s.len() ==> !is_whitespace(s[k]),
    ensures
        trim_start(s) == s.subrange(k, s.len() as int),
    decreases k,
{
    if k == 0 {
        assert(s.subrange(0, s.len() as int) =~= s);
    } else {
        let rest = s.drop_first();
        assert forall|i: int| 0 <= i < k - 1 implies is_whitespace(#[trigger] rest[i]) by {
            assert(rest[i] == s[i + 1]);
        }
        lemma_trim_start(rest, k - 1);
        assert(rest.subrange(k - 1, rest.len() as int) =~= s.subrange(k, s.len() as int));
    }
}

/// White space at the end is what `trim_end` takes away.
proof fn lemma_trim_end(s: Seq<char>, k: int)
    requires
        0 <= k <= s.len(),
        forall|i: int| k <= i < s.len() ==> is_whitespace(#[trigger] s[i]),
        0 < k ==> !is_whitespace(s[k - 1]),
    ensures
        trim_end(s) == s.subrange(0, k),
    decreases s.len() - k,
{
    if k == s.len() {
        assert(s.subrange(0, k) =~= s);
    } else {
        let rest = s.drop_last();
        assert forall|i: int| k <= i < rest.len() implies is_whitespace(#[trigger] rest[i]) by {
            assert(rest[i] == s[i]);
        }
        lemma_trim_end(rest, k);
        assert(rest.subrange(0, k) =~= s.subrange(0, k));
    }
}

/// The characters of `text`, one by one.
fn characters(text: &str) -> (chars: Vec<char>)
    ensures
        chars@ == text@,
{
    let mut chars: Vec<char> = Vec::new();
    for c in it: text.chars()
        invariant
            it.seq() == text@,
            chars@ == it.seq().take(it.index()),
    {
        chars.push(c);
        assert(chars@ =~= it.seq().take(it.index() + 1));
    }
    assert(chars@ =~= text@);
    chars
}

fn is_space(c: char) -> (space: bool)
    ensures
        space == is_whitespace(c),
{
    ('\u{9}' <= c && c <= '\u{d}') || c == ' ' || c == '\u{85}' || c == '\u{a0}' || c == '\u{1680}'
        || ('\u{2000}' <= c && c <= '\u{200a}') || c == '\u{2028}' || c == '\u{2029}' || c
        == '\u{202f}' || c == '\u{205f}' || c == '\u{3000}'
}

/// The first index from `from` on, below `to`, at which a hyphen stands;
/// `to` if there is none.
fn find_hyphen(chars: &Vec<char>, from: usize, to: usize) -> (at: usize)
    requires
        from <= to <= chars.len(),
    ensures
        from <= at <= to,
        forall|i: int| from <= i < at ==> chars@[i] != '-',
        at < to ==> chars@[at as int] == '-',
{
    let mut at = from;
    while at < to && chars[at] != '-'
        invariant
            from <= at <= to <= chars.len(),
            forall|i: int| from <= i < at ==> chars@[i] != '-',
        decreases to - at,
    {
        at += 1;
    }
    at
}

fn refuse(kind: BoundErrorKind, range: &str) -> (error: BoundError)
    ensures
        error.kind == kind,
        error.input@ == range@,
{
    BoundError { kind, input: range.to_owned() }
}

/// The values that one octet of an address may take: `lower` to `upper`,
/// both included. A value of this type is never inverted.
#[derive(Clone, Copy, Debug)]
pub struct IpRangeBounds {
    lower: u8,
    upper: u8,
}

impl View for IpRangeBounds {
    type V = Interval;

    closed spec fn view(&self) -> Interval {
        Interval { lower: self.lower, upper: self.upper }
    }
}

impl IpRangeBounds {
    /// Holds of every value of this type.
    #[verifier::type_invariant]
    pub open spec fn wf(self) -> bool {
        self@.wf()
    }

    /// Reads an interval from its textual form.
    pub fn from_str(range: &str) -> (result: Result<IpRangeBounds, BoundError>)
        ensures
            match result {
                Ok(bounds) => parse_bounds(range@) == Ok::<Interval, BoundErrorKind>(bounds@),
                Err(error) => parse_bounds(range@) == Err::<Interval, BoundErrorKind>(error.kind)
                    && error.input@ == range@,
            },
    {
        let chars = characters(range);
        let length = chars.len();
        let mut start: usize = 0;
        while start < length && is_space(chars[start])
            invariant
                start <= length == chars.len(),
                forall|i: int| 0 <= i < start ==> is_whitespace(#[trigger] chars@[i]),
            decreases length - start,
        {
            start += 1;
        }
        let mut end = length;
        while start < end && is_space(chars[end - 1])
            invariant
                start <= end <= length == chars.len(),
                forall|i: int| end <= i < length ==> is_whitespace(#[trigger] chars@[i]),
            decreases end - start,
        {
            end -= 1;
        }
        let ghost trimmed = chars@.subrange(start as int, end as int);
        proof {
            let tail = chars@.subrange(start as int, length as int);
            lemma_trim_start(chars@, start as int);
            assert forall|i: int| end - start <= i < tail.len() implies is_whitespace(
                #[trigger] tail[i],
            ) by {
                assert(tail[i] == chars@[start + i]);
            }
            lemma_trim_end(tail, end - start);
            assert(tail.subrange(0, end - start) =~= trimmed);
            assert(trim(range@) == trimmed);
        }
        let hyphen = find_hyphen(&chars, start, end);
        proof {
            trimmed.index_of_first_ensures('-');
            if hyphen < end {
                assert(trimmed[hyphen - start] == '-');
                assert(trimmed.index_of_first('-') == Some(hyphen - start));
            } else {
                assert(trimmed.index_of_first('-') is None);
            }
        }
        if hyphen == end {
            assert(chars@.subrange(start as int, end as int) == trimmed);
            return match read_octet(&chars, start, end) {
                Some(value) => Ok(IpRangeBounds { lower: value, upper: value }),
                None => Err(refuse(BoundErrorKind::InvalidBound, range)),
            };
        }
        let ghost first = trimmed.subrange(0, hyphen - start);
        let ghost second = trimmed.subrange(hyphen - start + 1, trimmed.len() as int);
        assert(first =~= chars@.subrange(start as int, hyphen as int));
        assert(second =~= chars@.subrange(hyphen + 1, end as int));
        let another = find_hyphen(&chars, hyphen + 1, end);
        if another < end {
            assert(second[another - hyphen - 1] == '-');
            return Err(refuse(BoundErrorKind::InvalidBound, range));
        }
        assert(!second.contains('-'));
        let lower = read_octet(&chars, start, hyphen);
        let upper = read_octet(&chars, hyphen + 1, end);
        match (lower, upper) {
            (Some(lower), Some(upper)) => {
                if upper < lower {
                    Err(refuse(BoundErrorKind::InvertedBound, range))
                } else {
                    Ok(IpRangeBounds { lower, upper })
                }
            },
            _ => Err(refuse(BoundErrorKind::InvalidBound, range)),
        }
    }

    /// Checks that `range` denotes an interval, without building it.
    pub fn validate_ip_range(range: &str) -> (result: Result<(), BoundError>)
        ensures
            match result {
                Ok(_) => validate_bounds(range@) == Ok::<(), BoundErrorKind>(()),
                Err(error) => validate_bounds(range@) == Err::<(), BoundErrorKind>(error.kind)
                    && error.input@ == range@,
            },
    {
        match IpRangeBounds::from_str(range) {
            Ok(_) => Ok(()),
            Err(error) => Err(error),
        }
    }

    /// The least value of the interval.
    pub fn lower(&self) -> (value: u8)
        ensures
            value == self@.lower,
            self@.wf(),
    {
        proof {
            use_type_invariant(self);
        }
        self.lower
    }

    /// The greatest value of the interval.
    pub fn upper(&self) -> (value: u8)
        ensures
            value == self@.upper,
            self@.wf(),
    {
        proof {
            use_type_invariant(self);
        }
        self.upper
    }
}

} // verus!
