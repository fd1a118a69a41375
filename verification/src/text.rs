//! The lines of the text files that meshes, chains and currents are read
//! from: fields separated by white space, and the indices written in them.

use vstd::prelude::*;

verus! {

/// A stretch of a line: the bytes from `start` up to `end`, `end` left out.
#[derive(Debug, Clone, Copy, PartialEq, Eq, Structural)]
pub struct Span {
    pub start: usize,
    pub end: usize,
}

/// The byte is white space: a blank, or one of the control characters from
/// the horizontal tab to the carriage return.
pub open spec fn is_space(b: u8) -> bool {
    b == 0x20 || (0x09 <= b && b <= 0x0d)
}

/// The byte is a decimal digit.
pub open spec fn is_digit(b: u8) -> bool {
    0x30 <= b && b <= 0x39
}

/// The stretch is a field of the line: it is not empty, holds no white
/// space, and on each side there is white space or the line ends.
pub open spec fn is_field(line: Seq<u8>, s: Span) -> bool {
    &&& s.start < s.end <= line.len()
    &&& forall|i: int| s.start <= i < s.end ==> !is_space(#[trigger] line[i])
    &&& (s.start == 0 || is_space(line[s.start - 1]))
    &&& (s.end == line.len() || is_space(line[s.end as int]))
}

/// The stretches are the fields of the line up to `upto`, from left to
/// right: every byte before `upto` that is no white space lies in one of
/// them.
pub open spec fn are_fields_upto(line: Seq<u8>, f: Seq<Span>, upto: int) -> bool {
    &&& forall|k: int| 0 <= k < f.len() ==> is_field(line, #[trigger] f[k]) && f[k].end <= upto
    &&& forall|k: int, j: int| 0 <= k < j < f.len()
        ==> (#[trigger] f[k]).end < (#[trigger] f[j]).start
    &&& forall|i: int|
        0 <= i < upto && !is_space(#[trigger] line[i]) ==> exists|k: int|
            0 <= k < f.len() && (#[trigger] f[k]).start <= i < f[k].end
}

/// The stretches are the fields of the line, from left to right.
pub open spec fn are_fields(line: Seq<u8>, f: Seq<Span>) -> bool {
    are_fields_upto(line, f, line.len() as int)
}

/// The fields of the line from `i` on, from left to right, when `open` is
/// where a field that reaches `i` began, or `-1` if there is none: a field
/// is closed by white space and by the end of the line.
pub open spec fn fields_from(line: Seq<u8>, i: int, open: int) -> Seq<Span>
    decreases line.len() - i,
{
    let closed = if open >= 0 {
        seq![Span { start: open as usize, end: i as usize }]
    } else {
        Seq::empty()
    };
    if 0 <= i < line.len() {
        if is_space(line[i]) {
            closed + fields_from(line, i + 1, -1)
        } else {
            fields_from(
                line,
                i + 1,
                if open >= 0 {
                    open
                } else {
                    i
                },
            )
        }
    } else {
        closed
    }
}

/// The fields of the line, from left to right: its longest stretches
/// without white space.
pub open spec fn fields_of(line: Seq<u8>) -> Seq<Span> {
    fields_from(line, 0, -1)
}

/// The number that a sequence of decimal digits writes.
pub open spec fn decimal(digits: Seq<u8>) -> nat
    decreases digits.len(),
{
    if digits.len() == 0 {
        0
    } else {
        decimal(digits.drop_last()) * 10 + (digits.last() - 0x30) as nat
    }
}

/// The bytes are one or more decimal digits.
pub open spec fn all_digits(s: Seq<u8>) -> bool {
    s.len() > 0 && forall|i: int| 0 <= i < s.len() ==> is_digit(#[trigger] s[i])
}

/// The text without a plus sign at its front.
pub open spec fn unsigned_part(s: Seq<u8>) -> Seq<u8> {
    if s.len() > 0 && s[0] == 0x2b {
        s.subrange(1, s.len() as int)
    } else {
        s
    }
}

/// The index that a text writes: decimal digits, with or without a plus sign
/// before them, that write a number which a `usize` can hold. Every other
/// text writes none.
pub open spec fn index_of(s: Seq<u8>) -> Option<usize> {
    if all_digits(unsigned_part(s)) && decimal(unsigned_part(s)) <= usize::MAX {
        Some(decimal(unsigned_part(s)) as usize)
    } else {
        None
    }
}

/// The text of the stretch.
pub open spec fn text_of(line: Seq<u8>, s: Span) -> Seq<u8> {
    line.subrange(s.start as int, s.end as int)
}

/// The line is a comment: it begins with a number sign.
pub open spec fn is_comment_line(line: Seq<u8>) -> bool {
    line.len() > 0 && line[0] == 0x23
}

/// More digits write no smaller number.
proof fn lemma_decimal_grows(s: Seq<u8>, k: int)
    requires
        0 <= k <= s.len(),
    ensures
        decimal(s.subrange(0, k)) <= decimal(s),
    decreases s.len() - k,
{
    if k == s.len() {
        assert(s.subrange(0, k) =~= s);
    } else {
        lemma_decimal_grows(s, k + 1);
        let longer = s.subrange(0, k + 1);
        assert(longer.drop_last() =~= s.subrange(0, k));
    }
}

/// Tells whether the byte is white space.
fn space(b: u8) -> (r: bool)
    ensures
        r == is_space(b),
{
    b == 0x20 || (0x09 <= b && b <= 0x0d)
}

/// Tells whether the line is a comment.
pub fn is_comment(line: &[u8]) -> (r: bool)
    ensures
        r == is_comment_line(line@),
{
    line.len() > 0 && line[0] == 0x23
}

/// The fields of the line, from left to right.
pub fn fields(line: &[u8]) -> (f: Vec<Span>)
    ensures
        f@ == fields_of(line@),
        are_fields(line@, f@),
{
    let n: usize = line.len();
    let mut f: Vec<Span> = Vec::new();
    let mut i: usize = 0;
    while i < n
        invariant
            n == line@.len(),
            i <= n,
            are_fields_upto(line@, f@, i as int),
            i == 0 || is_space(line@[i - 1]) || i == n || is_space(line@[i as int]),
            fields_of(line@) == f@ + fields_from(line@, i as int, -1),
        decreases n - i,
    {
        if space(line[i]) {
            i += 1;
        } else {
            let start: usize = i;
            i += 1;
            while i < n && !space(line[i])
                invariant
                    n == line@.len(),
                    start < i <= n,
                    !is_space(line@[start as int]),
                    forall|j: int| start <= j < i ==> !is_space(#[trigger] line@[j]),
                    fields_from(line@, start as int, -1) == fields_from(line@, i as int,
                        start as int),
                decreases n - i,
            {
                i += 1;
            }
            let ghost before = f@;
            f.push(Span { start, end: i });
            proof {
                let s = Span { start, end: i };
                assert(f@ + fields_from(line@, i as int, -1) =~= before + fields_from(
                    line@,
                    i as int,
                    start as int,
                ));
                assert(is_field(line@, s));
                assert forall|k: int| 0 <= k < f@.len() implies is_field(line@, #[trigger] f@[k])
                    && f@[k].end <= i by {
                    if k < before.len() {
                        assert(f@[k] == before[k]);
                    }
                }
                assert forall|k: int, j: int| 0 <= k < j < f@.len()
                    implies (#[trigger] f@[k]).end < (
                #[trigger] f@[j]).start by {
                    assert(f@[k] == before[k]);
                    if j < before.len() {
                        assert(f@[j] == before[j]);
                    } else {
                        assert(before[k].end <= start);
                        assert(is_field(line@, before[k]));
                    }
                }
                assert forall|x: int| 0 <= x < i && !is_space(#[trigger] line@[x]) implies exists|
                    k: int,
                | 0 <= k < f@.len() && (#[trigger] f@[k]).start <= x < f@[k].end by {
                    if x < start {
                        let k = choose|k: int|
                            0 <= k < before.len() && (#[trigger] before[k]).start <= x
                                < before[k].end;
                        assert(f@[k] == before[k]);
                    } else {
                        assert(f@[before.len() as int] == s);
                    }
                }
            }
        }
    }
    proof {
        assert(f@ + fields_from(line@, n as int, -1) =~= f@);
    }
    f
}

/// The index that the stretch of the line writes, if it lies within the
/// line and writes one.
pub fn parse_index(line: &[u8], s: Span) -> (r: Option<usize>)
    ensures
        s.start <= s.end <= line@.len() ==> r == index_of(text_of(line@, s)),
        !(s.start <= s.end <= line@.len()) ==> r is None,
{
    if s.start > s.end || s.end > line.len() {
        return None;
    }
    let ghost text = text_of(line@, s);
    let mut i: usize = s.start;
    if i < s.end && line[i] == 0x2b {
        i += 1;
    }
    let first: usize = i;
    let ghost body = unsigned_part(text);
    proof {
        assert(body =~= line@.subrange(first as int, s.end as int));
    }
    if first == s.end {
        return None;
    }
    let mut value: usize = 0;
    while i < s.end
        invariant
            s.start <= first <= i <= s.end <= line@.len(),
            body == line@.subrange(first as int, s.end as int),
            body == unsigned_part(text_of(line@, s)),
            forall|j: int| 0 <= j < i - first ==> is_digit(#[trigger] body[j]),
            value == decimal(body.subrange(0, i - first)),
        decreases s.end - i,
    {
        let b: u8 = line[i];
        if !(0x30 <= b && b <= 0x39) {
            proof {
                assert(body[i - first] == b);
            }
            return None;
        }
        let digit: usize = (b - 0x30) as usize;
        let ghost longer = body.subrange(0, i - first + 1);
        proof {
            assert(longer.drop_last() =~= body.subrange(0, i - first));
            assert(longer.last() == b);
            assert(decimal(longer) == value * 10 + digit);
            lemma_decimal_grows(body, i - first + 1);
        }
        let tens: usize = match value.checked_mul(10) {
            Some(v) => v,
            None => {
                return None;
            },
        };
        value = match tens.checked_add(digit) {
            Some(v) => v,
            None => {
                return None;
            },
        };
        i += 1;
        proof {
            assert forall|j: int| 0 <= j < i - first implies is_digit(#[trigger] body[j]) by {
                if j == i - first - 1 {
                    assert(body[j] == b);
                }
            }
        }
    }
    proof {
        assert(body.subrange(0, i - first) =~= body);
    }
    Some(value)
}

} // verus!
