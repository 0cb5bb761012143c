//! Literals of index values, and the ranges that query texts write.

use crate::num::{decimal_of, int_in, read_decimal, read_int, Decimal, NANO_CAP};
use crate::post::{file_ext_named, rating_named, status_named, FileExt, Rating, Status};
use crate::range_index::RangeQuery;
use crate::text::{
    chars_of, find_char, index_of, lowercase_of, slice_chars, spells, string_of, to_lowercase,
};
use vstd::prelude::*;

verus! {

/// The kinds of values that the fields of a post have.
#[derive(Clone, Copy, Debug, PartialEq, Eq, Structural)]
pub enum ValueKind {
    U16,
    U32,
    I32,
    I64,
    /// A number or `none`; `none` comes before every number.
    OptionU32,
    /// Width by height, in thousandths.
    Ratio,
    /// Width times height, in pixels; written in millions of pixels.
    MPixel,
    Status,
    FileExt,
    Rating,
}

/// The number that stands for an optional id: -1 for none.
pub open spec fn option_code(v: Option<u32>) -> i64 {
    match v {
        Some(x) => x as i64,
        None => -1i64,
    }
}

/// The number that stands for an optional id: -1 for none.
pub fn option_key(v: Option<u32>) -> (c: i64)
    ensures
        c == option_code(v),
{
    match v {
        Some(x) => x as i64,
        None => -1,
    }
}

/// `num` by `den` in thousandths, cut to a whole number and to 32 bits. By
/// zero, nothing gives 0 and anything else the largest number.
pub open spec fn milli_ratio(num: int, den: int) -> i64 {
    if den == 0 {
        if num == 0 {
            0
        } else {
            0xffff_ffff
        }
    } else if num * 1000 / den > 0xffff_ffff {
        0xffff_ffff
    } else {
        (num * 1000 / den) as i64
    }
}

/// `num` by `den` in thousandths.
pub fn ratio_code(num: u128, den: u128) -> (c: i64)
    requires
        num <= 0xffff_ffff_ffff_ffff_ffff_ffff,
    ensures
        c == milli_ratio(num as int, den as int),
{
    if den == 0 {
        if num == 0 {
            0
        } else {
            0xffff_ffff
        }
    } else {
        let q = num * 1000 / den;
        if q > 0xffff_ffff {
            0xffff_ffff
        } else {
            q as i64
        }
    }
}

/// The ratio of the decimal `a` by the decimal `b`, in thousandths: 0 where
/// one of the two alone is negative, and no ratio where one of them is as
/// large as a decimal can be.
pub open spec fn ratio_of(a: Decimal, b: Decimal) -> Option<i64> {
    if a.nano >= NANO_CAP || b.nano >= NANO_CAP {
        None
    } else if a.negative != b.negative {
        Some(0)
    } else {
        Some(milli_ratio(a.nano as int, b.nano as int))
    }
}

/// The decimal `d` in thousandths, cut to a whole number and to 32 bits; 0
/// where it is negative.
pub open spec fn milli_of(d: Decimal) -> i64 {
    if d.negative {
        0
    } else if d.nano / 1_000_000 > 0xffff_ffff {
        0xffff_ffff
    } else {
        (d.nano / 1_000_000) as i64
    }
}

/// The ratio that `s` writes, in thousandths: a decimal, or one decimal by
/// another. A negative ratio counts as 0.
pub open spec fn ratio_in(s: Seq<char>) -> Option<i64> {
    let slash = index_of(s, '/');
    if slash < s.len() {
        match (decimal_of(s.subrange(0, slash)), decimal_of(s.subrange(slash + 1, s.len() as int))) {
            (Some(a), Some(b)) => ratio_of(a, b),
            _ => None,
        }
    } else {
        match decimal_of(s) {
            Some(d) => Some(milli_of(d)),
            None => None,
        }
    }
}

/// The number of pixels that `s` writes in millions: a decimal, times a
/// million, cut to a whole number. A negative decimal counts as 0 and one
/// above 1000 as 1000.
pub open spec fn mpixel_in(s: Seq<char>) -> Option<i64> {
    match decimal_of(s) {
        Some(d) => Some(
            if d.negative {
                0
            } else if d.nano / 1000 > 1_000_000_000 {
                1_000_000_000
            } else {
                (d.nano / 1000) as i64
            },
        ),
        None => None,
    }
}

/// The value of the kind `kind` that `s` writes, as the number that stands for it.
pub open spec fn value_in(kind: ValueKind, s: Seq<char>) -> Option<i64> {
    match kind {
        ValueKind::U16 => int_in(s, 0, 0xffff),
        ValueKind::U32 => int_in(s, 0, 0xffff_ffff),
        ValueKind::I32 => int_in(s, -0x8000_0000i64, 0x7fff_ffff),
        ValueKind::I64 => int_in(s, i64::MIN, i64::MAX),
        ValueKind::OptionU32 => if s == "none"@ {
            Some(-1i64)
        } else {
            int_in(s, 0, 0xffff_ffff)
        },
        ValueKind::Ratio => ratio_in(s),
        ValueKind::MPixel => mpixel_in(s),
        ValueKind::Status => match status_named(lowercase_of(s)) {
            Some(v) => Some(v.code()),
            None => None,
        },
        ValueKind::FileExt => match file_ext_named(lowercase_of(s)) {
            Some(v) => Some(v.code()),
            None => None,
        },
        ValueKind::Rating => match rating_named(lowercase_of(s)) {
            Some(v) => Some(v.code()),
            None => None,
        },
    }
}

/// Reads the value of the kind `kind` at `from..to` of `s`.
pub fn read_value(kind: ValueKind, s: &Vec<char>, from: usize, to: usize) -> (r: Option<i64>)
    requires
        from <= to <= s@.len(),
    ensures
        r == value_in(kind, s@.subrange(from as int, to as int)),
{
    let ghost text = s@.subrange(from as int, to as int);
    match kind {
        ValueKind::U16 => read_int(s, from, to, 0, 0xffff),
        ValueKind::U32 => read_int(s, from, to, 0, 0xffff_ffff),
        ValueKind::I32 => read_int(s, from, to, -0x8000_0000, 0x7fff_ffff),
        ValueKind::I64 => read_int(s, from, to, i64::MIN, i64::MAX),
        ValueKind::OptionU32 => {
            if spells(s, from, to, "none") {
                Some(-1)
            } else {
                read_int(s, from, to, 0, 0xffff_ffff)
            }
        },
        ValueKind::Ratio => {
            let slash = find_char(s, from, to, '/');
            if slash < to {
                proof {
                    assert(text.subrange(0, slash - from) == s@.subrange(from as int, slash as int));
                    assert(text.subrange(slash - from + 1, text.len() as int) == s@.subrange(
                        slash + 1,
                        to as int,
                    ));
                }
                match (read_decimal(s, from, slash), read_decimal(s, slash + 1, to)) {
                    (Some(a), Some(b)) => {
                        if a.nano >= NANO_CAP || b.nano >= NANO_CAP {
                            None
                        } else if a.negative != b.negative {
                            Some(0)
                        } else {
                            Some(ratio_code(a.nano, b.nano))
                        }
                    },
                    _ => None,
                }
            } else {
                match read_decimal(s, from, to) {
                    Some(d) => {
                        let q = d.nano / 1_000_000;
                        if d.negative {
                            Some(0)
                        } else if q > 0xffff_ffff {
                            Some(0xffff_ffff)
                        } else {
                            Some(q as i64)
                        }
                    },
                    None => None,
                }
            }
        },
        ValueKind::MPixel => match read_decimal(s, from, to) {
            Some(d) => {
                let q = d.nano / 1000;
                if d.negative {
                    Some(0)
                } else if q > 1_000_000_000 {
                    Some(1_000_000_000)
                } else {
                    Some(q as i64)
                }
            },
            None => None,
        },
        ValueKind::Status => {
            let word = string_of(&slice_chars(s, from, to));
            match Status::from_lower(to_lowercase(word.as_str()).as_str()) {
                Some(v) => Some(v.key_code()),
                None => None,
            }
        },
        ValueKind::FileExt => {
            let word = string_of(&slice_chars(s, from, to));
            match FileExt::from_lower(to_lowercase(word.as_str()).as_str()) {
                Some(v) => Some(v.key_code()),
                None => None,
            }
        },
        ValueKind::Rating => {
            let word = string_of(&slice_chars(s, from, to));
            match Rating::from_lower(to_lowercase(word.as_str()).as_str()) {
                Some(v) => Some(v.key_code()),
                None => None,
            }
        },
    }
}

/// Whether two points stand at position `j` of `s`.
pub open spec fn dots(s: Seq<char>, j: int) -> bool {
    0 <= j && j + 1 < s.len() && s[j] == '.' && s[j + 1] == '.'
}

/// The first position at which two points follow each other, or the length of `s`.
pub open spec fn dots_at(s: Seq<char>) -> int
    decreases s.len(),
{
    if s.len() < 2 {
        s.len() as int
    } else if s[0] == '.' && s[1] == '.' {
        0
    } else {
        1 + dots_at(s.skip(1))
    }
}

proof fn lemma_dots_at(s: Seq<char>, i: int)
    requires
        0 <= i <= s.len(),
        forall|j: int| 0 <= j < i ==> !#[trigger] dots(s, j),
        i < s.len() ==> dots(s, i),
    ensures
        dots_at(s) == i,
    decreases s.len(),
{
    if s.len() >= 2 && i > 0 {
        let t = s.skip(1);
        assert forall|j: int| 0 <= j < i - 1 implies !#[trigger] dots(t, j) by {
            assert(!dots(s, j + 1));
            if j + 1 < t.len() {
                assert(t[j] == s[j + 1] && t[j + 1] == s[j + 2]);
            }
        }
        if i - 1 < t.len() {
            assert(dots(s, i));
            assert(t[i - 1] == s[i] && t[i] == s[i + 1]);
        }
        assert(!dots(s, 0));
        lemma_dots_at(t, i - 1);
    } else if s.len() < 2 {
        if i < s.len() {
            assert(dots(s, i));
        }
    } else {
        assert(dots(s, 0));
    }
}

/// The range that `s` writes over values of the kind `kind`: `<v`, `>v`,
/// `=v`, `v..w`, `v..=w`, `v..`, `..w`, or a value alone.
pub open spec fn range_in(kind: ValueKind, s: Seq<char>) -> Option<RangeQuery> {
    if s.len() > 0 && s[0] == '<' {
        match value_in(kind, s.skip(1)) {
            Some(v) => Some(RangeQuery::Below(v)),
            None => None,
        }
    } else if s.len() > 0 && s[0] == '>' {
        match value_in(kind, s.skip(1)) {
            Some(v) => Some(RangeQuery::Above(v)),
            None => None,
        }
    } else if s.len() > 0 && s[0] == '=' {
        match value_in(kind, s.skip(1)) {
            Some(v) => Some(RangeQuery::Exactly(v)),
            None => None,
        }
    } else if dots_at(s) < s.len() {
        let p = dots_at(s);
        let left = s.subrange(0, p);
        let after = if p + 2 < s.len() && s[p + 2] == '=' {
            p + 3
        } else {
            p + 2
        };
        let right = s.subrange(after, s.len() as int);
        if left.len() == 0 && right.len() == 0 {
            None
        } else if left.len() == 0 {
            match value_in(kind, right) {
                Some(w) => Some(RangeQuery::AtMost(w)),
                None => None,
            }
        } else if right.len() == 0 {
            match value_in(kind, left) {
                Some(v) => Some(RangeQuery::AtLeast(v)),
                None => None,
            }
        } else {
            match (value_in(kind, left), value_in(kind, right)) {
                (Some(v), Some(w)) => Some(RangeQuery::Between(v, w)),
                _ => None,
            }
        }
    } else {
        match value_in(kind, s) {
            Some(v) => Some(RangeQuery::Exactly(v)),
            None => None,
        }
    }
}

/// Reads a range over values of the kind `kind`.
pub fn read_range(kind: ValueKind, text: &str) -> (r: Option<RangeQuery>)
    ensures
        r == range_in(kind, text@),
{
    let s = chars_of(text);
    let n = s.len();
    proof {
        if n >= 1 {
            assert(s@.skip(1) =~= s@.subrange(1, n as int));
        }
        assert(s@.subrange(0, n as int) == s@);
    }
    if n > 0 && s[0] == '<' {
        return match read_value(kind, &s, 1, n) {
            Some(v) => Some(RangeQuery::Below(v)),
            None => None,
        };
    }
    if n > 0 && s[0] == '>' {
        return match read_value(kind, &s, 1, n) {
            Some(v) => Some(RangeQuery::Above(v)),
            None => None,
        };
    }
    if n > 0 && s[0] == '=' {
        return match read_value(kind, &s, 1, n) {
            Some(v) => Some(RangeQuery::Exactly(v)),
            None => None,
        };
    }
    let mut p: usize = 0;
    if n < 2 {
        p = n;
    } else {
        while p < n - 1 && !(s[p] == '.' && s[p + 1] == '.')
            invariant
                p < n,
                n == s@.len(),
                forall|j: int| 0 <= j < p ==> !#[trigger] dots(s@, j),
            decreases n - p,
        {
            p += 1;
        }
        if p == n - 1 {
            p = n;
        }
    }
    proof {
        assert forall|j: int| 0 <= j < p implies !#[trigger] dots(s@, j) by {}
        lemma_dots_at(s@, p as int);
    }
    if p < n {
        let after = if p + 2 < n && s[p + 2] == '=' {
            p + 3
        } else {
            p + 2
        };
        if p == 0 && after == n {
            None
        } else if p == 0 {
            match read_value(kind, &s, after, n) {
                Some(w) => Some(RangeQuery::AtMost(w)),
                None => None,
            }
        } else if after == n {
            match read_value(kind, &s, 0, p) {
                Some(v) => Some(RangeQuery::AtLeast(v)),
                None => None,
            }
        } else {
            match (read_value(kind, &s, 0, p), read_value(kind, &s, after, n)) {
                (Some(v), Some(w)) => Some(RangeQuery::Between(v, w)),
                _ => None,
            }
        }
    } else {
        match read_value(kind, &s, 0, n) {
            Some(v) => Some(RangeQuery::Exactly(v)),
            None => None,
        }
    }
}

} // verus!
