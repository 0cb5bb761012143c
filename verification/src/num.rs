//! Decimal numbers in query texts.

use vstd::prelude::*;

verus! {

/// Whether `c` is a decimal digit.
pub open spec fn is_digit(c: char) -> bool {
    '0' <= c <= '9'
}

/// The value of the decimal digit `c`.
pub open spec fn digit(c: char) -> int {
    c as u32 - '0' as u32
}

/// Whether `s` is made of decimal digits.
pub open spec fn all_digits(s: Seq<char>) -> bool {
    forall|i: int| 0 <= i < s.len() ==> is_digit(#[trigger] s[i])
}

/// The number that the digits of `s` write.
pub open spec fn digits_value(s: Seq<char>) -> int
    decreases s.len(),
{
    if s.len() == 0 {
        0
    } else {
        digits_value(s.drop_last()) * 10 + digit(s.last())
    }
}

/// The integer that `s` writes: a sign, if any, and then one digit or more.
/// A minus sign is read only where `allow_minus` is set.
pub open spec fn int_of(s: Seq<char>, allow_minus: bool) -> Option<int> {
    let minus = s.len() > 0 && s[0] == '-' && allow_minus;
    let plus = s.len() > 0 && s[0] == '+';
    let body = if minus || plus {
        s.skip(1)
    } else {
        s
    };
    if body.len() > 0 && all_digits(body) {
        Some(
            if minus {
                -digits_value(body)
            } else {
                digits_value(body)
            },
        )
    } else {
        None
    }
}

/// The integer that `s` writes, where it lies between `lo` and `hi`.
pub open spec fn int_in(s: Seq<char>, lo: i64, hi: i64) -> Option<i64> {
    match int_of(s, lo < 0) {
        Some(v) => if lo <= v <= hi {
            Some(v as i64)
        } else {
            None
        },
        None => None,
    }
}

proof fn lemma_digits_value_grows(s: Seq<char>)
    requires
        s.len() > 0,
        all_digits(s),
    ensures
        digits_value(s) >= digits_value(s.drop_last()),
        digits_value(s.drop_last()) >= 0,
    decreases s.len(),
{
    let r = s.drop_last();
    assert(all_digits(r)) by {
        assert forall|i: int| 0 <= i < r.len() implies is_digit(#[trigger] r[i]) by {
            assert(r[i] == s[i]);
        }
    }
    if r.len() > 0 {
        lemma_digits_value_grows(r);
    }
    assert(is_digit(s[s.len() - 1]));
}

/// The number that the digits at `from..to` of `s` write, up to `cap`; `None`
/// where a character is no digit or there is none, and `cap + 1` for every
/// number above `cap`.
fn read_digits(s: &Vec<char>, from: usize, to: usize, cap: u64) -> (r: Option<u64>)
    requires
        from <= to <= s@.len(),
        cap < u64::MAX,
    ensures
        match r {
            Some(v) => from < to && all_digits(s@.subrange(from as int, to as int)) && (if v <= cap {
                v == digits_value(s@.subrange(from as int, to as int))
            } else {
                v == cap + 1 && digits_value(s@.subrange(from as int, to as int)) > cap
            }),
            None => from == to || !all_digits(s@.subrange(from as int, to as int)),
        },
{
    if from == to {
        return None;
    }
    let ghost body = s@.subrange(from as int, to as int);
    let mut acc: u64 = 0;
    let mut i: usize = from;
    while i < to
        invariant
            from <= i <= to <= s@.len(),
            cap < u64::MAX,
            body == s@.subrange(from as int, to as int),
            all_digits(body.take(i - from)),
            acc <= cap + 1,
            acc <= cap ==> acc == digits_value(body.take(i - from)),
            acc > cap ==> digits_value(body.take(i - from)) > cap,
        decreases to - i,
    {
        let c = s[i];
        let ghost head = body.take(i - from);
        let ghost next = body.take(i - from + 1);
        if !(c >= '0' && c <= '9') {
            proof {
                assert(body[i - from] == c);
            }
            return None;
        }
        proof {
            assert(next.drop_last() == head);
            assert(next.last() == c);
            assert forall|j: int| 0 <= j < next.len() implies is_digit(#[trigger] next[j]) by {
                if j < head.len() {
                    assert(next[j] == head[j]);
                }
            }
            lemma_digits_value_grows(next);
        }
        if acc <= cap {
            let d = (c as u32 - '0' as u32) as u128;
            let wide = acc as u128 * 10 + d;
            acc = if wide > cap as u128 {
                cap + 1
            } else {
                wide as u64
            };
        }
        i += 1;
    }
    assert(body.take(to - from) == body);
    Some(acc)
}

/// Reads the integer at `from..to` of `s`, where it lies between `lo` and `hi`.
pub fn read_int(s: &Vec<char>, from: usize, to: usize, lo: i64, hi: i64) -> (r: Option<i64>)
    requires
        from <= to <= s@.len(),
    ensures
        r == int_in(s@.subrange(from as int, to as int), lo, hi),
{
    let ghost text = s@.subrange(from as int, to as int);
    let minus = from < to && s[from] == '-' && lo < 0;
    let plus = from < to && s[from] == '+';
    let start = if minus || plus {
        from + 1
    } else {
        from
    };
    proof {
        if from < to {
            assert(text[0] == s@[from as int]);
        }
        let body = if minus || plus {
            text.skip(1)
        } else {
            text
        };
        assert(body == s@.subrange(start as int, to as int));
    }
    match read_digits(s, start, to, 0x8000_0000_0000_0000) {
        None => None,
        Some(v) => {
            if minus {
                if v > 0x8000_0000_0000_0000 {
                    None
                } else {
                    let neg: i64 = if v == 0x8000_0000_0000_0000 {
                        i64::MIN
                    } else {
                        -(v as i64)
                    };
                    if lo <= neg && neg <= hi {
                        Some(neg)
                    } else {
                        None
                    }
                }
            } else {
                if v > 0x7fff_ffff_ffff_ffff {
                    None
                } else {
                    let pos = v as i64;
                    if lo <= pos && pos <= hi {
                        Some(pos)
                    } else {
                        None
                    }
                }
            }
        },
    }
}

/// Ten to the power `k`.
pub open spec fn pow10(k: nat) -> int
    decreases k,
{
    if k == 0 {
        1
    } else {
        10 * pow10((k - 1) as nat)
    }
}

/// A decimal number: its sign, and its size in billionths, cut to a whole
/// number of them. A size of a billion or more billions counts as that.
#[derive(Clone, Copy, Debug, PartialEq, Eq, Structural)]
pub struct Decimal {
    pub negative: bool,
    pub nano: u128,
}

/// The largest size of a decimal, in billionths.
pub const NANO_CAP: u128 = 1_000_000_000_000_000_000_000_000_000;

/// Whether `s` begins with a sign.
pub open spec fn has_sign(s: Seq<char>) -> bool {
    s.len() > 0 && (s[0] == '+' || s[0] == '-')
}

/// The first nine of the digits `frac`, with zeros behind them where they are fewer.
pub open spec fn nine_places(frac: Seq<char>) -> Seq<char> {
    (frac + seq!['0', '0', '0', '0', '0', '0', '0', '0', '0']).take(9)
}

/// The size in billionths of the number with the digits `whole` before the
/// point and `frac` behind it: digits behind the ninth place are dropped.
pub open spec fn nano_of(whole: Seq<char>, frac: Seq<char>) -> int {
    if digits_value(whole) >= 1_000_000_000_000_000_000 {
        NANO_CAP as int
    } else {
        digits_value(whole) * 1_000_000_000 + digits_value(nine_places(frac))
    }
}

/// The decimal that `s` writes: a sign, if any, and then digits, of which
/// those behind a point count as the fraction. One digit at least is there,
/// before the point or behind it; there may be any number of them.
pub open spec fn decimal_of(s: Seq<char>) -> Option<Decimal> {
    let body = if has_sign(s) {
        s.skip(1)
    } else {
        s
    };
    let dot = crate::text::index_of(body, '.');
    let whole = body.subrange(0, dot);
    let frac = if dot < body.len() {
        body.subrange(dot + 1, body.len() as int)
    } else {
        Seq::<char>::empty()
    };
    if whole.len() + frac.len() > 0 && all_digits(whole) && all_digits(frac) {
        Some(Decimal { negative: has_sign(s) && s[0] == '-', nano: nano_of(whole, frac) as u128 })
    } else {
        None
    }
}

/// Reads the decimal at `from..to` of `s`.
pub fn read_decimal(s: &Vec<char>, from: usize, to: usize) -> (r: Option<Decimal>)
    requires
        from <= to <= s@.len(),
    ensures
        r == decimal_of(s@.subrange(from as int, to as int)),
        r matches Some(d) ==> d.nano <= NANO_CAP,
{
    let ghost text = s@.subrange(from as int, to as int);
    let signed = from < to && (s[from] == '+' || s[from] == '-');
    let negative = signed && s[from] == '-';
    let start = if signed {
        from + 1
    } else {
        from
    };
    let ghost body = s@.subrange(start as int, to as int);
    proof {
        if signed {
            assert(text[0] == s@[from as int]);
            assert(text.skip(1) == body);
        } else {
            if from < to {
                assert(text[0] == s@[from as int]);
            }
            assert(text == body);
        }
    }
    let dot = crate::text::find_char(s, start, to, '.');
    let rest = if dot < to {
        dot + 1
    } else {
        to
    };
    let ghost whole = s@.subrange(start as int, dot as int);
    let ghost frac = s@.subrange(rest as int, to as int);
    proof {
        assert(body.subrange(0, dot - start) == whole);
        if dot < to {
            assert(body.subrange(dot - start + 1, body.len() as int) == frac);
        } else {
            assert(frac == Seq::<char>::empty());
        }
    }
    if start == dot && rest == to {
        return None;
    }
    let whole_value: u64 = if start == dot {
        0
    } else {
        match read_digits(s, start, dot, 999_999_999_999_999_999) {
            None => {
                return None;
            },
            Some(v) => v,
        }
    };
    if rest < to {
        match read_digits(s, rest, to, 0) {
            None => {
                return None;
            },
            Some(_) => {},
        }
    }
    let ghost zeros = seq!['0', '0', '0', '0', '0', '0', '0', '0', '0'];
    let mut places: Vec<char> = Vec::new();
    let mut i: usize = 0;
    while i < 9
        invariant
            i <= 9,
            rest <= to <= s@.len(),
            frac == s@.subrange(rest as int, to as int),
            zeros == seq!['0', '0', '0', '0', '0', '0', '0', '0', '0'],
            all_digits(frac),
            places@ == (frac + zeros).take(i as int),
            all_digits(places@),
        decreases 9 - i,
    {
        let c = if i < to - rest {
            s[rest + i]
        } else {
            '0'
        };
        let ghost before = places@;
        places.push(c);
        proof {
            assert((frac + zeros)[i as int] == c);
            assert((frac + zeros).take(i + 1) == (frac + zeros).take(i as int).push(c));
            if i < to - rest {
                assert(is_digit(frac[i as int]));
            }
            assert forall|j: int| 0 <= j < places@.len() implies is_digit(#[trigger] places@[j]) by {
                if j < before.len() {
                    assert(places@[j] == before[j]);
                }
            }
        }
        i += 1;
    }
    proof {
        assert(places@.subrange(0, 9) == places@);
        lemma_digits_value_bound(places@);
        lemma_pow10_values();
    }
    match read_digits(&places, 0, 9, 999_999_999) {
        None => None,
        Some(part) => {
            let nano = if whole_value > 999_999_999_999_999_999 {
                NANO_CAP
            } else {
                whole_value as u128 * 1_000_000_000 + part as u128
            };
            Some(Decimal { negative, nano })
        },
    }
}

proof fn lemma_pow10_values()
    ensures
        pow10(9) == 1_000_000_000,
{
    reveal_with_fuel(pow10, 10);
}

proof fn lemma_digits_value_bound(s: Seq<char>)
    requires
        all_digits(s),
    ensures
        0 <= digits_value(s) < pow10(s.len()),
    decreases s.len(),
{
    if s.len() > 0 {
        let r = s.drop_last();
        assert forall|i: int| 0 <= i < r.len() implies is_digit(#[trigger] r[i]) by {
            assert(r[i] == s[i]);
        }
        lemma_digits_value_bound(r);
        assert(is_digit(s[s.len() - 1]));
    }
}

/// The character of the decimal digit `d`.
pub open spec fn digit_char(d: int) -> char {
    ('0' as u8 + d) as char
}

/// The decimal digits of `n`, the first not zero unless `n` is zero.
pub open spec fn decimal_digits(n: nat) -> Seq<char>
    decreases n,
{
    if n < 10 {
        seq![digit_char(n as int)]
    } else {
        decimal_digits(n / 10).push(digit_char((n % 10) as int))
    }
}

/// The decimal digits of `n`.
pub fn decimal_text(n: u32) -> (r: Vec<char>)
    ensures
        r@ == decimal_digits(n as nat),
{
    let mut rev: Vec<char> = Vec::new();
    let mut rest = n;
    while rest >= 10
        invariant
            decimal_digits(n as nat) == decimal_digits(rest as nat) + rev@.reverse(),
        decreases rest,
    {
        let d = (rest % 10) as u8;
        let c = (48u8 + d) as char;
        proof {
            let head = rev@;
            assert(c == digit_char((rest % 10) as int));
            assert(rev@.push(c).reverse() == seq![c] + head.reverse());
            assert(decimal_digits(rest as nat) == decimal_digits((rest / 10) as nat).push(c));
            assert(decimal_digits((rest / 10) as nat).push(c) + head.reverse() == decimal_digits(
                (rest / 10) as nat,
            ) + (seq![c] + head.reverse()));
        }
        rev.push(c);
        rest = rest / 10;
    }
    let first = (48u8 + rest as u8) as char;
    let mut out: Vec<char> = Vec::new();
    out.push(first);
    let mut i: usize = rev.len();
    while i > 0
        invariant
            i <= rev@.len(),
            out@ == seq![first] + rev@.reverse().take(rev@.len() - i),
        decreases i,
    {
        i -= 1;
        out.push(rev[i]);
        proof {
            let r = rev@.reverse();
            let k = rev@.len() - i - 1;
            assert(r[k] == rev@[i as int]);
            assert(r.take(k + 1) == r.take(k).push(r[k]));
            assert((seq![first] + r.take(k)).push(r[k]) == seq![first] + r.take(k + 1));
        }
    }
    proof {
        let r = rev@.reverse();
        assert(r.take(rev@.len() as int) == r);
        assert(first == digit_char(rest as int));
        assert(decimal_digits(rest as nat) == seq![first]);
    }
    out
}

} // verus!
