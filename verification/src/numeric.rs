//! Decimal integers: the grammar `i32::from_str` accepts, a verified
//! parser for it, and the canonical decimal rendering of a value.
//!
//! The lexer reclassifies an identifier-shaped accumulation as a number
//! exactly when this parser accepts its text.

use vstd::prelude::*;

verus! {

pub open spec fn is_digit(c: char) -> bool {
    48 <= c as u32 && c as u32 <= 57
}

pub open spec fn digit_val(c: char) -> int {
    c as u32 - 48
}

pub open spec fn all_digits(s: Seq<char>) -> bool {
    forall|k: int| 0 <= k < s.len() ==> is_digit(s[k])
}

/// Value of a string of decimal digits, most significant first.
pub open spec fn digits_val(s: Seq<char>) -> int
    decreases s.len(),
{
    if s.len() == 0 {
        0
    } else {
        digits_val(s.drop_last()) * 10 + digit_val(s.last())
    }
}

/// The number that `i32::from_str` reads from `s`, or `None` where it
/// rejects `s`: an optional sign, then one or more decimal digits, with
/// the value in range for `i32`.
pub open spec fn spec_parse_i32(s: Seq<char>) -> Option<int> {
    if s.len() == 0 {
        Option::None
    } else {
        let neg = s[0] == '-';
        let ds = if s[0] == '-' || s[0] == '+' {
            s.drop_first()
        } else {
            s
        };
        if ds.len() == 0 || !all_digits(ds) {
            Option::None
        } else {
            let v = if neg {
                -digits_val(ds)
            } else {
                digits_val(ds)
            };
            if -2147483648 <= v && v <= 2147483647 {
                Option::Some(v)
            } else {
                Option::None
            }
        }
    }
}

pub proof fn lemma_digits_val_prefix(s: Seq<char>, m: int)
    requires
        0 <= m <= s.len(),
        all_digits(s),
    ensures
        0 <= digits_val(s.take(m)) <= digits_val(s),
    decreases s.len() - m,
{
    if m == s.len() {
        assert(s.take(m) =~= s);
        lemma_digits_val_nonneg(s);
    } else {
        lemma_digits_val_prefix(s, m + 1);
        let t = s.take(m + 1);
        assert(t.drop_last() =~= s.take(m));
        assert(digits_val(t) == digits_val(s.take(m)) * 10 + digit_val(s[m]));
        lemma_digits_val_nonneg(s.take(m));
    }
}

pub proof fn lemma_digits_val_nonneg(s: Seq<char>)
    requires
        all_digits(s),
    ensures
        digits_val(s) >= 0,
    decreases s.len(),
{
    if s.len() > 0 {
        assert(all_digits(s.drop_last()));
        lemma_digits_val_nonneg(s.drop_last());
    }
}

/// Parse `s` as `i32::from_str` does.
pub fn parse_i32(s: &str) -> (r: Option<i32>)
    ensures
        match r {
            Option::Some(v) => spec_parse_i32(s@) == Option::Some(v as int),
            Option::None => spec_parse_i32(s@) is None,
        },
{
    let n = s.unicode_len();
    if n == 0 {
        return Option::None;
    }
    let first = s.get_char(0);
    let neg = first == '-';
    let start: usize = if first == '-' || first == '+' {
        1
    } else {
        0
    };
    let ghost ds = if s@[0] == '-' || s@[0] == '+' {
        s@.drop_first()
    } else {
        s@
    };
    proof {
        assert(ds =~= s@.subrange(start as int, n as int));
    }
    if start == n {
        return Option::None;
    }
    let mut acc: u64 = 0;
    let mut i: usize = start;
    while i < n
        invariant
            start <= i <= n,
            n == s@.len(),
            start < n,
            neg == (s@[0] == '-'),
            start == 1 <==> (s@[0] == '-' || s@[0] == '+'),
            ds == (if s@[0] == '-' || s@[0] == '+' {
                s@.drop_first()
            } else {
                s@
            }),
            ds == s@.subrange(start as int, n as int),
            forall|k: int| start <= k < i ==> is_digit(s@[k]),
            acc == digits_val(s@.subrange(start as int, i as int)),
            acc <= 0x8000_0000,
        decreases n - i,
    {
        let c = s.get_char(i);
        let u: u32 = c as u32;
        if !(48 <= u && u <= 57) {
            proof {
                assert(ds[i - start] == s@[i as int]);
                assert(!is_digit(ds[i - start]));
                assert(!all_digits(ds));
                assert(spec_parse_i32(s@) is None);
            }
            return Option::None;
        }
        let d: u64 = (u - 48) as u64;
        let acc2: u64 = acc * 10 + d;
        proof {
            let p = s@.subrange(start as int, i + 1);
            assert(p.drop_last() =~= s@.subrange(start as int, i as int));
            assert(p.last() == s@[i as int]);
            assert(acc2 == digits_val(p));
        }
        if acc2 > 0x8000_0000 {
            proof {
                if all_digits(ds) {
                    lemma_digits_val_prefix(ds, i + 1 - start);
                    assert(ds.take(i + 1 - start) =~= s@.subrange(start as int, i + 1));
                    assert(digits_val(ds.take(i + 1 - start)) <= digits_val(ds));
                    assert(digits_val(ds) >= acc2);
                    assert(digits_val(ds) > 2147483648);
                }
                assert(spec_parse_i32(s@) is None);
            }
            return Option::None;
        }
        acc = acc2;
        i = i + 1;
    }
    proof {
        assert(s@.subrange(start as int, n as int) =~= ds);
        assert(all_digits(ds)) by {
            assert(forall|k: int| 0 <= k < ds.len() ==> ds[k] == s@[k + start]);
        }
        assert(acc == digits_val(ds));
        lemma_digits_val_nonneg(ds);
    }
    if neg {
        if acc == 0x8000_0000 {
            Option::Some(i32::MIN)
        } else {
            Option::Some(-(acc as i32))
        }
    } else {
        if acc > 0x7fff_ffff {
            Option::None
        } else {
            Option::Some(acc as i32)
        }
    }
}

/// Canonical decimal digits of a nonnegative number.
pub open spec fn dec_nat(m: int) -> Seq<char>
    decreases m,
{
    if m < 10 {
        seq![digit_char(m)]
    } else {
        dec_nat(m / 10).push(digit_char(m % 10))
    }
}

/// Canonical decimal rendering of an integer, sign included.
pub open spec fn dec_int(v: int) -> Seq<char> {
    if v < 0 {
        seq!['-'] + dec_nat(-v)
    } else {
        dec_nat(v)
    }
}

pub open spec fn digit_char(d: int) -> char {
    if d == 0 {
        '0'
    } else if d == 1 {
        '1'
    } else if d == 2 {
        '2'
    } else if d == 3 {
        '3'
    } else if d == 4 {
        '4'
    } else if d == 5 {
        '5'
    } else if d == 6 {
        '6'
    } else if d == 7 {
        '7'
    } else if d == 8 {
        '8'
    } else {
        '9'
    }
}

pub proof fn lemma_dec_nat_digits(m: int)
    requires
        m >= 0,
    ensures
        dec_nat(m).len() >= 1,
        all_digits(dec_nat(m)),
        digits_val(dec_nat(m)) == m,
    decreases m,
{
    if m < 10 {
        assert(is_digit(digit_char(m)) && digit_val(digit_char(m)) == m);
        let s = dec_nat(m);
        assert(s == seq![digit_char(m)]);
        assert(s.drop_last() =~= Seq::<char>::empty());
        assert(s.last() == digit_char(m));
        assert(digits_val(s.drop_last()) == 0);
        assert(digits_val(s) == digits_val(s.drop_last()) * 10 + digit_val(s.last()));
        assert(digits_val(s) == m);
    } else {
        lemma_dec_nat_digits(m / 10);
        let s = dec_nat(m);
        assert(s == dec_nat(m / 10).push(digit_char(m % 10)));
        assert(s.drop_last() =~= dec_nat(m / 10));
        assert(s.last() == digit_char(m % 10));
        assert(0 <= m % 10 < 10);
        assert(is_digit(digit_char(m % 10)) && digit_val(digit_char(m % 10)) == m % 10);
        assert(digits_val(s) == (m / 10) * 10 + m % 10);
        vstd::arithmetic::div_mod::lemma_fundamental_div_mod(m, 10);
        assert((m / 10) * 10 + m % 10 == m);
        assert(all_digits(s)) by {
            assert(forall|k: int|
                0 <= k < s.len() - 1 ==> s[k] == #[trigger] dec_nat(m / 10)[k]);
        }
    }
}

/// Parsing the canonical rendering of an `i32`-ranged value gives the
/// value back.
pub proof fn lemma_parse_dec_int(v: int)
    requires
        -2147483648 <= v <= 2147483647,
    ensures
        spec_parse_i32(dec_int(v)) == Option::Some(v),
{
    if v < 0 {
        lemma_dec_nat_digits(-v);
        let s = dec_int(v);
        assert(s[0] == '-');
        assert(s.drop_first() =~= dec_nat(-v));
        assert(('-' as u32) == 45 && ('+' as u32) == 43);
    } else {
        lemma_dec_nat_digits(v);
        let s = dec_int(v);
        assert(s == dec_nat(v));
        assert(is_digit(s[0]));
        assert(s[0] != '-' && s[0] != '+');
    }
}

} // verus!
