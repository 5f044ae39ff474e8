//! Byte-level vocabulary of the input language.

use vstd::prelude::*;

verus! {

pub const NL: u8 = 10;

pub const TAB: u8 = 9;

pub const SPACE: u8 = 32;

pub const HASH: u8 = 35;

pub const COLON: u8 = 58;

pub const COMMA: u8 = 44;

/// Horizontal whitespace: the bytes that make up indentation.
pub open spec fn is_ws_byte(b: u8) -> bool {
    b == SPACE || b == TAB
}

pub const MINUS: u8 = 45;

pub const PLUS: u8 = 43;

pub const DIGIT0: u8 = 48;

pub const DIGIT9: u8 = 57;

pub open spec fn is_digit(b: u8) -> bool {
    DIGIT0 <= b <= DIGIT9
}

/// Value of a string of decimal digits.
pub open spec fn digits_val(s: Seq<u8>) -> int
    decreases s.len(),
{
    if s.len() == 0 {
        0
    } else {
        digits_val(s.drop_last()) * 10 + (s.last() - DIGIT0)
    }
}

pub open spec fn all_digits(t: Seq<u8>) -> bool {
    forall|i: int| 0 <= i < t.len() ==> is_digit(#[trigger] t[i])
}

/// The 16-bit integer a byte string denotes: an optional sign, then one
/// or more digits, with the value in range; `None` otherwise.  This is
/// exactly what the standard numeric parser accepts for this width.
pub open spec fn spec_parse_i16(s: Seq<u8>) -> Option<int> {
    if s.len() == 0 {
        None
    } else {
        let neg = s[0] == MINUS;
        let t = if s[0] == MINUS || s[0] == PLUS {
            s.skip(1)
        } else {
            s
        };
        if t.len() == 0 || !all_digits(t) {
            None
        } else {
            let v = if neg {
                -digits_val(t)
            } else {
                digits_val(t)
            };
            if -0x8000 <= v <= 0x7fff {
                Some(v)
            } else {
                None
            }
        }
    }
}

/// A UTF-8 continuation byte.
pub open spec fn is_cont(b: u8) -> bool {
    0x80 <= b <= 0xBF
}

/// Whether a byte string is well-formed UTF-8: a sequence of one- to
/// four-byte scalar encodings, with overlong forms and surrogates
/// excluded.
pub open spec fn is_utf8(s: Seq<u8>) -> bool
    decreases s.len(),
{
    if s.len() == 0 {
        true
    } else {
        let b = s[0];
        if b < 0x80 {
            is_utf8(s.skip(1))
        } else if 0xC2 <= b <= 0xDF {
            s.len() >= 2 && is_cont(s[1]) && is_utf8(s.skip(2))
        } else if b == 0xE0 {
            s.len() >= 3 && 0xA0 <= s[1] <= 0xBF && is_cont(s[2]) && is_utf8(s.skip(3))
        } else if 0xE1 <= b <= 0xEC || b == 0xEE || b == 0xEF {
            s.len() >= 3 && is_cont(s[1]) && is_cont(s[2]) && is_utf8(s.skip(3))
        } else if b == 0xED {
            s.len() >= 3 && 0x80 <= s[1] <= 0x9F && is_cont(s[2]) && is_utf8(s.skip(3))
        } else if b == 0xF0 {
            s.len() >= 4 && 0x90 <= s[1] <= 0xBF && is_cont(s[2]) && is_cont(s[3]) && is_utf8(
                s.skip(4),
            )
        } else if 0xF1 <= b <= 0xF3 {
            s.len() >= 4 && is_cont(s[1]) && is_cont(s[2]) && is_cont(s[3]) && is_utf8(s.skip(4))
        } else if b == 0xF4 {
            s.len() >= 4 && 0x80 <= s[1] <= 0x8F && is_cont(s[2]) && is_cont(s[3]) && is_utf8(
                s.skip(4),
            )
        } else {
            false
        }
    }
}

/// Checks that a byte string is well-formed UTF-8.
pub fn validate_utf8(v: &Vec<u8>) -> (r: bool)
    ensures
        r == is_utf8(v@),
{
    let n = v.len();
    let mut i: usize = 0;
    proof {
        assert(v@.skip(0) =~= v@);
    }
    while i < n
        invariant
            n == v@.len(),
            0 <= i <= n,
            is_utf8(v@) == is_utf8(v@.skip(i as int)),
        decreases n - i,
    {
        let ghost s = v@.skip(i as int);
        let b = v[i];
        proof {
            assert(s[0] == v@[i as int]);
            if i + 1 < n {
                assert(s[1] == v@[i + 1]);
            }
            if i + 2 < n {
                assert(s[2] == v@[i + 2]);
            }
            if i + 3 < n {
                assert(s[3] == v@[i + 3]);
            }
        }
        let step: usize = if b < 0x80 {
            1
        } else if 0xC2 <= b && b <= 0xDF {
            if !(n - i > 1 && 0x80 <= v[i + 1] && v[i + 1] <= 0xBF) {
                return false;
            }
            2
        } else if b == 0xE0 {
            if !(n - i > 2 && 0xA0 <= v[i + 1] && v[i + 1] <= 0xBF && 0x80 <= v[i + 2] && v[i + 2]
                <= 0xBF) {
                return false;
            }
            3
        } else if (0xE1 <= b && b <= 0xEC) || b == 0xEE || b == 0xEF {
            if !(n - i > 2 && 0x80 <= v[i + 1] && v[i + 1] <= 0xBF && 0x80 <= v[i + 2] && v[i + 2]
                <= 0xBF) {
                return false;
            }
            3
        } else if b == 0xED {
            if !(n - i > 2 && 0x80 <= v[i + 1] && v[i + 1] <= 0x9F && 0x80 <= v[i + 2] && v[i + 2]
                <= 0xBF) {
                return false;
            }
            3
        } else if b == 0xF0 {
            if !(n - i > 3 && 0x90 <= v[i + 1] && v[i + 1] <= 0xBF && 0x80 <= v[i + 2] && v[i + 2]
                <= 0xBF && 0x80 <= v[i + 3] && v[i + 3] <= 0xBF) {
                return false;
            }
            4
        } else if 0xF1 <= b && b <= 0xF3 {
            if !(n - i > 3 && 0x80 <= v[i + 1] && v[i + 1] <= 0xBF && 0x80 <= v[i + 2] && v[i + 2]
                <= 0xBF && 0x80 <= v[i + 3] && v[i + 3] <= 0xBF) {
                return false;
            }
            4
        } else if b == 0xF4 {
            if !(n - i > 3 && 0x80 <= v[i + 1] && v[i + 1] <= 0x8F && 0x80 <= v[i + 2] && v[i + 2]
                <= 0xBF && 0x80 <= v[i + 3] && v[i + 3] <= 0xBF) {
                return false;
            }
            4
        } else {
            return false;
        };
        proof {
            assert(v@.skip(i as int).skip(step as int) =~= v@.skip(i + step));
        }
        i = i + step;
    }
    proof {
        assert(v@.skip(n as int) =~= Seq::<u8>::empty());
    }
    true
}

/// A digit string's value is nonnegative and grows with its length.
proof fn lemma_digits_val_bounds(s: Seq<u8>)
    requires
        forall|i: int| 0 <= i < s.len() ==> is_digit(#[trigger] s[i]),
    ensures
        digits_val(s) >= 0,
        s.len() > 0 ==> digits_val(s) >= digits_val(s.drop_last()),
    decreases s.len(),
{
    if s.len() > 0 {
        lemma_digits_val_bounds(s.drop_last());
    }
}

/// Parses a 16-bit integer, exactly as `spec_parse_i16` defines it.
pub fn parse_i16(v: &Vec<u8>) -> (r: Option<i16>)
    ensures
        match r {
            Some(x) => spec_parse_i16(v@) == Some(x as int),
            None => spec_parse_i16(v@) is None,
        },
{
    let n = v.len();
    if n == 0 {
        return None;
    }
    let first = v[0];
    let neg = first == MINUS;
    let start: usize = if first == MINUS || first == PLUS {
        1
    } else {
        0
    };
    let ghost t = v@.skip(start as int);
    proof {
        if start == 0 {
            assert(v@.skip(0) =~= v@);
        }
    }
    if n == start {
        return None;
    }
    // Accumulate the digit value, capped once it is certainly out of
    // range for the width.
    let mut acc: i64 = 0;
    let mut i: usize = start;
    while i < n
        invariant
            n == v@.len(),
            n > 0,
            start <= i <= n,
            neg == (v@[0] == MINUS),
            start == if v@[0] == MINUS || v@[0] == PLUS {
                1int
            } else {
                0int
            },
            t == v@.skip(start as int),
            forall|m: int| 0 <= m < i - start ==> is_digit(#[trigger] t[m]),
            0 <= acc <= 0x10000,
            digits_val(t.take((i - start) as int)) < 0x10000 ==> acc == digits_val(
                t.take((i - start) as int),
            ),
            digits_val(t.take((i - start) as int)) >= 0x10000 ==> acc == 0x10000,
        decreases n - i,
    {
        let b = v[i];
        if b < DIGIT0 || b > DIGIT9 {
            proof {
                assert(t[(i - start) as int] == v@[i as int]);
                if start == 0 {
                    assert(v@.skip(0) =~= v@);
                }
                let m = (i - start) as int;
                assert(0 <= m < t.len());
                assert(!is_digit(t[m]));
                assert(!all_digits(t));
            }
            return None;
        }
        proof {
            assert(t[(i - start) as int] == v@[i as int]);
            let pfx = t.take((i - start) as int);
            let pfx2 = t.take((i + 1 - start) as int);
            assert(pfx2.drop_last() =~= pfx);
            assert(pfx2.last() == t[(i - start) as int]);
            assert forall|m: int| 0 <= m < pfx.len() implies is_digit(#[trigger] pfx[m]) by {
                assert(pfx[m] == t[m]);
            }
            lemma_digits_val_bounds(pfx);
        }
        let d = (b - DIGIT0) as i64;
        if acc >= 0x10000 {
            acc = 0x10000;
            proof {
                let pfx = t.take((i - start) as int);
                let pfx2 = t.take((i + 1 - start) as int);
                assert(digits_val(pfx2) == digits_val(pfx) * 10 + (pfx2.last() - DIGIT0));
                assert(digits_val(pfx) * 10 >= digits_val(pfx)) by (nonlinear_arith)
                    requires
                        digits_val(pfx) >= 0,
                ;
            }
        } else {
            acc = acc * 10 + d;
            if acc > 0x10000 {
                acc = 0x10000;
            }
        }
        i = i + 1;
    }
    proof {
        assert(t.take((n - start) as int) =~= t);
        assert(all_digits(t));
        if digits_val(t) < 0x10000 {
            assert(acc == digits_val(t));
        } else {
            assert(acc == 0x10000);
        }
    }
    if neg {
        if acc > 0x8000 {
            return None;
        }
        Some((-acc) as i16)
    } else {
        if acc > 0x7fff {
            return None;
        }
        Some(acc as i16)
    }
}

} // verus!
