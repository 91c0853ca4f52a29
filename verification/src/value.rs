//! The `Value` cell type and the parser that turns a raw field string into
//! one.
//!
//! A field is numeric when it is a plain decimal literal — an optional sign,
//! digits, at most one decimal point, at least one digit — whose magnitude
//! fits the fixed-point range.  Fraction digits beyond the fixed-point
//! precision are dropped (rounding toward zero).  Anything else that is
//! non-empty is a category label; the empty field is missing.
use vstd::prelude::*;

use crate::arith::{NUM_ABS_MAX, SCALE};

verus! {

/// One observed cell: a fixed-point number, a category label, or missing.
#[derive(Debug, Clone, PartialEq, Eq)]
pub enum Value {
    Number(i64),
    Category(String),
    Missing,
}

/// Whether `c` is a decimal digit.
pub open spec fn is_digit(c: char) -> bool {
    48 <= c as u32 <= 57
}

/// The numeric value of a digit character.
pub open spec fn digit_val(c: char) -> int {
    c as u32 - 48
}

/// The value of a string of digits, most significant first.
pub open spec fn digits_val(s: Seq<char>) -> int
    decreases s.len(),
{
    if s.len() == 0 {
        0
    } else {
        digits_val(s.drop_last()) * 10 + digit_val(s.last())
    }
}

/// The index of the first `.` in `s`, or `s.len()` if there is none.
pub open spec fn dot_pos(s: Seq<char>) -> int
    decreases s.len(),
{
    if s.len() == 0 {
        0
    } else if s[0] == '.' {
        0
    } else {
        1 + dot_pos(s.drop_first())
    }
}

/// Ten to the `k`-th power, for the short exponents the parser pads with.
pub open spec fn pad10(k: int) -> int
    decreases k,
{
    if k <= 0 {
        1
    } else {
        10 * pad10((k - 1) as int)
    }
}

/// Whether the unsigned body of a literal is well formed: every character
/// but a single optional `.` is a digit, and there is at least one digit.
pub open spec fn wf_body(s: Seq<char>) -> bool {
    let d = dot_pos(s);
    &&& s.len() > 0
    &&& forall|i: int| 0 <= i < s.len() && i != d ==> is_digit(#[trigger] s[i])
    &&& (d < s.len() ==> s.len() >= 2)
}

/// The scaled value of a well-formed unsigned body: integer digits before
/// the dot, the first four fraction digits after it.
pub open spec fn body_val(s: Seq<char>) -> int {
    let d = dot_pos(s);
    let ip = s.take(d);
    let fp = s.skip(if d < s.len() {
        d + 1
    } else {
        d
    });
    let taken = if fp.len() < 4 {
        fp.len() as int
    } else {
        4
    };
    digits_val(ip) * SCALE + digits_val(fp.take(taken)) * pad10(4 - taken)
}

/// The scaled number a string denotes, or `None` when it is not a decimal
/// literal in the representable range.
///
/// Only plain decimal notation is numeric: exponent notation (`1e5`) and
/// the non-finite spellings (`inf`, `NaN`), which have no fixed-point
/// value, are labels like any other non-numeric field.  A column that
/// mixes plain decimals with such fields is therefore rejected as mixed
/// rather than scored.
pub open spec fn fixed_literal(s: Seq<char>) -> Option<int> {
    let signed = s.len() > 0 && (s[0] == '-' || s[0] == '+');
    let body = if signed {
        s.drop_first()
    } else {
        s
    };
    if !wf_body(body) {
        None
    } else {
        let m = body_val(body);
        let v = if s.len() > 0 && s[0] == '-' {
            -m
        } else {
            m
        };
        if -NUM_ABS_MAX <= v <= NUM_ABS_MAX {
            Some(v)
        } else {
            None
        }
    }
}

/// What `parse` must return for the character sequence `s`.
pub open spec fn parse_ok(s: Seq<char>, v: Value) -> bool {
    if s.len() == 0 {
        v == Value::Missing
    } else if fixed_literal(s) is Some {
        v == Value::Number(fixed_literal(s)->Some_0 as i64)
    } else {
        v matches Value::Category(c) && c@ == s
    }
}

/// `dot_pos` is in range, points at a `.` when it is inside the string, and
/// nothing before it is a `.`.
pub proof fn lemma_dot_pos_props(s: Seq<char>)
    ensures
        0 <= dot_pos(s) <= s.len(),
        dot_pos(s) < s.len() ==> s[dot_pos(s)] == '.',
        forall|k: int| 0 <= k < dot_pos(s) ==> s[k] != '.',
    decreases s.len(),
{
    if s.len() == 0 {
    } else if s[0] == '.' {
    } else {
        lemma_dot_pos_props(s.drop_first());
        assert forall|k: int| 0 <= k < dot_pos(s) implies s[k] != '.' by {
            if k > 0 {
                assert(s[k] == s.drop_first()[k - 1]);
            }
        }
    }
}

/// If nothing before `j` is a `.` and `j` is a `.` or the end, then `j` is
/// `dot_pos(s)`.
pub proof fn lemma_dot_pos_at(s: Seq<char>, j: int)
    requires
        0 <= j <= s.len(),
        forall|k: int| 0 <= k < j ==> s[k] != '.',
        j < s.len() ==> s[j] == '.',
    ensures
        dot_pos(s) == j,
    decreases s.len(),
{
    if s.len() == 0 {
    } else if s[0] == '.' {
        assert(j == 0);
    } else {
        assert(j >= 1);
        assert(forall|k: int| 0 <= k < j - 1 ==> s.drop_first()[k] == s[k + 1]);
        lemma_dot_pos_at(s.drop_first(), j - 1);
    }
}

/// Appending a digit multiplies the value by ten and adds the digit.
pub proof fn lemma_digits_val_push(s: Seq<char>, c: char)
    ensures
        digits_val(s.push(c)) == digits_val(s) * 10 + digit_val(c),
{
    assert(s.push(c).drop_last() =~= s);
    assert(s.push(c).last() == c);
}

impl Value {
    /// Parse one raw field: empty is missing, a plain decimal literal in
    /// range is a number, anything else — exponent notation included — is
    /// a category label.
    #[verifier::rlimit(80)]
    pub fn parse(s: &str) -> (v: Value)
        ensures
            parse_ok(s@, v),
    {
        let n = s.unicode_len();
        if n == 0 {
            return Value::Missing;
        }
        let first = s.get_char(0);
        let signed = first == '-' || first == '+';
        let neg = first == '-';
        let start: usize = if signed {
            1
        } else {
            0
        };
        let ghost body: Seq<char> = s@.skip(start as int);
        proof {
            assert(body =~= if signed {
                s@.drop_first()
            } else {
                s@
            });
        }
        // First pass: find the single dot and check every other character
        // is a digit.
        let mut dotp: usize = n;
        let mut i: usize = start;
        while i < n
            invariant
                start <= i <= n,
                start <= 1,
                n == s@.len(),
                n >= 1,
                signed == (s@[0] == '-' || s@[0] == '+'),
                start == if signed {
                    1int
                } else {
                    0int
                },
                body == s@.skip(start as int),
                body == if signed {
                    s@.drop_first()
                } else {
                    s@
                },
                dotp == n || (start <= dotp && (dotp as int) < i && s@[dotp as int] == '.'),
                forall|k: int| start <= k < i && k != dotp ==> is_digit(#[trigger] s@[k]),
                forall|k: int| start <= k < i && k != dotp ==> s@[k] != '.',
            decreases n - i,
        {
            let c = s.get_char(i);
            if c == '.' {
                if dotp < n {
                    // a second dot: not a literal
                    proof {
                        lemma_dot_pos_props(body);
                        assert(body[dotp - start] == '.');
                        assert(dot_pos(body) <= dotp - start);
                        assert(i - start != dot_pos(body));
                        assert(body[i - start] == '.');
                        assert(!is_digit(body[i - start]));
                        assert(!wf_body(body));
                    }
                    return Value::Category(s.to_owned());
                }
                dotp = i;
            } else {
                let u = c as u32;
                if u < 48 || u > 57 {
                    // not a digit and not a dot: not a literal
                    proof {
                        lemma_dot_pos_props(body);
                        assert(body[i - start] == s@[i as int]);
                        assert(body[i - start] != '.');
                        assert(dot_pos(body) < body.len() ==> body[dot_pos(body)] == '.');
                        assert(i - start != dot_pos(body));
                        assert(!is_digit(body[i - start]));
                        assert(!wf_body(body));
                    }
                    return Value::Category(s.to_owned());
                }
            }
            i = i + 1;
        }
        let iend: usize = if dotp < n {
            dotp
        } else {
            n
        };
        let digit_count: usize = (iend - start) + (n - iend) - (if dotp < n {
            1
        } else {
            0
        });
        proof {
            lemma_dot_pos_at(
                body,
                if dotp < n {
                    dotp - start
                } else {
                    n - start
                },
            );
        }
        let ghost d = dot_pos(body);
        if digit_count == 0 {
            // only a sign, a dot, or both: not a literal
            proof {
                assert(body.len() == n - start);
                assert(!wf_body(body));
            }
            return Value::Category(s.to_owned());
        }
        assert(wf_body(body)) by {
            assert(forall|k: int|
                0 <= k < body.len() && k != d ==> is_digit(#[trigger] body[k]));
        }
        // Integer part.
        let ghost ip = body.take(d);
        proof {
            assert(ip =~= s@.subrange(start as int, iend as int));
        }
        let mut intval: u64 = 0;
        let mut big: bool = false;
        i = start;
        while i < iend
            invariant
                start <= i <= iend <= n,
                n == s@.len(),
                ip == s@.subrange(start as int, iend as int),
                forall|k: int| start <= k < iend ==> is_digit(#[trigger] s@[k]),
                !big ==> intval == digits_val(ip.take(i - start)) && intval <= 1_000_000,
                big ==> digits_val(ip.take(i - start)) > 1_000_000,
            decreases iend - i,
        {
            let c = s.get_char(i);
            let dv: u64 = ((c as u32) - 48) as u64;
            proof {
                assert(ip.take(i - start + 1) =~= ip.take(i - start).push(s@[i as int]));
                lemma_digits_val_push(ip.take(i - start), s@[i as int]);
            }
            if !big {
                let nv = intval * 10 + dv;
                if nv > 1_000_000 {
                    big = true;
                } else {
                    intval = nv;
                }
            }
            i = i + 1;
        }
        proof {
            assert(ip.take(iend - start) =~= ip);
        }
        // Fraction part: at most the first four digits count.
        let fstart: usize = if dotp < n {
            dotp + 1
        } else {
            n
        };
        let take_n: usize = if n - fstart < 4 {
            n - fstart
        } else {
            4
        };
        let fend = fstart + take_n;
        let ghost fp = body.skip(
            if d < body.len() {
                d + 1
            } else {
                d
            },
        );
        proof {
            assert(fp =~= s@.subrange(fstart as int, n as int));
        }
        let mut fracval: u64 = 0;
        i = fstart;
        while i < fend
            invariant
                fstart <= i <= fend <= n,
                fend == fstart + take_n,
                take_n <= 4,
                n == s@.len(),
                fp == s@.subrange(fstart as int, n as int),
                forall|k: int| fstart <= k < n ==> is_digit(#[trigger] s@[k]),
                fracval == digits_val(fp.take(i - fstart)),
                fracval < pad10(i - fstart),
                fracval <= 9999,
            decreases fend - i,
        {
            let c = s.get_char(i);
            let dv: u64 = ((c as u32) - 48) as u64;
            proof {
                assert(fp.take(i - fstart + 1) =~= fp.take(i - fstart).push(s@[i as int]));
                lemma_digits_val_push(fp.take(i - fstart), s@[i as int]);
                let k = i - fstart;
                assert(k == 0 || k == 1 || k == 2 || k == 3);
                assert(pad10(0) == 1);
                assert(pad10(1) == 10);
                assert(pad10(2) == 100);
                assert(pad10(3) == 1000);
                assert(pad10(4) == 10000);
                assert(fracval < 1000);
                assert(pad10(k + 1) == 10 * pad10(k));
            }
            fracval = fracval * 10 + dv;
            i = i + 1;
        }
        let rem = 4 - take_n;
        let mult: u64 = if rem == 0 {
            1
        } else if rem == 1 {
            10
        } else if rem == 2 {
            100
        } else if rem == 3 {
            1_000
        } else {
            10_000
        };
        proof {
            assert(pad10(0) == 1);
            assert(pad10(1) == 10);
            assert(pad10(2) == 100);
            assert(pad10(3) == 1000);
            assert(pad10(4) == 10000);
            assert(fracval <= 9999) by {
                assert(fracval < pad10(take_n as int));
            }
        }
        let frac4: u64 = fracval * mult;
        proof {
            assert(frac4 == digits_val(fp.take(take_n as int)) * pad10(4 - take_n));
        }
        if big {
            // integer part alone exceeds the representable range
            proof {
                let dvip = digits_val(ip);
                assert(dvip * SCALE >= 10_000_010_000) by (nonlinear_arith)
                    requires
                        dvip > 1_000_000,
                        SCALE == 10_000,
                ;
                assert(body_val(body) > NUM_ABS_MAX);
            }
            return Value::Category(s.to_owned());
        }
        let m64: u64 = intval * 10_000 + frac4;
        proof {
            assert(m64 == body_val(body));
        }
        if m64 > 10_000_000_000u64 {
            proof {
                assert(body_val(body) > NUM_ABS_MAX);
            }
            return Value::Category(s.to_owned());
        }
        let m: i64 = m64 as i64;
        let r: i64 = if neg {
            -m
        } else {
            m
        };
        proof {
            assert(-NUM_ABS_MAX <= r as int <= NUM_ABS_MAX);
            if neg {
                assert(s@[0] == '-');
                assert(r as int == -body_val(body));
            } else {
                assert(s@.len() > 0 && s@[0] != '-');
                assert(r as int == body_val(body));
            }
            assert(fixed_literal(s@) == Some(r as int));
        }
        Value::Number(r)
    }
}

} // verus!
