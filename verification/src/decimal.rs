//! Exact decimal amounts: plain period-decimal parsing, sign flipping, and
//! rendering. Amount text is never routed through a locale-aware money
//! parser; only plain `digits[.digits]` notation is accepted.
use vstd::prelude::*;
use crate::text::{
    all_digits, dec_digits, digits_val, lemma_digits_val_append, lemma_digits_val_bounds,
    lemma_pow10_add, lemma_pow10_pos, pad_u128, parse_digit, pow10, sep_pos, zero_pad,
    lemma_sep_pos_none, lemma_sep_pos_at,
};

verus! {

/// An exact decimal number, `mantissa` scaled down by ten to the `scale`.
#[derive(Clone, Copy, Debug, PartialEq, Eq, Structural)]
pub struct Decimal {
    pub mantissa: i128,
    pub scale: u32,
}

/// The largest number of decimal places a parsed amount may carry.
pub const MAX_SCALE: u32 = 28;

impl Decimal {
    pub open spec fn wf(self) -> bool {
        self.scale <= MAX_SCALE && self.mantissa > i128::MIN
    }

    /// Flips the sign, keeping magnitude and scale.
    pub fn negate(&self) -> (r: Decimal)
        requires
            self.mantissa > i128::MIN,
        ensures
            r.mantissa == -self.mantissa as int,
            r.scale == self.scale,
    {
        Decimal { mantissa: -self.mantissa, scale: self.scale }
    }
}

/// The text after an optional leading sign.
pub open spec fn decimal_body(s: Seq<char>) -> Seq<char> {
    if s.len() > 0 && (s[0] == '-' || s[0] == '+') {
        s.drop_first()
    } else {
        s
    }
}

pub open spec fn decimal_sign(s: Seq<char>) -> int {
    if s.len() > 0 && s[0] == '-' {
        -1
    } else {
        1
    }
}

/// The digit string (integer and fraction parts joined) and the fraction
/// length of a plain period-decimal literal, or `None` when the text does
/// not match `digits[.digits]`.
pub open spec fn decimal_digits(s: Seq<char>) -> Option<(Seq<char>, nat)> {
    let b = decimal_body(s);
    match sep_pos(b, '.') {
        None => if b.len() > 0 && all_digits(b) {
            Some((b, 0nat))
        } else {
            None
        },
        Some(i) => if 0 <= i < b.len() {
            let ip = b.subrange(0, i);
            let fp = b.subrange(i + 1, b.len() as int);
            if ip.len() > 0 && fp.len() > 0 && all_digits(ip) && all_digits(fp) {
                Some((ip + fp, fp.len()))
            } else {
                None
            }
        } else {
            None
        },
    }
}

/// The exact value a plain period-decimal literal denotes, as a signed
/// mantissa and a scale.
pub open spec fn parse_decimal_spec(s: Seq<char>) -> Option<(int, nat)> {
    match decimal_digits(s) {
        None => None,
        Some((ds, sc)) => Some((decimal_sign(s) * digits_val(ds), sc)),
    }
}

enum DigitsRead {
    Val(i128),
    NotDigits,
    TooBig,
}

/// Reads the characters of `s` in `[lo, hi)` as decimal digits extending an
/// accumulator, as if the accumulator's digits stood in front of them.
fn read_digits_acc(s: &str, lo: usize, hi: usize, acc: i128) -> (r: DigitsRead)
    requires
        lo <= hi <= s@.len(),
        acc >= 0,
    ensures
        ({
            let sub = s@.subrange(lo as int, hi as int);
            let total = acc * pow10(sub.len()) + digits_val(sub);
            match r {
                DigitsRead::Val(v) => all_digits(sub) && v == total && v >= acc,
                DigitsRead::NotDigits => !all_digits(sub),
                DigitsRead::TooBig => all_digits(sub) ==> total > i128::MAX,
            }
        }),
{
    let ghost whole = s@.subrange(lo as int, hi as int);
    let mut cur: i128 = acc;
    let mut i: usize = lo;
    proof {
        assert(s@.subrange(lo as int, lo as int) =~= Seq::<char>::empty());
    }
    while i < hi
        invariant
            lo <= i <= hi <= s@.len(),
            acc >= 0,
            cur >= acc,
            whole == s@.subrange(lo as int, hi as int),
            all_digits(s@.subrange(lo as int, i as int)),
            cur == acc * pow10((i - lo) as nat) + digits_val(s@.subrange(lo as int, i as int)),
        decreases hi - i,
    {
        let ghost pre = s@.subrange(lo as int, i as int);
        let c = s.get_char(i);
        proof {
            assert(whole[i - lo] == c);
        }
        let d = match parse_digit(c) {
            Some(d) => d,
            None => {
                proof {
                    assert(!crate::text::is_digit(whole[i - lo]));
                }
                return DigitsRead::NotDigits;
            },
        };
        proof {
            lemma_pow10_pos((i - lo) as nat);
            lemma_digits_val_bounds(pre);
            assert(acc * pow10((i - lo) as nat) >= 0) by (nonlinear_arith)
                requires
                    acc >= 0,
                    pow10((i - lo) as nat) >= 1,
            ;
            assert(cur >= 0);
        }
        if cur > (i128::MAX - d as i128) / 10 {
            proof {
                let rest = s@.subrange(i as int, hi as int);
                let step = pre.push(whole[i - lo]);
                assert(step =~= s@.subrange(lo as int, i + 1));
                assert(step.drop_last() =~= pre);
                assert(digits_val(step) == digits_val(pre) * 10 + d);
                assert(whole =~= step + s@.subrange(i + 1, hi as int));
                let tail = s@.subrange(i + 1, hi as int);
                lemma_digits_val_append(step, tail);
                lemma_digits_val_bounds(tail);
                lemma_pow10_pos(tail.len());
                lemma_pow10_add((i + 1 - lo) as nat, tail.len());
                // cur * 10 + d exceeds i128::MAX, and the full value only grows.
                assert(cur * 10 + d > i128::MAX);
                let full = acc * pow10(whole.len()) + digits_val(whole);
                assert(full == (acc * pow10((i + 1 - lo) as nat) + digits_val(step)) * pow10(
                    tail.len(),
                ) + digits_val(tail)) by (nonlinear_arith)
                    requires
                        digits_val(whole) == digits_val(step) * pow10(tail.len()) + digits_val(
                            tail,
                        ),
                        pow10(whole.len()) == pow10((i + 1 - lo) as nat) * pow10(tail.len()),
                        full == acc * pow10(whole.len()) + digits_val(whole),
                ;
                assert(acc * pow10((i + 1 - lo) as nat) + digits_val(step) == cur * 10 + d) by (nonlinear_arith)
                    requires
                        cur == acc * pow10((i - lo) as nat) + digits_val(pre),
                        digits_val(step) == digits_val(pre) * 10 + d,
                        pow10((i + 1 - lo) as nat) == 10 * pow10((i - lo) as nat),
                ;
                assert(full > i128::MAX) by (nonlinear_arith)
                    requires
                        full == (cur * 10 + d) * pow10(tail.len()) + digits_val(tail),
                        cur * 10 + d > i128::MAX,
                        pow10(tail.len()) >= 1,
                        digits_val(tail) >= 0,
                ;
            }
            return DigitsRead::TooBig;
        }
        let next = cur * 10 + d as i128;
        proof {
            let step = pre.push(whole[i - lo]);
            assert(step =~= s@.subrange(lo as int, i + 1));
            assert(step.drop_last() =~= pre);
            assert(digits_val(step) == digits_val(pre) * 10 + d);
            assert(acc * pow10((i + 1 - lo) as nat) + digits_val(step) == cur * 10 + d) by (nonlinear_arith)
                requires
                    cur == acc * pow10((i - lo) as nat) + digits_val(pre),
                    digits_val(step) == digits_val(pre) * 10 + d,
                    pow10((i + 1 - lo) as nat) == 10 * pow10((i - lo) as nat),
            ;
            lemma_digits_val_bounds(step);
            lemma_pow10_pos((i + 1 - lo) as nat);
            assert(acc * pow10((i + 1 - lo) as nat) >= acc) by (nonlinear_arith)
                requires
                    acc >= 0,
                    pow10((i + 1 - lo) as nat) >= 1,
            ;
        }
        cur = next;
        i = i + 1;
    }
    DigitsRead::Val(cur)
}

/// Parses a plain period-decimal amount literal. `None` both for text that
/// does not match `[+|-]digits[.digits]` and for values beyond what the
/// mantissa and scale can carry.
pub fn parse_decimal(s: &str) -> (r: Option<Decimal>)
    ensures
        ({
            match parse_decimal_spec(s@) {
                Some((v, sc)) => if sc <= MAX_SCALE && -i128::MAX <= v <= i128::MAX {
                    r matches Some(d) && d.mantissa == v && d.scale == sc && d.wf()
                } else {
                    r is None
                },
                None => r is None,
            }
        }),
{
    let n = s.unicode_len();
    if n == 0 {
        return None;
    }
    let c0 = s.get_char(0);
    let neg = c0 == '-';
    let bs: usize = if c0 == '-' || c0 == '+' {
        1
    } else {
        0
    };
    let ghost body = decimal_body(s@);
    proof {
        assert(body =~= s@.subrange(bs as int, n as int));
    }
    // Find the first '.' in the body, if any.
    let mut p: usize = bs;
    loop
        invariant
            bs <= p <= n,
            n == s@.len(),
            forall|j: int| bs <= j < p ==> s@[j] != '.',
        ensures
            bs <= p <= n,
            forall|j: int| bs <= j < p ==> s@[j] != '.',
            p == n || s@[p as int] == '.',
        decreases n - p,
    {
        if p == n {
            break;
        }
        if s.get_char(p) == '.' {
            break;
        }
        p = p + 1;
    }
    if p == n {
        proof {
            assert forall|j: int| 0 <= j < body.len() implies body[j] != '.' by {
                assert(body[j] == s@[bs + j]);
            }
            lemma_sep_pos_none(body, '.');
        }
        if bs == n {
            return None;
        }
        let v = match read_digits_acc(s, bs, n, 0) {
            DigitsRead::Val(v) => v,
            DigitsRead::NotDigits => {
                proof {
                    assert(!all_digits(body));
                    assert(decimal_digits(s@) is None);
                }
                return None;
            },
            DigitsRead::TooBig => {
                proof {
                    lemma_pow10_pos(body.len());
                    match parse_decimal_spec(s@) {
                        Some((v, sc)) => {
                            assert(all_digits(body));
                            assert(digits_val(body) > i128::MAX);
                            assert(v == decimal_sign(s@) * digits_val(body));
                            if decimal_sign(s@) == 1 {
                                assert(v > i128::MAX);
                            } else {
                                assert(v < -i128::MAX);
                            }
                        },
                        None => {},
                    }
                }
                return None;
            },
        };
        let m = if neg {
            -v
        } else {
            v
        };
        proof {
            lemma_pow10_pos(body.len());
            assert(all_digits(body));
            assert(decimal_digits(s@) == Some((body, 0nat)));
            assert(v == digits_val(body));
        }
        return Some(Decimal { mantissa: m, scale: 0 });
    }
    proof {
        assert(body[p - bs] == '.');
        assert forall|j: int| 0 <= j < p - bs implies body[j] != '.' by {
            assert(body[j] == s@[bs + j]);
        }
        lemma_sep_pos_at(body, '.', p - bs);
        assert(body.subrange(0, p - bs) =~= s@.subrange(bs as int, p as int));
        assert(body.subrange(p - bs + 1, body.len() as int) =~= s@.subrange(p + 1, n as int));
    }
    if p == bs || p + 1 == n {
        return None;
    }
    let frac_len = n - p - 1;
    let v_int = match read_digits_acc(s, bs, p, 0) {
        DigitsRead::Val(v) => v,
        DigitsRead::NotDigits => {
            return None;
        },
        DigitsRead::TooBig => {
            proof {
                too_big_concat(s@, bs as int, p as int, n as int, 0);
            }
            return None;
        },
    };
    proof {
        lemma_pow10_pos((p - bs) as nat);
    }
    let v = match read_digits_acc(s, p + 1, n, v_int) {
        DigitsRead::Val(v) => v,
        DigitsRead::NotDigits => {
            return None;
        },
        DigitsRead::TooBig => {
            proof {
                let ip = s@.subrange(bs as int, p as int);
                let fp = s@.subrange(p + 1, n as int);
                lemma_digits_val_append(ip, fp);
                assert(v_int * pow10(fp.len()) + digits_val(fp) == digits_val(ip + fp));
            }
            return None;
        },
    };
    if frac_len > MAX_SCALE as usize {
        return None;
    }
    proof {
        let ip = s@.subrange(bs as int, p as int);
        let fp = s@.subrange(p + 1, n as int);
        lemma_digits_val_append(ip, fp);
        assert(v == digits_val(ip + fp));
    }
    let m = if neg {
        -v
    } else {
        v
    };
    Some(Decimal { mantissa: m, scale: frac_len as u32 })
}

/// When the integer part alone is already too big, the whole digit string
/// is too.
proof fn too_big_concat(s: Seq<char>, bs: int, p: int, n: int, acc: int)
    requires
        0 <= bs <= p < n <= s.len(),
        all_digits(s.subrange(bs, p)) ==> acc * pow10(s.subrange(bs, p).len()) + digits_val(
            s.subrange(bs, p),
        ) > i128::MAX,
        acc >= 0,
    ensures
        all_digits(s.subrange(bs, p)) && all_digits(s.subrange(p + 1, n)) ==> acc * pow10(
            (s.subrange(bs, p) + s.subrange(p + 1, n)).len(),
        ) + digits_val(s.subrange(bs, p) + s.subrange(p + 1, n)) > i128::MAX,
{
    let ip = s.subrange(bs, p);
    let fp = s.subrange(p + 1, n);
    if all_digits(ip) && all_digits(fp) {
        lemma_digits_val_append(ip, fp);
        lemma_digits_val_bounds(fp);
        lemma_pow10_pos(fp.len());
        lemma_pow10_add(ip.len(), fp.len());
        let head = acc * pow10(ip.len()) + digits_val(ip);
        assert(acc * pow10((ip + fp).len()) + digits_val(ip + fp) == head * pow10(fp.len())
            + digits_val(fp)) by (nonlinear_arith)
            requires
                digits_val(ip + fp) == digits_val(ip) * pow10(fp.len()) + digits_val(fp),
                pow10((ip + fp).len()) == pow10(ip.len()) * pow10(fp.len()),
                head == acc * pow10(ip.len()) + digits_val(ip),
                (ip + fp).len() == ip.len() + fp.len(),
        ;
        assert(head * pow10(fp.len()) + digits_val(fp) > i128::MAX) by (nonlinear_arith)
            requires
                head > i128::MAX,
                pow10(fp.len()) >= 1,
                digits_val(fp) >= 0,
        ;
    }
}

/// The fixed rendering of an exact decimal: optional minus sign, the
/// magnitude's digits, and for a positive scale a period before the last
/// `scale` digits, zero-padded so both sides keep at least one digit.
pub open spec fn render_decimal_spec(m: int, scale: nat) -> Seq<char> {
    let sign: Seq<char> = if m < 0 {
        seq!['-']
    } else {
        Seq::empty()
    };
    let mag = if m < 0 {
        -m
    } else {
        m
    };
    let ds = zero_pad(dec_digits(mag as nat), scale + 1);
    if scale == 0 {
        sign + ds
    } else {
        sign + ds.take(ds.len() - scale) + seq!['.'] + ds.skip(ds.len() - scale)
    }
}

/// Renders the decimal with exactly `scale` digits after the period.
pub fn render_decimal(d: &Decimal) -> (r: String)
    ensures
        r@ == render_decimal_spec(d.mantissa as int, d.scale as nat),
{
    let neg = d.mantissa < 0;
    let mag: u128 = if neg {
        ((-(d.mantissa + 1)) as u128) + 1
    } else {
        d.mantissa as u128
    };
    let ds = pad_u128(mag, d.scale as u64 + 1);
    let dslen = ds.as_str().unicode_len();
    let mut out = String::new();
    if neg {
        out.push('-');
    }
    if d.scale == 0 {
        out.append(ds.as_str());
        proof {
            assert(out@ =~= render_decimal_spec(d.mantissa as int, d.scale as nat));
        }
        return out;
    }
    let cut = dslen - d.scale as usize;
    out.append(ds.as_str().substring_char(0, cut));
    out.push('.');
    out.append(ds.as_str().substring_char(cut, dslen));
    proof {
        assert(out@ =~= render_decimal_spec(d.mantissa as int, d.scale as nat));
    }
    out
}

} // verus!
