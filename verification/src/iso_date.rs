//! Calendar dates in the `YYYY-MM-DD` pattern: parsing, rendering, and the
//! round-trip law connecting the two.
use vstd::prelude::*;
use crate::text::{
    all_digits, dec_digits, digit_char, digit_val, digits_val, is_digit, pad_u128, parse_digit,
    pow10, zero_pad,
};

verus! {

/// A calendar date, held as plain year, month and day numbers.
#[derive(Clone, Copy, Debug, PartialEq, Eq, Structural)]
pub struct IsoDate {
    pub year: u32,
    pub month: u32,
    pub day: u32,
}

pub open spec fn is_leap_year(y: int) -> bool {
    y % 4 == 0 && (y % 100 != 0 || y % 400 == 0)
}

pub open spec fn days_in_month(y: int, m: int) -> int {
    if m == 2 {
        if is_leap_year(y) {
            29
        } else {
            28
        }
    } else if m == 4 || m == 6 || m == 9 || m == 11 {
        30
    } else {
        31
    }
}

impl IsoDate {
    /// A date the four-digit-year calendar accepts.
    pub open spec fn wf(self) -> bool {
        self.year <= 9999 && 1 <= self.month <= 12 && 1 <= self.day <= days_in_month(
            self.year as int,
            self.month as int,
        )
    }
}

/// The date a ten-character `YYYY-MM-DD` string denotes, if the pattern and
/// the calendar both accept it; exactly four, two and two digits, nothing
/// more lenient.
pub open spec fn parse_date_spec(s: Seq<char>) -> Option<IsoDate> {
    if s.len() == 10 && all_digits(s.subrange(0, 4)) && s[4] == '-' && all_digits(
        s.subrange(5, 7),
    ) && s[7] == '-' && all_digits(s.subrange(8, 10)) {
        let y = digits_val(s.subrange(0, 4));
        let m = digits_val(s.subrange(5, 7));
        let d = digits_val(s.subrange(8, 10));
        if 1 <= m <= 12 && 1 <= d <= days_in_month(y, m) {
            Some(IsoDate { year: y as u32, month: m as u32, day: d as u32 })
        } else {
            None
        }
    } else {
        None
    }
}

/// The fixed output pattern: zero-padded `YYYY-MM-DD`.
pub open spec fn render_date_spec(d: IsoDate) -> Seq<char> {
    zero_pad(dec_digits(d.year as nat), 4) + seq!['-'] + zero_pad(dec_digits(d.month as nat), 2)
        + seq!['-'] + zero_pad(dec_digits(d.day as nat), 2)
}

fn is_leap_year_exec(y: u32) -> (r: bool)
    ensures
        r == is_leap_year(y as int),
{
    y % 4 == 0 && (y % 100 != 0 || y % 400 == 0)
}

fn days_in_month_exec(y: u32, m: u32) -> (r: u32)
    ensures
        r == days_in_month(y as int, m as int),
{
    if m == 2 {
        if is_leap_year_exec(y) {
            29
        } else {
            28
        }
    } else if m == 4 || m == 6 || m == 9 || m == 11 {
        30
    } else {
        31
    }
}

/// Reads the two digits of `s` at `lo` and `lo + 1` as one number, or
/// reports the failing pattern.
fn two_digits(s: &str, lo: usize) -> (r: Option<u32>)
    requires
        lo + 2 <= s@.len(),
        s@.len() <= usize::MAX,
    ensures
        (r is Some) == all_digits(s@.subrange(lo as int, lo + 2)),
        r matches Some(v) ==> v == digits_val(s@.subrange(lo as int, lo + 2)) && v < 100,
{
    let ghost sub = s@.subrange(lo as int, lo + 2);
    let c0 = s.get_char(lo);
    let c1 = s.get_char(lo + 1);
    proof {
        assert(sub[0] == s@[lo as int]);
        assert(sub[1] == s@[lo as int + 1]);
        assert(sub.drop_last() =~= seq![s@[lo as int]]);
        assert(sub.last() == sub[1]);
        assert(seq![s@[lo as int]].drop_last() =~= Seq::<char>::empty());
        assert(seq![s@[lo as int]].last() == s@[lo as int]);
        assert(digits_val(Seq::<char>::empty()) == 0);
        assert(digits_val(seq![s@[lo as int]]) == digit_val(sub[0]));
        assert(digits_val(sub) == digit_val(sub[0]) * 10 + digit_val(sub[1]));
    }
    match (parse_digit(c0), parse_digit(c1)) {
        (Some(d0), Some(d1)) => {
            proof {
                assert(all_digits(sub));
            }
            Some(d0 * 10 + d1)
        },
        (None, _) => {
            proof {
                assert(!is_digit(sub[0]));
            }
            None
        },
        (_, None) => {
            proof {
                assert(!is_digit(sub[1]));
            }
            None
        },
    }
}

/// Parses a date in exactly the `YYYY-MM-DD` pattern; anything else is
/// rejected.
pub fn parse_iso_date(s: &str) -> (r: Option<IsoDate>)
    ensures
        r == parse_date_spec(s@),
{
    let n = s.unicode_len();
    if n != 10 {
        return None;
    }
    if s.get_char(4) != '-' || s.get_char(7) != '-' {
        return None;
    }
    let ghost ysub = s@.subrange(0, 4);
    let y_hi = match two_digits(s, 0) {
        Some(v) => v,
        None => {
            proof {
                let bad = choose|j: int| 0 <= j < 2 && !is_digit(s@.subrange(0int, 2)[j]);
                assert(ysub[bad] == s@.subrange(0int, 2)[bad]);
            }
            return None;
        },
    };
    let y_lo = match two_digits(s, 2) {
        Some(v) => v,
        None => {
            proof {
                let bad = choose|j: int| 0 <= j < 2 && !is_digit(s@.subrange(2int, 4)[j]);
                assert(ysub[bad + 2] == s@.subrange(2int, 4)[bad]);
            }
            return None;
        },
    };
    let m = match two_digits(s, 5) {
        Some(v) => v,
        None => {
            return None;
        },
    };
    let d = match two_digits(s, 8) {
        Some(v) => v,
        None => {
            return None;
        },
    };
    let y = y_hi * 100 + y_lo;
    proof {
        let lo2 = s@.subrange(2int, 4);
        assert(ysub.drop_last() =~= s@.subrange(0, 3));
        assert(ysub.last() == s@[3]);
        assert(s@.subrange(0, 3).drop_last() =~= s@.subrange(0int, 2));
        assert(s@.subrange(0, 3).last() == s@[2]);
        assert(digits_val(s@.subrange(0, 3)) == digits_val(s@.subrange(0int, 2)) * 10 + digit_val(
            s@[2],
        ));
        assert(digits_val(ysub) == digits_val(s@.subrange(0, 3)) * 10 + digit_val(s@[3]));
        assert(lo2.drop_last() =~= seq![s@[2]]);
        assert(lo2.last() == s@[3]);
        assert(seq![s@[2]].drop_last() =~= Seq::<char>::empty());
        assert(seq![s@[2]].last() == s@[2]);
        assert(digits_val(seq![s@[2]]) == digit_val(s@[2]));
        assert(y_lo == digit_val(s@[2]) * 10 + digit_val(s@[3]));
        assert(forall|j: int| 0 <= j < 2 ==> ysub[j] == s@.subrange(0int, 2)[j]);
        assert(ysub[2] == lo2[0] && ysub[3] == lo2[1]);
        assert(all_digits(ysub));
        assert(digits_val(ysub) == y);
    }
    if m < 1 || m > 12 {
        return None;
    }
    if d < 1 || d > days_in_month_exec(y, m) {
        return None;
    }
    Some(IsoDate { year: y, month: m, day: d })
}

/// Renders a date in the fixed zero-padded `YYYY-MM-DD` pattern.
pub fn render_iso_date(d: &IsoDate) -> (r: String)
    ensures
        r@ == render_date_spec(*d),
{
    let mut out = pad_u128(d.year as u128, 4u64);
    out.push('-');
    let mm = pad_u128(d.month as u128, 2u64);
    out.append(mm.as_str());
    out.push('-');
    let dd = pad_u128(d.day as u128, 2u64);
    out.append(dd.as_str());
    proof {
        assert(out@ =~= render_date_spec(*d));
    }
    out
}

proof fn lemma_dec_digits_val(n: nat)
    ensures
        all_digits(dec_digits(n)),
        digits_val(dec_digits(n)) == n,
        dec_digits(n).len() >= 1,
    decreases n,
{
    if n < 10 {
        let c = digit_char(n as int);
        assert(dec_digits(n) == seq![c]);
        assert(seq![c].drop_last() =~= Seq::<char>::empty());
        assert(seq![c].last() == c);
        assert(digits_val(Seq::<char>::empty()) == 0);
        assert(digit_val(c) == n);
        assert(is_digit(c));
        assert(forall|j: int| 0 <= j < 1 ==> seq![c][j] == c);
    } else {
        lemma_dec_digits_val(n / 10);
        let pre = dec_digits(n / 10);
        let c = digit_char((n % 10) as int);
        assert(dec_digits(n) == pre.push(c));
        assert(pre.push(c).drop_last() =~= pre);
        assert(pre.push(c).last() == c);
        assert(digit_val(c) == n % 10);
        assert(digits_val(pre.push(c)) == digits_val(pre) * 10 + n % 10);
        assert(n == (n / 10) * 10 + n % 10);
        assert(is_digit(c));
        assert forall|j: int| 0 <= j < pre.push(c).len() implies is_digit(pre.push(c)[j]) by {
            if j < pre.len() {
                assert(pre.push(c)[j] == pre[j]);
            } else {
                assert(pre.push(c)[j] == c);
            }
        }
    }
}

proof fn lemma_dec_digits_len(n: nat, k: nat)
    requires
        k >= 1,
        n < pow10(k),
    ensures
        dec_digits(n).len() <= k,
    decreases k,
{
    if n < 10 {
    } else {
        assert(pow10(k) == 10 * pow10((k - 1) as nat));
        lemma_dec_digits_len(n / 10, (k - 1) as nat);
    }
}

proof fn lemma_digits_val_zeros(z: nat, s: Seq<char>)
    ensures
        digits_val(Seq::new(z, |i: int| '0') + s) == digits_val(s),
        all_digits(s) ==> all_digits(Seq::new(z, |i: int| '0') + s),
    decreases s.len(),
{
    let zs = Seq::new(z, |i: int| '0');
    if s.len() == 0 {
        assert(zs + s =~= zs);
        lemma_digits_val_all_zero(z);
    } else {
        lemma_digits_val_zeros(z, s.drop_last());
        assert((zs + s).drop_last() =~= zs + s.drop_last());
        assert((zs + s).last() == s.last());
    }
}

proof fn lemma_digits_val_all_zero(z: nat)
    ensures
        digits_val(Seq::new(z, |i: int| '0')) == 0,
        all_digits(Seq::new(z, |i: int| '0')),
    decreases z,
{
    let zs = Seq::new(z, |i: int| '0');
    if z > 0 {
        lemma_digits_val_all_zero((z - 1) as nat);
        assert(zs.drop_last() =~= Seq::new((z - 1) as nat, |i: int| '0'));
    }
}

/// For a value below `pow10(w)` the padded digit string has exactly `w`
/// digit characters and still denotes the value.
proof fn lemma_padded_digits(n: nat, w: nat)
    requires
        w >= 1,
        n < pow10(w),
    ensures
        zero_pad(dec_digits(n), w).len() == w,
        all_digits(zero_pad(dec_digits(n), w)),
        digits_val(zero_pad(dec_digits(n), w)) == n,
{
    lemma_dec_digits_val(n);
    lemma_dec_digits_len(n, w);
    let ds = dec_digits(n);
    if ds.len() >= w {
        assert(zero_pad(ds, w) == ds);
    } else {
        lemma_digits_val_zeros((w - ds.len()) as nat, ds);
    }
}

/// Law: rendering a well-formed date and decoding the result gives back the
/// same date.
pub proof fn lemma_date_round_trip(d: IsoDate)
    requires
        d.wf(),
    ensures
        parse_date_spec(render_date_spec(d)) == Some(d),
{
    let ys = zero_pad(dec_digits(d.year as nat), 4);
    let ms = zero_pad(dec_digits(d.month as nat), 2);
    let ds = zero_pad(dec_digits(d.day as nat), 2);
    reveal_with_fuel(pow10, 5);
    assert(pow10(4) == 10000);
    assert(pow10(2) == 100);
    lemma_padded_digits(d.year as nat, 4);
    lemma_padded_digits(d.month as nat, 2);
    lemma_padded_digits(d.day as nat, 2);
    let r = render_date_spec(d);
    assert(r.subrange(0, 4) =~= ys);
    assert(r.subrange(5, 7) =~= ms);
    assert(r.subrange(8, 10) =~= ds);
    assert(r[4] == '-');
    assert(r[7] == '-');
}

} // verus!
