//! Small verified string utilities: whitespace trimming, separator
//! splitting, joining, and decimal digit rendering.
use vstd::prelude::*;

verus! {

/// The characters that surround-trimming removes: the full White_Space set
/// that the standard library's `str::trim` also removes.
pub open spec fn is_space(c: char) -> bool {
    c == ' ' || c == '\t' || c == '\n' || c == '\r' || c == '\u{000B}' || c == '\u{000C}'
        || c == '\u{0085}' || c == '\u{00A0}' || c == '\u{1680}' || c == '\u{2000}'
        || c == '\u{2001}' || c == '\u{2002}' || c == '\u{2003}' || c == '\u{2004}'
        || c == '\u{2005}' || c == '\u{2006}' || c == '\u{2007}' || c == '\u{2008}'
        || c == '\u{2009}' || c == '\u{200A}' || c == '\u{2028}' || c == '\u{2029}'
        || c == '\u{202F}' || c == '\u{205F}' || c == '\u{3000}'
}

fn is_space_exec(c: char) -> (r: bool)
    ensures
        r == is_space(c),
{
    c == ' ' || c == '\t' || c == '\n' || c == '\r' || c == '\u{000B}' || c == '\u{000C}'
        || c == '\u{0085}' || c == '\u{00A0}' || c == '\u{1680}' || c == '\u{2000}'
        || c == '\u{2001}' || c == '\u{2002}' || c == '\u{2003}' || c == '\u{2004}'
        || c == '\u{2005}' || c == '\u{2006}' || c == '\u{2007}' || c == '\u{2008}'
        || c == '\u{2009}' || c == '\u{200A}' || c == '\u{2028}' || c == '\u{2029}'
        || c == '\u{202F}' || c == '\u{205F}' || c == '\u{3000}'
}

/// Length of the run of whitespace at the front of `s`.
pub open spec fn leading_ws(s: Seq<char>) -> nat
    decreases s.len(),
{
    if s.len() == 0 || !is_space(s[0]) {
        0
    } else {
        1 + leading_ws(s.drop_first())
    }
}

/// Length of the run of whitespace at the back of `s`.
pub open spec fn trailing_ws(s: Seq<char>) -> nat
    decreases s.len(),
{
    if s.len() == 0 || !is_space(s[s.len() - 1]) {
        0
    } else {
        1 + trailing_ws(s.drop_last())
    }
}

/// `s` with leading and trailing whitespace removed.
pub open spec fn trim_spec(s: Seq<char>) -> Seq<char> {
    if leading_ws(s) == s.len() {
        Seq::empty()
    } else {
        s.subrange(leading_ws(s) as int, s.len() - trailing_ws(s))
    }
}

proof fn lemma_leading_ws_scan(s: Seq<char>, i: int)
    requires
        0 <= i <= s.len(),
        forall|j: int| 0 <= j < i ==> is_space(s[j]),
        i == s.len() || !is_space(s[i]),
    ensures
        leading_ws(s) == i,
    decreases i,
{
    if i == 0 {
    } else {
        assert(is_space(s[0]));
        lemma_leading_ws_scan(s.drop_first(), i - 1);
    }
}

proof fn lemma_trailing_ws_scan(s: Seq<char>, i: int)
    requires
        0 <= i <= s.len(),
        forall|j: int| i <= j < s.len() ==> is_space(s[j]),
        i == 0 || !is_space(s[i - 1]),
    ensures
        trailing_ws(s) == s.len() - i,
    decreases s.len() - i,
{
    if i == s.len() {
    } else {
        assert(is_space(s[s.len() - 1]));
        lemma_trailing_ws_scan(s.drop_last(), i);
    }
}

/// Removes the whitespace that surrounds `s`.
pub fn trim(s: &str) -> (r: String)
    ensures
        r@ == trim_spec(s@),
{
    let n = s.unicode_len();
    let mut lo: usize = 0;
    loop
        invariant
            lo <= n,
            n == s@.len(),
            forall|j: int| 0 <= j < lo ==> is_space(s@[j]),
        ensures
            lo <= n,
            forall|j: int| 0 <= j < lo ==> is_space(s@[j]),
            lo == n || !is_space(s@[lo as int]),
        decreases n - lo,
    {
        if lo == n {
            break;
        }
        if !is_space_exec(s.get_char(lo)) {
            break;
        }
        lo = lo + 1;
    }
    if lo == n {
        proof {
            lemma_leading_ws_scan(s@, n as int);
        }
        return String::new();
    }
    proof {
        lemma_leading_ws_scan(s@, lo as int);
    }
    let mut hi: usize = n;
    loop
        invariant
            lo < hi <= n,
            n == s@.len(),
            !is_space(s@[lo as int]),
            forall|j: int| hi <= j < n ==> is_space(s@[j]),
        ensures
            lo < hi <= n,
            forall|j: int| hi <= j < n ==> is_space(s@[j]),
            !is_space(s@[hi - 1]),
        decreases hi,
    {
        if !is_space_exec(s.get_char(hi - 1)) {
            break;
        }
        hi = hi - 1;
    }
    proof {
        lemma_trailing_ws_scan(s@, hi as int);
    }
    s.substring_char(lo, hi).to_owned()
}

/// Appending a character; the standard library documents `String::push` as
/// appending the given `char` to the end of the string.
pub assume_specification[ String::push ](s: &mut String, c: char)
    ensures
        final(s)@ == old(s)@.push(c),
;

/// Position of the first occurrence of `sep` in `s`.
pub open spec fn sep_pos(s: Seq<char>, sep: char) -> Option<int>
    decreases s.len(),
{
    if s.len() == 0 {
        None
    } else if s[0] == sep {
        Some(0int)
    } else {
        match sep_pos(s.drop_first(), sep) {
            None => None,
            Some(i) => Some(i + 1),
        }
    }
}

pub proof fn lemma_sep_pos_none(s: Seq<char>, sep: char)
    requires
        forall|j: int| 0 <= j < s.len() ==> s[j] != sep,
    ensures
        sep_pos(s, sep) is None,
    decreases s.len(),
{
    if s.len() > 0 {
        lemma_sep_pos_none(s.drop_first(), sep);
    }
}

pub proof fn lemma_sep_pos_at(s: Seq<char>, sep: char, i: int)
    requires
        0 <= i < s.len(),
        s[i] == sep,
        forall|j: int| 0 <= j < i ==> s[j] != sep,
    ensures
        sep_pos(s, sep) == Some(i),
    decreases i,
{
    if i > 0 {
        lemma_sep_pos_at(s.drop_first(), sep, i - 1);
    }
}

/// Segments of `s` split at every `sep`; the empty string splits into one
/// empty segment.
pub open spec fn split_spec(s: Seq<char>, sep: char) -> Seq<Seq<char>>
    decreases s.len(),
{
    match sep_pos(s, sep) {
        None => seq![s],
        Some(i) => if 0 <= i < s.len() {
            seq![s.subrange(0, i)] + split_spec(s.subrange(i + 1, s.len() as int), sep)
        } else {
            seq![s]
        },
    }
}

/// Splits `s` at every occurrence of `sep`.
pub fn split_char(s: &str, sep: char) -> (r: Vec<String>)
    ensures
        r.deep_view() == split_spec(s@, sep),
{
    let n = s.unicode_len();
    let mut out: Vec<String> = Vec::new();
    let mut start: usize = 0;
    let mut i: usize = 0;
    proof {
        assert(s@.subrange(0, n as int) =~= s@);
        assert(out.deep_view() =~= Seq::<Seq<char>>::empty());
        assert(Seq::<Seq<char>>::empty() + split_spec(s@, sep) =~= split_spec(s@, sep));
    }
    loop
        invariant
            start <= i <= n,
            n == s@.len(),
            forall|j: int| start <= j < i ==> s@[j] != sep,
            split_spec(s@, sep) == out.deep_view() + split_spec(
                s@.subrange(start as int, n as int),
                sep,
            ),
        ensures
            start <= i <= n,
            i == n,
            forall|j: int| start <= j < i ==> s@[j] != sep,
            split_spec(s@, sep) == out.deep_view() + split_spec(
                s@.subrange(start as int, n as int),
                sep,
            ),
        decreases n - i,
    {
        if i == n {
            break;
        }
        if s.get_char(i) == sep {
            let piece = s.substring_char(start, i).to_owned();
            let ghost pre = out.deep_view();
            out.push(piece);
            proof {
                let rem = s@.subrange(start as int, n as int);
                assert(rem[i - start] == sep);
                assert(forall|j: int| 0 <= j < i - start ==> rem[j] != sep);
                lemma_sep_pos_at(rem, sep, i - start);
                assert(rem.subrange(0, i - start) =~= s@.subrange(start as int, i as int));
                assert(rem.subrange(i - start + 1, rem.len() as int) =~= s@.subrange(
                    i + 1,
                    n as int,
                ));
                assert(out.deep_view() =~= pre + seq![s@.subrange(start as int, i as int)]);
            }
            start = i + 1;
        }
        i = i + 1;
    }
    let tail = s.substring_char(start, n).to_owned();
    let ghost pre = out.deep_view();
    out.push(tail);
    proof {
        let rem = s@.subrange(start as int, n as int);
        lemma_sep_pos_none(rem, sep);
        assert(out.deep_view() =~= pre + seq![rem]);
    }
    out
}

/// The segments joined with `sep` between consecutive segments.
pub open spec fn join_spec(parts: Seq<Seq<char>>, sep: Seq<char>) -> Seq<char>
    decreases parts.len(),
{
    if parts.len() == 0 {
        Seq::empty()
    } else if parts.len() == 1 {
        parts[0]
    } else {
        parts[0] + sep + join_spec(parts.drop_first(), sep)
    }
}

proof fn lemma_join_push(parts: Seq<Seq<char>>, sep: Seq<char>, x: Seq<char>)
    ensures
        join_spec(parts.push(x), sep) == if parts.len() == 0 {
            x
        } else {
            join_spec(parts, sep) + sep + x
        },
    decreases parts.len(),
{
    if parts.len() == 0 {
        assert(parts.push(x) =~= seq![x]);
    } else {
        assert(parts.push(x).drop_first() =~= parts.drop_first().push(x));
        lemma_join_push(parts.drop_first(), sep, x);
        if parts.len() == 1 {
            assert(parts.drop_first().len() == 0);
        } else {
            assert((parts[0] + sep + (join_spec(parts.drop_first(), sep) + sep + x)) =~= ((parts[0]
                + sep + join_spec(parts.drop_first(), sep)) + sep + x));
        }
    }
}

/// Joins `parts` with `sep` between consecutive parts.
pub fn join(parts: &Vec<String>, sep: &str) -> (r: String)
    ensures
        r@ == join_spec(parts.deep_view(), sep@),
{
    let mut out = String::new();
    let mut k: usize = 0;
    while k < parts.len()
        invariant
            k <= parts@.len(),
            out@ == join_spec(parts.deep_view().take(k as int), sep@),
        decreases parts@.len() - k,
    {
        if k > 0 {
            out.append(sep);
        }
        out.append(parts[k].as_str());
        proof {
            let pv = parts.deep_view();
            assert(pv.take(k + 1) =~= pv.take(k as int).push(pv[k as int]));
            lemma_join_push(pv.take(k as int), sep@, pv[k as int]);
        }
        k = k + 1;
    }
    proof {
        assert(parts.deep_view().take(parts@.len() as int) =~= parts.deep_view());
    }
    out
}

/// The character for one decimal digit.
pub open spec fn digit_char(d: int) -> char {
    if d == 0 {
        '0'
    } else if d == 1 {
        '1'
    } else if d == 2 {
        '2'
    } else if d == 3 {
        '3'
    } else if d == 4 {
        '4'
    } else if d == 5 {
        '5'
    } else if d == 6 {
        '6'
    } else if d == 7 {
        '7'
    } else if d == 8 {
        '8'
    } else {
        '9'
    }
}

pub open spec fn is_digit(c: char) -> bool {
    c == '0' || c == '1' || c == '2' || c == '3' || c == '4' || c == '5' || c == '6' || c == '7'
        || c == '8' || c == '9'
}

/// The numeric value of a digit character (meaningful only under `is_digit`).
pub open spec fn digit_val(c: char) -> int {
    if c == '0' {
        0
    } else if c == '1' {
        1
    } else if c == '2' {
        2
    } else if c == '3' {
        3
    } else if c == '4' {
        4
    } else if c == '5' {
        5
    } else if c == '6' {
        6
    } else if c == '7' {
        7
    } else if c == '8' {
        8
    } else {
        9
    }
}

pub open spec fn all_digits(s: Seq<char>) -> bool {
    forall|j: int| 0 <= j < s.len() ==> is_digit(s[j])
}

/// The integer a string of decimal digit characters denotes.
pub open spec fn digits_val(s: Seq<char>) -> int
    decreases s.len(),
{
    if s.len() == 0 {
        0
    } else {
        digits_val(s.drop_last()) * 10 + digit_val(s.last())
    }
}

pub proof fn lemma_digits_val_bounds(s: Seq<char>)
    ensures
        digits_val(s) >= 0,
    decreases s.len(),
{
    if s.len() > 0 {
        lemma_digits_val_bounds(s.drop_last());
    }
}

/// Ten to the power `k`.
pub open spec fn pow10(k: nat) -> int
    decreases k,
{
    if k == 0 {
        1
    } else {
        10 * pow10((k - 1) as nat)
    }
}

pub proof fn lemma_pow10_pos(k: nat)
    ensures
        pow10(k) >= 1,
    decreases k,
{
    if k > 0 {
        lemma_pow10_pos((k - 1) as nat);
    }
}

pub proof fn lemma_pow10_add(a: nat, b: nat)
    ensures
        pow10(a + b) == pow10(a) * pow10(b),
    decreases b,
{
    if b == 0 {
        assert(pow10(a + 0) == pow10(a) * 1);
    } else {
        lemma_pow10_add(a, (b - 1) as nat);
        assert(pow10(a + b) == 10 * pow10((a + b - 1) as nat));
        assert(pow10(b) == 10 * pow10((b - 1) as nat));
        assert(pow10(a) * (10 * pow10((b - 1) as nat)) == 10 * (pow10(a) * pow10(
            (b - 1) as nat,
        ))) by (nonlinear_arith);
    }
}

/// Concatenating digit strings shifts the left part by ten to the length of
/// the right part.
pub proof fn lemma_digits_val_append(a: Seq<char>, b: Seq<char>)
    ensures
        digits_val(a + b) == digits_val(a) * pow10(b.len()) + digits_val(b),
    decreases b.len(),
{
    if b.len() == 0 {
        assert(a + b =~= a);
    } else {
        lemma_digits_val_append(a, b.drop_last());
        assert((a + b).drop_last() =~= a + b.drop_last());
        assert((a + b).last() == b.last());
        assert(digits_val(a + b) == (digits_val(a) * pow10((b.len() - 1) as nat) + digits_val(
            b.drop_last(),
        )) * 10 + digit_val(b.last()));
        assert(pow10(b.len()) == 10 * pow10((b.len() - 1) as nat));
        assert((digits_val(a) * pow10((b.len() - 1) as nat)) * 10 == digits_val(a) * (pow10(
            (b.len() - 1) as nat,
        ) * 10)) by (nonlinear_arith);
    }
}

/// The decimal digit string of `n`, most significant digit first.
pub open spec fn dec_digits(n: nat) -> Seq<char>
    decreases n,
{
    if n < 10 {
        seq![digit_char(n as int)]
    } else {
        dec_digits(n / 10).push(digit_char((n % 10) as int))
    }
}

fn digit_char_exec(d: u32) -> (c: char)
    requires
        d < 10,
    ensures
        c == digit_char(d as int),
{
    if d == 0 {
        '0'
    } else if d == 1 {
        '1'
    } else if d == 2 {
        '2'
    } else if d == 3 {
        '3'
    } else if d == 4 {
        '4'
    } else if d == 5 {
        '5'
    } else if d == 6 {
        '6'
    } else if d == 7 {
        '7'
    } else if d == 8 {
        '8'
    } else {
        '9'
    }
}

/// The digit's value, or `None` when `c` is no decimal digit.
pub fn parse_digit(c: char) -> (r: Option<u32>)
    ensures
        (r is Some) == is_digit(c),
        r matches Some(d) ==> d == digit_val(c) && d < 10,
{
    if c == '0' {
        Some(0)
    } else if c == '1' {
        Some(1)
    } else if c == '2' {
        Some(2)
    } else if c == '3' {
        Some(3)
    } else if c == '4' {
        Some(4)
    } else if c == '5' {
        Some(5)
    } else if c == '6' {
        Some(6)
    } else if c == '7' {
        Some(7)
    } else if c == '8' {
        Some(8)
    } else if c == '9' {
        Some(9)
    } else {
        None
    }
}

/// Renders `n` in decimal.
pub fn u128_to_string(n: u128) -> (r: String)
    ensures
        r@ == dec_digits(n as nat),
    decreases n,
{
    if n < 10 {
        let mut s = String::new();
        s.push(digit_char_exec(n as u32));
        proof {
            assert(s@ =~= dec_digits(n as nat));
        }
        s
    } else {
        let mut s = u128_to_string(n / 10);
        s.push(digit_char_exec((n % 10) as u32));
        s
    }
}

/// Renders `n` in decimal.
pub fn u32_to_string(n: u32) -> (r: String)
    ensures
        r@ == dec_digits(n as nat),
{
    u128_to_string(n as u128)
}

/// `s` left-padded with zeros to at least `w` characters.
pub open spec fn zero_pad(s: Seq<char>, w: nat) -> Seq<char> {
    if s.len() >= w {
        s
    } else {
        Seq::new((w - s.len()) as nat, |i: int| '0') + s
    }
}

/// Renders `n` in decimal, zero-padded to at least `w` digits.
pub fn pad_u128(n: u128, w: u64) -> (r: String)
    ensures
        r@ == zero_pad(dec_digits(n as nat), w as nat),
{
    let digits = u128_to_string(n);
    let len = digits.as_str().unicode_len();
    if len as u64 >= w {
        return digits;
    }
    let mut out = String::new();
    let mut k: u64 = 0;
    while k < w - len as u64
        invariant
            k <= w - len as u64,
            (len as u64) < w,
            len == digits@.len(),
            digits@ == dec_digits(n as nat),
            out@ =~= Seq::new(k as nat, |i: int| '0'),
        decreases w - len as u64 - k,
    {
        out.push('0');
        proof {
            assert(out@ =~= Seq::new((k + 1) as nat, |i: int| '0'));
        }
        k = k + 1;
    }
    out.append(digits.as_str());
    out
}

} // verus!

