//! Character-level helpers for names and decimal fields.
use vstd::prelude::*;

verus! {

/// An ASCII decimal digit.
pub open spec fn is_digit(c: char) -> bool {
    '0' <= c && c <= '9'
}

/// Every character of `s` is an ASCII decimal digit.
pub open spec fn all_digits(s: Seq<char>) -> bool {
    forall|i: int| 0 <= i < s.len() ==> is_digit(#[trigger] s[i])
}

/// The value of a decimal digit.
pub open spec fn digit_value(c: char) -> nat {
    (c as u32 - '0' as u32) as nat
}

/// The value of a string of decimal digits, most significant first.
pub open spec fn digits_value(s: Seq<char>) -> nat
    decreases s.len(),
{
    if s.len() == 0 {
        0
    } else {
        digits_value(s.drop_last()) * 10 + digit_value(s.last())
    }
}

/// The character of the decimal digit `d`.
pub open spec fn digit_char(d: nat) -> char {
    ((d + '0' as u32) as u32) as char
}

/// `v` written with exactly `width` decimal digits: zero-padded on the left,
/// higher digits dropped.
pub open spec fn padded_digits(v: nat, width: nat) -> Seq<char>
    decreases width,
{
    if width == 0 {
        Seq::empty()
    } else {
        padded_digits(v / 10, (width - 1) as nat).push(digit_char(v % 10))
    }
}

/// `p` occurs in `s` at position `i`.
pub open spec fn occurs_at(s: Seq<char>, p: Seq<char>, i: int) -> bool {
    0 <= i && i + p.len() <= s.len() && s.subrange(i, i + p.len()) == p
}

/// `s` begins with `p`.
pub open spec fn has_prefix(s: Seq<char>, p: Seq<char>) -> bool {
    occurs_at(s, p, 0)
}

/// `s` ends with `p`.
pub open spec fn has_suffix(s: Seq<char>, p: Seq<char>) -> bool {
    p.len() <= s.len() && occurs_at(s, p, s.len() - p.len())
}

/// `p` occurs somewhere in `s`.
pub open spec fn has_infix(s: Seq<char>, p: Seq<char>) -> bool {
    exists|i: int| #[trigger] occurs_at(s, p, i)
}

/// The characters of a string, one per element.
pub fn chars_of(s: &str) -> (r: Vec<char>)
    ensures
        r@ == s@,
{
    let n = s.unicode_len();
    let mut r: Vec<char> = Vec::with_capacity(n);
    let mut i: usize = 0;
    while i < n
        invariant
            n == s@.len(),
            i <= n,
            r@ == s@.subrange(0, i as int),
        decreases n - i,
    {
        r.push(s.get_char(i));
        i = i + 1;
        assert(r@ =~= s@.subrange(0, i as int));
    }
    assert(r@ =~= s@);
    r
}

/// Whether `p` occurs in `s` at position `at`.
pub fn occurs_at_exec(s: &Vec<char>, p: &Vec<char>, at: usize) -> (b: bool)
    ensures
        b == occurs_at(s@, p@, at as int),
{
    if at > s.len() || p.len() > s.len() - at {
        return false;
    }
    let n = s.len();
    let mut k: usize = 0;
    while k < p.len()
        invariant
            n == s@.len(),
            at + p@.len() <= s@.len(),
            k <= p@.len(),
            forall|j: int| 0 <= j < k ==> s@[at + j] == p@[j],
        decreases p@.len() - k,
    {
        if s[at + k] != p[k] {
            assert(s@.subrange(at as int, at + p@.len())[k as int] != p@[k as int]);
            return false;
        }
        k = k + 1;
    }
    assert(s@.subrange(at as int, at + p@.len()) =~= p@);
    true
}

/// Whether `s` begins with `p`.
pub fn starts_with(s: &Vec<char>, p: &str) -> (b: bool)
    ensures
        b == has_prefix(s@, p@),
{
    let pc = chars_of(p);
    occurs_at_exec(s, &pc, 0)
}

/// Whether `s` ends with `p`.
pub fn ends_with(s: &Vec<char>, p: &str) -> (b: bool)
    ensures
        b == has_suffix(s@, p@),
{
    let pc = chars_of(p);
    if pc.len() > s.len() {
        return false;
    }
    occurs_at_exec(s, &pc, s.len() - pc.len())
}

/// The first position at which `p` occurs in `s`, if any.
pub fn find(s: &Vec<char>, p: &str) -> (r: Option<usize>)
    ensures
        match r {
            Some(i) => occurs_at(s@, p@, i as int) && forall|j: int| 0 <= j < i ==> !occurs_at(s@, p@, j),
            None => !has_infix(s@, p@),
        },
{
    let pc = chars_of(p);
    let n = s.len();
    let mut i: usize = 0;
    while i < n
        invariant
            pc@ == p@,
            n == s@.len(),
            i <= n,
            forall|j: int| 0 <= j < i ==> !occurs_at(s@, p@, j),
        decreases n - i,
    {
        if occurs_at_exec(s, &pc, i) {
            return Some(i);
        }
        i = i + 1;
    }
    if occurs_at_exec(s, &pc, n) {
        return Some(n);
    }
    assert forall|j: int| !#[trigger] occurs_at(s@, p@, j) by {
        if 0 <= j <= i {
        }
    }
    None
}

/// Whether `p` occurs anywhere in `s`.
pub fn contains(s: &Vec<char>, p: &str) -> (b: bool)
    ensures
        b == has_infix(s@, p@),
{
    find(s, p).is_some()
}

/// The decimal value of `s[from..from + len]` if every character there is
/// a digit.
pub fn parse_digits(s: &Vec<char>, from: usize, len: usize) -> (r: Option<u64>)
    requires
        from + len <= s@.len(),
        len <= 18,
    ensures
        match r {
            Some(v) => all_digits(s@.subrange(from as int, from + len)) && v == digits_value(
                s@.subrange(from as int, from + len),
            ),
            None => !all_digits(s@.subrange(from as int, from + len)),
        },
{
    let total = s.len();
    let mut v: u64 = 0;
    let mut k: usize = 0;
    while k < len
        invariant
            from + len <= s@.len(),
            total == s@.len(),
            len <= 18,
            k <= len,
            all_digits(s@.subrange(from as int, from + k)),
            v == digits_value(s@.subrange(from as int, from + k)),
            v < pow10(k as nat),
        decreases len - k,
    {
        let c = s[from + k];
        if !('0' <= c && c <= '9') {
            assert(s@.subrange(from as int, from + len)[k as int] == c);
            return None;
        }
        let d = (c as u32 - '0' as u32) as u64;
        proof {
            lemma_pow10_bound(k as nat);
            let sub = s@.subrange(from as int, from + k + 1);
            assert(sub.drop_last() =~= s@.subrange(from as int, from + k));
            assert(sub.last() == c);
            assert(v * 10 + d < pow10((k + 1) as nat)) by (nonlinear_arith)
                requires
                    v < pow10(k as nat),
                    d < 10,
                    pow10((k + 1) as nat) == pow10(k as nat) * 10,
            ;
        }
        v = v * 10 + d;
        k = k + 1;
        assert(all_digits(s@.subrange(from as int, from + k))) by {
            assert forall|i: int| 0 <= i < k implies is_digit(#[trigger] s@.subrange(from as int, from + k)[i]) by {
                if i < k - 1 {
                    assert(s@.subrange(from as int, from + k)[i] == s@.subrange(from as int, from + k - 1)[i]);
                }
            }
        }
    }
    Some(v)
}

/// Ten to the power `n`.
pub open spec fn pow10(n: nat) -> nat
    decreases n,
{
    if n == 0 {
        1
    } else {
        pow10((n - 1) as nat) * 10
    }
}

proof fn lemma_pow10_mono(a: nat, b: nat)
    requires
        a <= b,
    ensures
        pow10(a) <= pow10(b),
    decreases b - a,
{
    if a < b {
        lemma_pow10_mono(a, (b - 1) as nat);
    }
}

proof fn lemma_pow10_bound(n: nat)
    requires
        n <= 18,
    ensures
        pow10(n) <= 1_000_000_000_000_000_000,
        pow10(n + 1) == pow10(n) * 10,
{
    reveal_with_fuel(pow10, 19);
    assert(pow10(18) == 1_000_000_000_000_000_000);
    lemma_pow10_mono(n, 18);
}

/// The one-character string of the decimal digit `d`.
fn digit_str(d: u64) -> (s: &'static str)
    requires
        d < 10,
    ensures
        s@ == seq![digit_char(d as nat)],
{
    proof {
        reveal_strlit("0");
        reveal_strlit("1");
        reveal_strlit("2");
        reveal_strlit("3");
        reveal_strlit("4");
        reveal_strlit("5");
        reveal_strlit("6");
        reveal_strlit("7");
        reveal_strlit("8");
        reveal_strlit("9");
    }
    if d == 0 {
        "0"
    } else if d == 1 {
        "1"
    } else if d == 2 {
        "2"
    } else if d == 3 {
        "3"
    } else if d == 4 {
        "4"
    } else if d == 5 {
        "5"
    } else if d == 6 {
        "6"
    } else if d == 7 {
        "7"
    } else if d == 8 {
        "8"
    } else {
        "9"
    }
}

/// Appends `v` written with exactly `width` decimal digits.
pub fn append_padded(out: &mut String, v: u64, width: usize)
    ensures
        final(out)@ == old(out)@ + padded_digits(v as nat, width as nat),
    decreases width,
{
    if width == 0 {
        assert(old(out)@ + padded_digits(v as nat, 0) =~= old(out)@);
        return;
    }
    append_padded(out, v / 10, width - 1);
    out.append(digit_str(v % 10));
    assert(old(out)@ + padded_digits(v as nat, width as nat) =~= old(out)@ + padded_digits(
        (v / 10) as nat,
        (width - 1) as nat,
    ) + seq![digit_char((v % 10) as nat)]);
}

/// `v` in decimal, without leading zeros.
pub open spec fn decimal(v: nat) -> Seq<char>
    decreases v,
{
    if v < 10 {
        seq![digit_char(v)]
    } else {
        decimal(v / 10).push(digit_char(v % 10))
    }
}

/// Appends `v` in decimal, without leading zeros.
pub fn append_decimal(out: &mut String, v: u64)
    ensures
        final(out)@ == old(out)@ + decimal(v as nat),
    decreases v,
{
    if v < 10 {
        out.append(digit_str(v));
        assert(old(out)@ + decimal(v as nat) =~= old(out)@ + seq![digit_char(v as nat)]);
        return;
    }
    append_decimal(out, v / 10);
    out.append(digit_str(v % 10));
    assert(old(out)@ + decimal(v as nat) =~= old(out)@ + decimal((v / 10) as nat) + seq![digit_char((v % 10) as nat)]);
}

/// Position of the first `c` in `s`, or its length when there is none.
pub open spec fn index_of(s: Seq<char>, c: char) -> int
    decreases s.len(),
{
    if s.len() == 0 {
        0
    } else if s[0] == c {
        0
    } else {
        1 + index_of(s.drop_first(), c)
    }
}

/// Position of the first digit of `s`, or its length when there is none.
pub open spec fn first_digit(s: Seq<char>) -> int
    decreases s.len(),
{
    if s.len() == 0 {
        0
    } else if is_digit(s[0]) {
        0
    } else {
        1 + first_digit(s.drop_first())
    }
}

/// Number of digits at the start of `s`.
pub open spec fn digit_run(s: Seq<char>) -> int
    decreases s.len(),
{
    if s.len() == 0 {
        0
    } else if !is_digit(s[0]) {
        0
    } else {
        1 + digit_run(s.drop_first())
    }
}

proof fn lemma_index_of(s: Seq<char>, c: char, k: int)
    requires
        0 <= k <= s.len(),
        forall|j: int| 0 <= j < k ==> s[j] != c,
        k == s.len() || s[k] == c,
    ensures
        index_of(s, c) == k,
    decreases s.len(),
{
    if s.len() > 0 && k > 0 {
        lemma_index_of(s.drop_first(), c, k - 1);
    }
}

proof fn lemma_first_digit(s: Seq<char>, k: int)
    requires
        0 <= k <= s.len(),
        forall|j: int| 0 <= j < k ==> !is_digit(#[trigger] s[j]),
        k == s.len() || is_digit(s[k]),
    ensures
        first_digit(s) == k,
    decreases s.len(),
{
    if s.len() > 0 && k > 0 {
        assert(!is_digit(s[0]));
        assert forall|j: int| 0 <= j < k - 1 implies !is_digit(#[trigger] s.drop_first()[j]) by {
            assert(s.drop_first()[j] == s[j + 1]);
        }
        lemma_first_digit(s.drop_first(), k - 1);
    }
}

proof fn lemma_digit_run(s: Seq<char>, k: int)
    requires
        0 <= k <= s.len(),
        forall|j: int| 0 <= j < k ==> is_digit(#[trigger] s[j]),
        k == s.len() || !is_digit(s[k]),
    ensures
        digit_run(s) == k,
    decreases s.len(),
{
    if s.len() > 0 && k > 0 {
        assert(is_digit(s[0]));
        assert forall|j: int| 0 <= j < k - 1 implies is_digit(#[trigger] s.drop_first()[j]) by {
            assert(s.drop_first()[j] == s[j + 1]);
        }
        lemma_digit_run(s.drop_first(), k - 1);
    }
}

/// Position of the first `c` in `s` at or after `from`, or the length of `s`.
pub fn find_char(s: &Vec<char>, from: usize, c: char) -> (r: usize)
    requires
        from <= s@.len(),
    ensures
        r == from + index_of(s@.subrange(from as int, s@.len() as int), c),
        from <= r <= s@.len(),
{
    let mut i = from;
    while i < s.len() && s[i] != c
        invariant
            from <= i <= s@.len(),
            forall|j: int| from <= j < i ==> s@[j] != c,
        decreases s@.len() - i,
    {
        i = i + 1;
    }
    proof {
        lemma_index_of(s@.subrange(from as int, s@.len() as int), c, i - from);
    }
    i
}

/// Position of the first digit of `s` at or after `from`, or the length of `s`.
pub fn find_digit(s: &Vec<char>, from: usize) -> (r: usize)
    requires
        from <= s@.len(),
    ensures
        r == from + first_digit(s@.subrange(from as int, s@.len() as int)),
        from <= r <= s@.len(),
{
    let mut i = from;
    while i < s.len() && !('0' <= s[i] && s[i] <= '9')
        invariant
            from <= i <= s@.len(),
            forall|j: int| from <= j < i ==> !is_digit(#[trigger] s@[j]),
        decreases s@.len() - i,
    {
        i = i + 1;
    }
    proof {
        let sub = s@.subrange(from as int, s@.len() as int);
        assert forall|j: int| 0 <= j < i - from implies !is_digit(#[trigger] sub[j]) by {
            assert(sub[j] == s@[from + j]);
        }
        lemma_first_digit(sub, i - from);
    }
    i
}

/// Position just after the run of digits of `s` that starts at `from`.
pub fn skip_digits(s: &Vec<char>, from: usize) -> (r: usize)
    requires
        from <= s@.len(),
    ensures
        r == from + digit_run(s@.subrange(from as int, s@.len() as int)),
        from <= r <= s@.len(),
{
    let mut i = from;
    while i < s.len() && '0' <= s[i] && s[i] <= '9'
        invariant
            from <= i <= s@.len(),
            forall|j: int| from <= j < i ==> is_digit(#[trigger] s@[j]),
        decreases s@.len() - i,
    {
        i = i + 1;
    }
    proof {
        let sub = s@.subrange(from as int, s@.len() as int);
        assert forall|j: int| 0 <= j < i - from implies is_digit(#[trigger] sub[j]) by {
            assert(sub[j] == s@[from + j]);
        }
        lemma_digit_run(sub, i - from);
    }
    i
}

/// Unicode `White_Space`, which `str::trim` removes.
pub open spec fn is_white_space(c: char) -> bool {
    ('\u{9}' <= c && c <= '\u{d}') || c == ' ' || c == '\u{85}' || c == '\u{a0}' || c == '\u{1680}' || ('\u{2000}'
        <= c && c <= '\u{200a}') || c == '\u{2028}' || c == '\u{2029}' || c == '\u{202f}' || c == '\u{205f}' || c
        == '\u{3000}'
}

/// `s` without leading and trailing white space.
pub open spec fn trimmed(s: Seq<char>) -> Seq<char> {
    if exists|i: int| 0 <= i < s.len() && !is_white_space(#[trigger] s[i]) {
        let a = choose|a: int|
            0 <= a < s.len() && !is_white_space(s[a]) && forall|j: int| 0 <= j < a ==> is_white_space(#[trigger] s[j]);
        let b = choose|b: int|
            0 <= b < s.len() && !is_white_space(s[b]) && forall|j: int| b < j < s.len() ==> is_white_space(#[trigger] s[j]);
        s.subrange(a, b + 1)
    } else {
        Seq::empty()
    }
}

/// The value that `u32::from_str` reads: an optional `+`, then one or more
/// digits, worth at most `u32::MAX`.
pub open spec fn std_u32_value(s: Seq<char>) -> Option<u32> {
    let body = if s.len() > 0 && s[0] == '+' { s.drop_first() } else { s };
    if body.len() > 0 && all_digits(body) && digits_value(body) <= u32::MAX {
        Some(digits_value(body) as u32)
    } else {
        None
    }
}

/// Relies on `str::trim`, which removes leading and trailing characters of
/// the Unicode `White_Space` property.
#[verifier::external_body]
pub(crate) fn trim(s: &str) -> (r: &str)
    ensures
        r@ == trimmed(s@),
{
    s.trim()
}

/// Relies on `u32::from_str`, which accepts an optional `+` and then decimal
/// digits whose value fits in a `u32`, and nothing else.
#[verifier::external_body]
pub(crate) fn parse_u32(s: &str) -> (r: Option<u32>)
    ensures
        r == std_u32_value(s@),
{
    s.parse::<u32>().ok()
}

/// The characters `s[from..to]`.
pub fn slice(s: &Vec<char>, from: usize, to: usize) -> (r: Vec<char>)
    requires
        from <= to <= s@.len(),
    ensures
        r@ == s@.subrange(from as int, to as int),
{
    let mut r: Vec<char> = Vec::with_capacity(to - from);
    let mut i = from;
    while i < to
        invariant
            from <= i <= to <= s@.len(),
            r@ == s@.subrange(from as int, i as int),
        decreases to - i,
    {
        r.push(s[i]);
        i = i + 1;
        assert(r@ =~= s@.subrange(from as int, i as int));
    }
    r
}

/// The first position at which `p` occurs in `s`, when it occurs.
pub open spec fn first_occurrence(s: Seq<char>, p: Seq<char>) -> int {
    choose|i: int| occurs_at(s, p, i) && forall|j: int| 0 <= j < i ==> !#[trigger] occurs_at(s, p, j)
}

/// A first occurrence found by search is the one `first_occurrence` names.
pub proof fn lemma_first_occurrence(s: Seq<char>, p: Seq<char>, i: int)
    requires
        occurs_at(s, p, i),
        forall|j: int| 0 <= j < i ==> !#[trigger] occurs_at(s, p, j),
    ensures
        first_occurrence(s, p) == i,
{
    let k = first_occurrence(s, p);
    assert(occurs_at(s, p, k) && forall|j: int| 0 <= j < k ==> !#[trigger] occurs_at(s, p, j));
    if k < i {
        assert(!occurs_at(s, p, k));
    }
    if i < k {
        assert(!occurs_at(s, p, i));
    }
}

/// A string of at most four digits is worth less than ten thousand.
pub proof fn lemma_short_digits_bound(s: Seq<char>)
    requires
        all_digits(s),
        s.len() <= 4,
    ensures
        digits_value(s) < 10000,
        s.len() <= 2 ==> digits_value(s) < 100,
{
    lemma_digits_bound_text(s);
    reveal_with_fuel(pow10, 5);
}

/// A string of `n` digits is worth less than ten to the `n`.
pub proof fn lemma_digits_bound_text(s: Seq<char>)
    requires
        all_digits(s),
    ensures
        digits_value(s) < pow10(s.len()),
    decreases s.len(),
{
    if s.len() > 0 {
        assert(all_digits(s.drop_last())) by {
            assert forall|i: int| 0 <= i < s.drop_last().len() implies is_digit(#[trigger] s.drop_last()[i]) by {
                assert(s.drop_last()[i] == s[i]);
            }
        }
        lemma_digits_bound_text(s.drop_last());
        assert(is_digit(s[s.len() - 1]));
        let a = digits_value(s.drop_last());
        let d = digit_value(s.last());
        assert(a * 10 + d < pow10(s.len())) by (nonlinear_arith)
            requires
                a < pow10((s.len() - 1) as nat),
                d < 10,
                pow10(s.len()) == pow10((s.len() - 1) as nat) * 10,
        ;
    }
}

/// A digit's character reads back as that digit.
pub proof fn lemma_digit_char(d: nat)
    requires
        d < 10,
    ensures
        is_digit(digit_char(d)),
        digit_value(digit_char(d)) == d,
{
}

/// `v` written with `width` digits is all digits and reads back as `v`
/// modulo ten to the `width`.
pub proof fn lemma_padded_digits(v: nat, width: nat)
    ensures
        padded_digits(v, width).len() == width,
        all_digits(padded_digits(v, width)),
        digits_value(padded_digits(v, width)) == v % pow10(width),
    decreases width,
{
    if width == 0 {
        assert(v % 1 == 0);
    } else {
        let w1 = (width - 1) as nat;
        lemma_padded_digits(v / 10, w1);
        let p = padded_digits(v, width);
        let q = padded_digits(v / 10, w1);
        lemma_digit_char(v % 10);
        assert(p.drop_last() =~= q);
        assert forall|i: int| 0 <= i < p.len() implies is_digit(#[trigger] p[i]) by {
            if i < w1 {
                assert(p[i] == q[i]);
            }
        }
        lemma_pow10_positive(w1);
        vstd::arithmetic::div_mod::lemma_mod_breakdown(v as int, 10, pow10(w1) as int);
        assert(pow10(width) == pow10(w1) * 10);
        assert(10 * pow10(w1) == pow10(w1) * 10) by (nonlinear_arith);
    }
}

proof fn lemma_pow10_positive(n: nat)
    ensures
        pow10(n) > 0,
    decreases n,
{
    if n > 0 {
        lemma_pow10_positive((n - 1) as nat);
    }
}

} // verus!
