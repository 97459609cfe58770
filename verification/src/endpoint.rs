//! The structured network endpoint: an IPv4 address and a port.
//!
//! The wire protocol carries endpoints as text ("a.b.c.d:port"); everything
//! inside the library works on this structured form, rendered and parsed at
//! the boundary by the verified functions below.

use vstd::prelude::*;

verus! {

/// A peer's full socket endpoint. Two instances on one host differ only by
/// port, so the port is part of a peer's identity everywhere.
#[derive(PartialEq, Eq, Structural, Clone, Copy, Hash, Debug)]
pub struct Endpoint {
    pub ip0: u8,
    pub ip1: u8,
    pub ip2: u8,
    pub ip3: u8,
    pub port: u16,
}

/// The character for a single decimal digit.
pub open spec fn digit_char(d: nat) -> char {
    if d == 0 {
        '0'
    } else if d == 1 {
        '1'
    } else if d == 2 {
        '2'
    } else if d == 3 {
        '3'
    } else if d == 4 {
        '4'
    } else if d == 5 {
        '5'
    } else if d == 6 {
        '6'
    } else if d == 7 {
        '7'
    } else if d == 8 {
        '8'
    } else {
        '9'
    }
}

/// Decimal rendering of `n`, most significant digit first, no leading zeros.
pub open spec fn dec_digits(n: nat) -> Seq<char>
    decreases n,
{
    if n < 10 {
        seq![digit_char(n)]
    } else {
        dec_digits(n / 10).push(digit_char(n % 10))
    }
}

/// The canonical text of an endpoint: "a.b.c.d:port".
pub open spec fn endpoint_chars(e: Endpoint) -> Seq<char> {
    dec_digits(e.ip0 as nat) + seq!['.'] + dec_digits(e.ip1 as nat) + seq!['.'] + dec_digits(
        e.ip2 as nat,
    ) + seq!['.'] + dec_digits(e.ip3 as nat) + seq![':'] + dec_digits(e.port as nat)
}

/// Relies on String::push: appends the given char to the end of the string.
pub assume_specification[ String::push ](s: &mut String, c: char)
    ensures
        final(s)@ == old(s)@.push(c),
;

/// The digit character of `d` (`d` below 10).
pub fn push_digit(s: &mut String, d: u8)
    requires
        d < 10,
    ensures
        final(s)@ == old(s)@.push(digit_char(d as nat)),
{
    let c: char = if d == 0 {
        '0'
    } else if d == 1 {
        '1'
    } else if d == 2 {
        '2'
    } else if d == 3 {
        '3'
    } else if d == 4 {
        '4'
    } else if d == 5 {
        '5'
    } else if d == 6 {
        '6'
    } else if d == 7 {
        '7'
    } else if d == 8 {
        '8'
    } else {
        '9'
    };
    s.push(c);
}

/// Appends the decimal rendering of `n` to `s`.
pub fn push_decimal(s: &mut String, n: u32)
    ensures
        final(s)@ == old(s)@ + dec_digits(n as nat),
    decreases n,
{
    if n < 10 {
        push_digit(s, n as u8);
        proof {
            assert(s@ =~= old(s)@ + dec_digits(n as nat));
        }
    } else {
        push_decimal(s, n / 10);
        push_digit(s, (n % 10) as u8);
        proof {
            assert(s@ =~= old(s)@ + dec_digits(n as nat));
        }
    }
}

/// Whether `c` is a decimal digit.
pub open spec fn is_digit(c: char) -> bool {
    48 <= c as u32 && c as u32 <= 57
}

/// The value of a decimal digit character.
pub open spec fn digit_val(c: char) -> nat {
    (c as u32 - 48) as nat
}

/// Length of the run of digits in `s` starting at `i`.
pub open spec fn digit_run_len(s: Seq<char>, i: int) -> int
    decreases s.len() - i,
{
    if 0 <= i < s.len() && is_digit(s[i]) {
        1 + digit_run_len(s, i + 1)
    } else {
        0
    }
}

/// Value of the `n` digits of `s` starting at `i`.
pub open spec fn run_val(s: Seq<char>, i: int, n: int) -> nat
    decreases n,
{
    if n <= 0 {
        0
    } else {
        run_val(s, i, n - 1) * 10 + digit_val(s[i + n - 1])
    }
}

/// Reads one canonically written number at `i`: at least one digit, no
/// leading zero. Yields the value and the position after the digits.
pub open spec fn take_num(s: Seq<char>, i: int) -> Option<(nat, int)> {
    let n = digit_run_len(s, i);
    if n >= 1 && (n == 1 || s[i] != '0') {
        Some((run_val(s, i, n), i + n))
    } else {
        None
    }
}

/// Reads one number at `i` followed by the separator `sep`; yields the value
/// and the position after the separator.
pub open spec fn take_num_sep(s: Seq<char>, i: int, sep: char, max: nat) -> Option<(nat, int)> {
    match take_num(s, i) {
        Some((v, j)) => if v <= max && j < s.len() && s[j] == sep {
            Some((v, j + 1))
        } else {
            None
        },
        None => None,
    }
}

/// The parse of an endpoint's text form: exactly "a.b.c.d:port", each octet
/// and the port canonically written and in range, nothing trailing.
pub open spec fn parse_endpoint_chars(s: Seq<char>) -> Option<Endpoint> {
    match take_num_sep(s, 0, '.', 255) {
        Some((a, i1)) => match take_num_sep(s, i1, '.', 255) {
            Some((b, i2)) => match take_num_sep(s, i2, '.', 255) {
                Some((c, i3)) => match take_num_sep(s, i3, ':', 255) {
                    Some((d, i4)) => match take_num(s, i4) {
                        Some((p, j)) => if p <= 65535 && j == s.len() {
                            Some(
                                Endpoint {
                                    ip0: a as u8,
                                    ip1: b as u8,
                                    ip2: c as u8,
                                    ip3: d as u8,
                                    port: p as u16,
                                },
                            )
                        } else {
                            None
                        },
                        None => None,
                    },
                    None => None,
                },
                None => None,
            },
            None => None,
        },
        None => None,
    }
}

/// Renders an endpoint as its canonical "a.b.c.d:port" text.
pub fn endpoint_to_string(e: &Endpoint) -> (r: String)
    ensures
        r@ == endpoint_chars(*e),
{
    let mut s = String::new();
    push_decimal(&mut s, e.ip0 as u32);
    s.push('.');
    push_decimal(&mut s, e.ip1 as u32);
    s.push('.');
    push_decimal(&mut s, e.ip2 as u32);
    s.push('.');
    push_decimal(&mut s, e.ip3 as u32);
    s.push(':');
    push_decimal(&mut s, e.port as u32);
    proof {
        assert(s@ =~= endpoint_chars(*e));
    }
    s
}

/// 10 to the power `n`.
pub open spec fn pow10(n: nat) -> nat
    decreases n,
{
    if n == 0 {
        1
    } else {
        10 * pow10((n - 1) as nat)
    }
}

/// Every digit character carries its value; `digit_char` and `digit_val`
/// invert each other.
pub proof fn lemma_digit_char_val(d: nat)
    requires
        d < 10,
    ensures
        is_digit(digit_char(d)),
        digit_val(digit_char(d)) == d,
{
}

/// A canonically written digit run of length `n` has a value of at least
/// `pow10(n - 1)`.
pub proof fn lemma_run_val_lower(s: Seq<char>, i: int, n: int)
    requires
        n >= 1,
        0 <= i,
        i + n <= s.len(),
        forall|m: int| 0 <= m < n ==> is_digit(#[trigger] s[i + m]),
        s[i] != '0',
    ensures
        run_val(s, i, n) >= pow10((n - 1) as nat),
    decreases n,
{
    if n == 1 {
        assert(run_val(s, i, 1) == run_val(s, i, 0) * 10 + digit_val(s[i]));
        assert(is_digit(s[i + 0]));
        assert(digit_val(s[i]) >= 1) by {
            assert(s[i] as u32 != 48) by {
                if s[i] as u32 == 48 {
                    assert(s[i] == '0') by {
                        vstd::utf8::char_u32_cast(s[i], 48u32);
                        assert((48u32 as char) == '0');
                    }
                }
            }
        }
    } else {
        lemma_run_val_lower(s, i, n - 1);
        assert(run_val(s, i, n) == run_val(s, i, n - 1) * 10 + digit_val(s[i + n - 1]));
        assert(run_val(s, i, n - 1) * 10 >= pow10((n - 2) as nat) * 10) by (nonlinear_arith)
            requires
                run_val(s, i, n - 1) >= pow10((n - 2) as nat),
        ;
        assert(pow10((n - 1) as nat) == 10 * pow10((n - 2) as nat));
    }
}

/// A digit run of length `n` has a value below `pow10(n)`.
pub proof fn lemma_run_val_upper(s: Seq<char>, i: int, n: int)
    requires
        n >= 0,
        0 <= i,
        i + n <= s.len(),
        forall|m: int| 0 <= m < n ==> is_digit(#[trigger] s[i + m]),
    ensures
        run_val(s, i, n) < pow10(n as nat),
    decreases n,
{
    if n > 0 {
        lemma_run_val_upper(s, i, n - 1);
        assert(is_digit(s[i + n - 1]));
        assert(digit_val(s[i + n - 1]) <= 9);
        assert(run_val(s, i, n - 1) * 10 <= (pow10((n - 1) as nat) - 1) * 10) by (nonlinear_arith)
            requires
                run_val(s, i, n - 1) <= pow10((n - 1) as nat) - 1,
        ;
        assert(pow10(n as nat) == 10 * pow10((n - 1) as nat));
    }
}

/// A digit run bounded on the right (end of string or a non-digit) has
/// exactly the length of its digit segment.
pub proof fn lemma_digit_run_boundary(s: Seq<char>, i: int, k: int)
    requires
        0 <= i,
        i + k <= s.len(),
        k >= 0,
        forall|m: int| 0 <= m < k ==> is_digit(#[trigger] s[i + m]),
        i + k == s.len() || !is_digit(s[i + k]),
    ensures
        digit_run_len(s, i) == k,
    decreases k,
{
    if k == 0 {
    } else {
        assert(is_digit(s[i + 0]));
        assert forall|m: int| 0 <= m < k - 1 implies is_digit(#[trigger] s[(i + 1) + m]) by {
            assert(is_digit(s[i + (m + 1)]));
            assert((i + 1) + m == i + (m + 1));
        }
        lemma_digit_run_boundary(s, i + 1, k - 1);
    }
}

/// Reading back the digits of `dec_digits(v)` yields `v`.
pub proof fn lemma_run_val_inverse(s: Seq<char>, i: int, v: nat)
    requires
        0 <= i,
        i + dec_digits(v).len() <= s.len(),
        forall|m: int|
            0 <= m < dec_digits(v).len() ==> #[trigger] s[i + m] == dec_digits(v)[m],
    ensures
        run_val(s, i, dec_digits(v).len() as int) == v,
    decreases v,
{
    let n = dec_digits(v).len() as int;
    if v < 10 {
        assert(dec_digits(v) == seq![digit_char(v)]);
        assert(n == 1);
        assert(s[i + 0] == dec_digits(v)[0]);
        assert(s[i] == digit_char(v));
        lemma_digit_char_val(v);
        assert(run_val(s, i, 1) == run_val(s, i, 0) * 10 + digit_val(s[i]));
    } else {
        let head = dec_digits(v / 10);
        assert(dec_digits(v) == head.push(digit_char(v % 10)));
        assert(n == head.len() + 1);
        assert forall|m: int| 0 <= m < head.len() implies #[trigger] s[i + m] == head[m] by {
            assert(s[i + m] == dec_digits(v)[m]);
            assert(dec_digits(v)[m] == head[m]);
        }
        lemma_run_val_inverse(s, i, v / 10);
        assert(s[i + n - 1] == dec_digits(v)[n - 1]);
        assert(dec_digits(v)[n - 1] == digit_char(v % 10));
        lemma_digit_char_val(v % 10);
        assert(run_val(s, i, n) == run_val(s, i, n - 1) * 10 + digit_val(s[i + n - 1]));
        assert(run_val(s, i, n) == (v / 10) * 10 + v % 10);
    }
}

/// Every character of `dec_digits(v)` is a digit, and the first is not '0'
/// unless `v` itself is 0.
pub proof fn lemma_dec_digits_shape(v: nat)
    ensures
        dec_digits(v).len() >= 1,
        forall|m: int| 0 <= m < dec_digits(v).len() ==> is_digit(#[trigger] dec_digits(v)[m]),
        v >= 1 ==> dec_digits(v)[0] != '0',
    decreases v,
{
    if v < 10 {
        lemma_digit_char_val(v);
        if v >= 1 {
            assert(digit_val(dec_digits(v)[0]) == v);
            assert(digit_val('0') == 0);
        }
    } else {
        lemma_dec_digits_shape(v / 10);
        lemma_digit_char_val(v % 10);
        let head = dec_digits(v / 10);
        assert(dec_digits(v) == head.push(digit_char(v % 10)));
        assert(forall|m: int|
            0 <= m < head.len() ==> #[trigger] dec_digits(v)[m] == head[m]);
        assert(dec_digits(v)[0] == head[0]);
    }
}

/// Reading a number at a position where the canonical digits of `v` sit,
/// bounded on the right, yields exactly `v`.
pub proof fn lemma_take_num_at(s: Seq<char>, o: int, v: nat)
    requires
        0 <= o,
        o + dec_digits(v).len() <= s.len(),
        s.subrange(o, o + dec_digits(v).len()) == dec_digits(v),
        o + dec_digits(v).len() == s.len() || !is_digit(s[o + dec_digits(v).len()]),
    ensures
        take_num(s, o) == Some((v, o + dec_digits(v).len())),
{
    let dl = dec_digits(v).len() as int;
    lemma_dec_digits_shape(v);
    assert forall|m: int| 0 <= m < dl implies #[trigger] s[o + m] == dec_digits(v)[m] by {
        assert(s.subrange(o, o + dl)[m] == s[o + m]);
    }
    assert forall|m: int| 0 <= m < dl implies is_digit(#[trigger] s[o + m]) by {
        assert(dec_digits(v)[m] == s[o + m]);
    }
    lemma_digit_run_boundary(s, o, dl);
    lemma_run_val_inverse(s, o, v);
    if dl > 1 {
        assert(v >= 10);
        assert(s[o + 0] == dec_digits(v)[0]);
        assert(s[o] != '0');
    }
}

/// Rendering an endpoint and parsing the text back yields the endpoint: the
/// canonical text of an endpoint denotes exactly that endpoint.
pub proof fn lemma_endpoint_roundtrip(e: Endpoint)
    ensures
        parse_endpoint_chars(endpoint_chars(e)) == Some(e),
{
    let s = endpoint_chars(e);
    let d0 = dec_digits(e.ip0 as nat);
    let d1 = dec_digits(e.ip1 as nat);
    let d2 = dec_digits(e.ip2 as nat);
    let d3 = dec_digits(e.ip3 as nat);
    let dp = dec_digits(e.port as nat);
    let l0 = d0.len() as int;
    let l1 = d1.len() as int;
    let l2 = d2.len() as int;
    let l3 = d3.len() as int;
    let lp = dp.len() as int;
    let o1 = l0 + 1;
    let o2 = o1 + l1 + 1;
    let o3 = o2 + l2 + 1;
    let o4 = o3 + l3 + 1;
    assert(s.len() == o4 + lp);
    assert(s.subrange(0, l0) =~= d0);
    assert(s[l0] == '.');
    assert(!is_digit('.'));
    lemma_take_num_at(s, 0, e.ip0 as nat);
    assert(s.subrange(o1, o1 + l1) =~= d1);
    assert(s[o1 + l1] == '.');
    lemma_take_num_at(s, o1, e.ip1 as nat);
    assert(s.subrange(o2, o2 + l2) =~= d2);
    assert(s[o2 + l2] == '.');
    lemma_take_num_at(s, o2, e.ip2 as nat);
    assert(s.subrange(o3, o3 + l3) =~= d3);
    assert(s[o3 + l3] == ':');
    assert(!is_digit(':'));
    lemma_take_num_at(s, o3, e.ip3 as nat);
    assert(s.subrange(o4, o4 + lp) =~= dp);
    lemma_take_num_at(s, o4, e.port as nat);
    assert(take_num_sep(s, 0, '.', 255) == Some((e.ip0 as nat, o1)));
    assert(take_num_sep(s, o1, '.', 255) == Some((e.ip1 as nat, o2)));
    assert(take_num_sep(s, o2, '.', 255) == Some((e.ip2 as nat, o3)));
    assert(take_num_sep(s, o3, ':', 255) == Some((e.ip3 as nat, o4)));
    assert(take_num(s, o4) == Some((e.port as nat, s.len() as int)));
}

/// Whether `c` is a decimal digit (executable form).
pub fn is_digit_char(c: char) -> (r: bool)
    ensures
        r == is_digit(c),
{
    let u = c as u32;
    48 <= u && u <= 57
}

/// Reads one canonically written number at position `i` of `s`, refusing
/// values above `max`; yields the value and the position after the digits.
fn scan_number(s: &str, i: usize, max: u32) -> (r: Option<(u32, usize)>)
    requires
        i <= s@.len(),
        max <= 65535,
    ensures
        ({
            let t = take_num(s@, i as int);
            match r {
                Some((v, j)) => t == Some((v as nat, j as int)) && v <= max && i < j <= s@.len(),
                None => t is None || (t matches Some((tv, tj)) && tv > max),
            }
        }),
{
    let len = s.unicode_len();
    let mut k = i;
    while k < len && is_digit_char(s.get_char(k))
        invariant
            i <= k <= len,
            len == s@.len(),
            forall|m: int| i <= m < k ==> is_digit(#[trigger] s@[m]),
            digit_run_len(s@, i as int) == (k - i) + digit_run_len(s@, k as int),
        decreases len - k,
    {
        k = k + 1;
    }
    assert(digit_run_len(s@, k as int) == 0);
    let ghost n = digit_run_len(s@, i as int);
    assert(n == k - i);
    if k == i {
        return None;
    }
    if k - i > 1 && s.get_char(i) == '0' {
        return None;
    }
    proof {
        assert forall|m: int| 0 <= m < n implies is_digit(#[trigger] s@[i + m]) by {
            assert(is_digit(s@[i + m]));
        }
    }
    if k - i > 5 {
        proof {
            lemma_run_val_lower(s@, i as int, n);
            assert(pow10((n - 1) as nat) >= pow10(5)) by {
                lemma_pow10_mono(5, (n - 1) as nat);
            }
            lemma_pow10_five();
        }
        return None;
    }
    let mut v: u32 = 0;
    let mut m = i;
    while m < k
        invariant
            i <= m <= k,
            k <= len == s@.len(),
            k - i <= 5,
            forall|q: int| 0 <= q < n ==> is_digit(#[trigger] s@[i + q]),
            n == k - i,
            v == run_val(s@, i as int, m - i),
            v < 100000,
        decreases k - m,
    {
        proof {
            lemma_run_val_upper(s@, i as int, m + 1 - i);
            assert(pow10((m + 1 - i) as nat) <= pow10(5)) by {
                lemma_pow10_mono((m + 1 - i) as nat, 5);
            }
            lemma_pow10_five();
            assert(is_digit(s@[i + (m - i)]));
        }
        let c = s.get_char(m);
        let d = c as u32 - 48;
        v = v * 10 + d;
        m = m + 1;
    }
    if v <= max {
        Some((v, k))
    } else {
        None
    }
}

/// The first few powers of ten, written out.
pub proof fn lemma_pow10_five()
    ensures
        pow10(5) == 100000,
{
    assert(pow10(0) == 1);
    assert(pow10(1) == 10);
    assert(pow10(2) == 100);
    assert(pow10(3) == 1000);
    assert(pow10(4) == 10000);
    assert(pow10(5) == 100000);
}

/// `pow10` is monotone.
pub proof fn lemma_pow10_mono(a: nat, b: nat)
    requires
        a <= b,
    ensures
        pow10(a) <= pow10(b),
    decreases b,
{
    if a < b {
        lemma_pow10_mono(a, (b - 1) as nat);
    }
}

/// Parses the canonical "a.b.c.d:port" text of an endpoint; the result is
/// exactly what `parse_endpoint_chars` names.
pub fn parse_endpoint(s: &str) -> (r: Option<Endpoint>)
    ensures
        r == parse_endpoint_chars(s@),
{
    let len = s.unicode_len();
    let r0 = scan_number(s, 0, 255);
    let (a, i1) = match r0 {
        Some(p) => p,
        None => {
            return None;
        },
    };
    if i1 >= len || s.get_char(i1) != '.' {
        return None;
    }
    let r1 = scan_number(s, i1 + 1, 255);
    let (b, i2) = match r1 {
        Some(p) => p,
        None => {
            return None;
        },
    };
    if i2 >= len || s.get_char(i2) != '.' {
        return None;
    }
    let r2 = scan_number(s, i2 + 1, 255);
    let (c, i3) = match r2 {
        Some(p) => p,
        None => {
            return None;
        },
    };
    if i3 >= len || s.get_char(i3) != '.' {
        return None;
    }
    let r3 = scan_number(s, i3 + 1, 255);
    let (d, i4) = match r3 {
        Some(p) => p,
        None => {
            return None;
        },
    };
    if i4 >= len || s.get_char(i4) != ':' {
        return None;
    }
    let r4 = scan_number(s, i4 + 1, 65535);
    let (p, j) = match r4 {
        Some(q) => q,
        None => {
            return None;
        },
    };
    if j != len {
        return None;
    }
    proof {
        let sv = s@;
        assert(take_num_sep(sv, 0, '.', 255) == Some(((a as nat), i1 + 1 as int)));
        assert(take_num_sep(sv, i1 + 1 as int, '.', 255) == Some(((b as nat), i2 + 1 as int)));
        assert(take_num_sep(sv, i2 + 1 as int, '.', 255) == Some(((c as nat), i3 + 1 as int)));
        assert(take_num_sep(sv, i3 + 1 as int, ':', 255) == Some(((d as nat), i4 + 1 as int)));
        assert(take_num(sv, i4 + 1 as int) == Some(((p as nat), len as int)));
    }
    Some(
        Endpoint {
            ip0: a as u8,
            ip1: b as u8,
            ip2: c as u8,
            ip3: d as u8,
            port: p as u16,
        },
    )
}

} // verus!
