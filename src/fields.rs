//! Typed readings of a single text field: unsigned integers and floating-point
//! literals, stated over the characters of the field.

use vstd::prelude::*;
use vstd::string::*;

verus! {

/// The largest value an unsigned field may hold.
pub const UNSIGNED_MAX: u64 = 0xffff_ffff;

pub open spec fn is_dec_digit(c: char) -> bool {
    '0' <= c && c <= '9'
}

pub open spec fn is_hex_digit(c: char) -> bool {
    is_dec_digit(c) || ('a' <= c && c <= 'f') || ('A' <= c && c <= 'F')
}

pub open spec fn is_digit_in(c: char, radix: nat) -> bool {
    if radix == 16 {
        is_hex_digit(c)
    } else {
        is_dec_digit(c)
    }
}

pub open spec fn digit_value(c: char) -> nat {
    if is_dec_digit(c) {
        (c as nat - '0' as nat) as nat
    } else if 'a' <= c && c <= 'f' {
        (c as nat - 'a' as nat + 10) as nat
    } else {
        (c as nat - 'A' as nat + 10) as nat
    }
}

/// The number that a run of digits writes in the given radix.
pub open spec fn digits_value(s: Seq<char>, radix: nat) -> nat
    decreases s.len(),
{
    if s.len() == 0 {
        0
    } else {
        digits_value(s.drop_last(), radix) * radix + digit_value(s.last())
    }
}

pub open spec fn all_digits_in(s: Seq<char>, radix: nat) -> bool {
    forall|i: int| 0 <= i < s.len() ==> is_digit_in(#[trigger] s[i], radix)
}

pub open spec fn has_hex_prefix(s: Seq<char>) -> bool {
    s.len() >= 2 && s[0] == '0' && s[1] == 'x'
}

/// The radix of an unsigned field: hexadecimal after a `0x` prefix, else decimal.
pub open spec fn unsigned_radix(s: Seq<char>) -> nat {
    if has_hex_prefix(s) {
        16
    } else {
        10
    }
}

/// The digits of an unsigned field: what follows the prefix and an optional `+`.
pub open spec fn unsigned_digits(s: Seq<char>) -> Seq<char> {
    let body = if has_hex_prefix(s) {
        s.skip(2)
    } else {
        s
    };
    if body.len() > 0 && body[0] == '+' {
        body.skip(1)
    } else {
        body
    }
}

/// The value of an unsigned 32-bit field, or `None` when the text is not one.
pub open spec fn unsigned_of(s: Seq<char>) -> Option<u32> {
    let d = unsigned_digits(s);
    let radix = unsigned_radix(s);
    if d.len() > 0 && all_digits_in(d, radix) && digits_value(d, radix) <= UNSIGNED_MAX {
        Some(digits_value(d, radix) as u32)
    } else {
        None
    }
}

proof fn lemma_digits_value_grows(s: Seq<char>, radix: nat, i: int, j: int)
    requires
        0 <= i <= j <= s.len(),
        radix >= 1,
    ensures
        digits_value(s.take(i), radix) <= digits_value(s.take(j), radix),
    decreases j - i,
{
    if i < j {
        lemma_digits_value_grows(s, radix, i, j - 1);
        assert(s.take(j).drop_last() =~= s.take(j - 1));
        let v = digits_value(s.take(j - 1), radix);
        assert(v * radix >= v) by (nonlinear_arith)
            requires
                radix >= 1,
        ;
    }
}

/// The characters of a text, one by one.
pub fn chars_of(s: &str) -> (r: Vec<char>)
    ensures
        r@ == s@,
{
    let n = s.unicode_len();
    let mut r: Vec<char> = Vec::new();
    let mut i: usize = 0;
    while i < n
        invariant
            n == s@.len(),
            i <= n,
            r@ == s@.take(i as int),
        decreases n - i,
    {
        let c = s.get_char(i);
        r.push(c);
        i = i + 1;
        assert(r@ =~= s@.take(i as int));
    }
    assert(r@ =~= s@);
    r
}

/// Whether two texts hold the same characters.
pub fn same_text(a: &str, b: &str) -> (r: bool)
    ensures
        r == (a@ == b@),
{
    let x = chars_of(a);
    let y = chars_of(b);
    if x.len() != y.len() {
        return false;
    }
    let mut i: usize = 0;
    while i < x.len()
        invariant
            x@ == a@,
            y@ == b@,
            x.len() == y.len(),
            i <= x.len(),
            forall|j: int| 0 <= j < i ==> x@[j] == y@[j],
        decreases x.len() - i,
    {
        if x[i] != y[i] {
            return false;
        }
        i = i + 1;
    }
    assert(x@ =~= y@);
    true
}

fn digit_in(c: char, hex: bool) -> (r: Option<u64>)
    ensures
        r is Some == is_digit_in(c, if hex { 16 } else { 10 }),
        r is Some ==> r->0 == digit_value(c) && r->0 < 16,
{
    if '0' <= c && c <= '9' {
        Some((c as u64) - ('0' as u64))
    } else if hex && 'a' <= c && c <= 'f' {
        Some((c as u64) - ('a' as u64) + 10)
    } else if hex && 'A' <= c && c <= 'F' {
        Some((c as u64) - ('A' as u64) + 10)
    } else {
        None
    }
}

/// Reads an unsigned 32-bit field: decimal digits, or hexadecimal digits after
/// `0x`, either with an optional leading `+`.
pub fn parse_unsigned(s: &Vec<char>) -> (r: Option<u32>)
    ensures
        r == unsigned_of(s@),
{
    let hex = s.len() >= 2 && s[0] == '0' && s[1] == 'x';
    let mut start: usize = if hex {
        2
    } else {
        0
    };
    if start < s.len() && s[start] == '+' {
        start = start + 1;
    }
    let ghost d = unsigned_digits(s@);
    let ghost radix = unsigned_radix(s@);
    assert(d =~= s@.skip(start as int));
    if start == s.len() {
        return None;
    }
    let base: u64 = if hex {
        16
    } else {
        10
    };
    let mut acc: u64 = 0;
    let mut i: usize = start;
    while i < s.len()
        invariant
            start <= i <= s.len(),
            d == s@.skip(start as int),
            d == unsigned_digits(s@),
            radix == unsigned_radix(s@),
            radix == base,
            hex == has_hex_prefix(s@),
            acc <= UNSIGNED_MAX,
            acc == digits_value(d.take(i - start), radix),
            forall|j: int| 0 <= j < i - start ==> is_digit_in(#[trigger] d[j], radix),
        decreases s.len() - i,
    {
        let dv = digit_in(s[i], hex);
        match dv {
            None => {
                assert(d[i - start] == s@[i as int]);
                assert(!is_digit_in(d[i - start], radix));
                assert(!all_digits_in(d, radix));
                return None;
            },
            Some(v) => {
                let ghost k = i - start;
                assert(d.take(k + 1).drop_last() =~= d.take(k));
                assert(d[k] == s@[i as int]);
                let next = acc * base + v;
                assert(next == digits_value(d.take(k + 1), radix));
                if next > UNSIGNED_MAX {
                    proof {
                        lemma_digits_value_grows(d, radix, k + 1, d.len() as int);
                        assert(d.take(d.len() as int) =~= d);
                        assert(digits_value(d, radix) > UNSIGNED_MAX);
                    }
                    return None;
                }
                acc = next;
                i = i + 1;
            },
        }
    }
    assert(d.take(d.len() as int) =~= d);
    Some(acc as u32)
}

pub open spec fn is_sign(c: char) -> bool {
    c == '+' || c == '-'
}

/// `s` spells the lower-case word `w`, letters in either case.
pub open spec fn spells(s: Seq<char>, w: Seq<char>) -> bool {
    s.len() == w.len() && forall|i: int|
        0 <= i < s.len() ==> (#[trigger] s[i] == w[i] || ('A' <= s[i] <= 'Z' && s[i] as u32 + 32 == w[i] as u32))
}

pub open spec fn count_digits(m: Seq<char>) -> nat
    decreases m.len(),
{
    if m.len() == 0 {
        0
    } else {
        count_digits(m.drop_last()) + if is_dec_digit(m.last()) {
            1nat
        } else {
            0nat
        }
    }
}

pub open spec fn count_points(m: Seq<char>) -> nat
    decreases m.len(),
{
    if m.len() == 0 {
        0
    } else {
        count_points(m.drop_last()) + if m.last() == '.' {
            1nat
        } else {
            0nat
        }
    }
}

/// Digits with at most one decimal point, and at least one digit.
pub open spec fn mantissa_text(m: Seq<char>) -> bool {
    &&& forall|i: int| 0 <= i < m.len() ==> is_dec_digit(#[trigger] m[i]) || m[i] == '.'
    &&& count_points(m) <= 1
    &&& count_digits(m) >= 1
}

pub open spec fn is_exp_mark(c: char) -> bool {
    c == 'e' || c == 'E'
}

/// An exponent: `e` or `E`, an optional sign, and at least one digit.
pub open spec fn exponent_text(e: Seq<char>) -> bool {
    let t = e.skip(1);
    let d = if t.len() > 0 && is_sign(t[0]) {
        t.skip(1)
    } else {
        t
    };
    e.len() >= 1 && is_exp_mark(e[0]) && d.len() > 0 && all_digits_in(d, 10)
}

pub open spec fn number_text(s: Seq<char>) -> bool {
    mantissa_text(s) || exists|p: int|
        0 <= p < s.len() && mantissa_text(s.take(p)) && #[trigger] exponent_text(s.skip(p))
}

/// The text of a floating-point literal: an optional sign, then `inf`,
/// `infinity` or `nan` in any case, or a decimal number with an optional exponent.
pub open spec fn float_text(s: Seq<char>) -> bool {
    let u = if s.len() > 0 && is_sign(s[0]) {
        s.skip(1)
    } else {
        s
    };
    spells(u, seq!['i', 'n', 'f']) || spells(u, seq!['i', 'n', 'f', 'i', 'n', 'i', 't', 'y'])
        || spells(u, seq!['n', 'a', 'n']) || number_text(u)
}

fn spells_at(s: &Vec<char>, lo: usize, w: &Vec<char>) -> (r: bool)
    requires
        lo <= s.len(),
    ensures
        r == spells(s@.skip(lo as int), w@),
{
    let ghost u = s@.skip(lo as int);
    if s.len() - lo != w.len() {
        return false;
    }
    let mut i: usize = 0;
    while i < w.len()
        invariant
            u == s@.skip(lo as int),
            u.len() == w.len(),
            lo + w.len() == s.len(),
            i <= w.len(),
            forall|j: int| 0 <= j < i ==> (#[trigger] u[j] == w@[j] || ('A' <= u[j] <= 'Z' && u[j] as u32 + 32 == w@[j] as u32)),
        decreases w.len() - i,
    {
        let c = s[lo + i];
        assert(u[i as int] == c);
        if !(c == w[i] || ('A' <= c && c <= 'Z' && (c as u32) + 32 == w[i] as u32)) {
            return false;
        }
        i = i + 1;
    }
    true
}

fn mantissa_ok(s: &Vec<char>, lo: usize, hi: usize) -> (r: bool)
    requires
        lo <= hi <= s.len(),
    ensures
        r == mantissa_text(s@.subrange(lo as int, hi as int)),
{
    let ghost m = s@.subrange(lo as int, hi as int);
    let mut points: usize = 0;
    let mut digits: usize = 0;
    let mut i: usize = lo;
    while i < hi
        invariant
            lo <= i <= hi <= s.len(),
            m == s@.subrange(lo as int, hi as int),
            points as nat == count_points(m.take(i - lo)),
            digits as nat == count_digits(m.take(i - lo)),
            points <= 1,
            digits <= i - lo,
            forall|j: int| 0 <= j < i - lo ==> is_dec_digit(#[trigger] m[j]) || m[j] == '.',
        decreases hi - i,
    {
        let c = s[i];
        let ghost k = i - lo;
        assert(m[k] == c);
        assert(m.take(k + 1).drop_last() =~= m.take(k));
        if '0' <= c && c <= '9' {
            digits = digits + 1;
        } else if c == '.' {
            if points == 1 {
                proof {
                    lemma_points_grow(m, k + 1, m.len() as int);
                    assert(m.take(m.len() as int) =~= m);
                }
                return false;
            }
            points = points + 1;
        } else {
            return false;
        }
        i = i + 1;
    }
    assert(m.take(m.len() as int) =~= m);
    digits >= 1
}

proof fn lemma_points_grow(m: Seq<char>, i: int, j: int)
    requires
        0 <= i <= j <= m.len(),
    ensures
        count_points(m.take(i)) <= count_points(m.take(j)),
    decreases j - i,
{
    if i < j {
        lemma_points_grow(m, i, j - 1);
        assert(m.take(j).drop_last() =~= m.take(j - 1));
    }
}

fn exponent_ok(s: &Vec<char>, lo: usize) -> (r: bool)
    requires
        lo < s.len(),
    ensures
        r == exponent_text(s@.skip(lo as int)),
{
    let ghost e = s@.skip(lo as int);
    if !(s[lo] == 'e' || s[lo] == 'E') {
        return false;
    }
    let mut start: usize = lo + 1;
    if start < s.len() && (s[start] == '+' || s[start] == '-') {
        start = start + 1;
    }
    let ghost t = e.skip(1);
    assert(t =~= s@.skip(lo + 1));
    let ghost d = if t.len() > 0 && is_sign(t[0]) {
        t.skip(1)
    } else {
        t
    };
    assert(d =~= s@.skip(start as int));
    if start == s.len() {
        assert(d.len() == 0);
        return false;
    }
    assert(exponent_text(e) == (d.len() > 0 && all_digits_in(d, 10)));
    let mut i: usize = start;
    while i < s.len()
        invariant
            start <= i <= s.len(),
            d == s@.skip(start as int),
            exponent_text(e) == (d.len() > 0 && all_digits_in(d, 10)),
            e == s@.skip(lo as int),
            forall|j: int| 0 <= j < i - start ==> is_digit_in(#[trigger] d[j], 10),
        decreases s.len() - i,
    {
        let c = s[i];
        assert(d[i - start] == c);
        if !('0' <= c && c <= '9') {
            assert(!is_digit_in(d[i - start], 10));
            assert(!all_digits_in(d, 10));
            return false;
        }
        i = i + 1;
    }
    true
}

fn number_ok(s: &Vec<char>, lo: usize) -> (r: bool)
    requires
        lo <= s.len(),
    ensures
        r == number_text(s@.skip(lo as int)),
{
    let ghost u = s@.skip(lo as int);
    let mut j: usize = lo;
    while j < s.len() && !(s[j] == 'e' || s[j] == 'E')
        invariant
            lo <= j <= s.len(),
            forall|q: int| lo <= q < j ==> !is_exp_mark(#[trigger] s@[q]),
        decreases s.len() - j,
    {
        j = j + 1;
    }
    if j == s.len() {
        let r = mantissa_ok(s, lo, j);
        assert(s@.subrange(lo as int, j as int) =~= u);
        assert forall|p: int| 0 <= p < u.len() implies !#[trigger] exponent_text(u.skip(p)) by {
            assert(u.skip(p)[0] == s@[lo + p]);
        }
        r
    } else {
        let ghost k = j - lo;
        assert(u[k] == s@[j as int]);
        assert(!mantissa_text(u));
        let r = mantissa_ok(s, lo, j) && exponent_ok(s, j);
        assert(s@.subrange(lo as int, j as int) =~= u.take(k));
        assert(s@.skip(j as int) =~= u.skip(k));
        if !r {
            assert forall|p: int|
                0 <= p < u.len() && mantissa_text(u.take(p)) implies !#[trigger] exponent_text(
                u.skip(p),
            ) by {
                if p < k {
                    assert(u.skip(p)[0] == s@[lo + p]);
                } else if p > k {
                    assert(u.take(p)[k] == u[k]);
                }
            }
        }
        r
    }
}

/// Whether a field reads as a floating-point number.
pub fn is_float_text(s: &Vec<char>) -> (r: bool)
    ensures
        r == float_text(s@),
{
    let lo: usize = if s.len() > 0 && (s[0] == '+' || s[0] == '-') {
        1
    } else {
        0
    };
    assert(lo == 0 ==> s@.skip(0) =~= s@);
    let inf = vec!['i', 'n', 'f'];
    let infinity = vec!['i', 'n', 'f', 'i', 'n', 'i', 't', 'y'];
    let nan = vec!['n', 'a', 'n'];
    assert(inf@ =~= seq!['i', 'n', 'f']);
    assert(infinity@ =~= seq!['i', 'n', 'f', 'i', 'n', 'i', 't', 'y']);
    assert(nan@ =~= seq!['n', 'a', 'n']);
    spells_at(s, lo, &inf) || spells_at(s, lo, &infinity) || spells_at(s, lo, &nan) || number_ok(
        s,
        lo,
    )
}

} // verus!
