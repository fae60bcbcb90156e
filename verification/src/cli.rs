//! Parsing of command-line values and the capture-resolution presets.

use vstd::prelude::*;
use crate::capture::{MonitorSelect, first_index, lemma_first_index};
use vstd::arithmetic::div_mod::{
    lemma_fundamental_div_mod,
    lemma_mod_multiples_basic,
    lemma_div_multiples_vanish,
    lemma_mod_self_0,
};

verus! {

/// Whether `c` is an ASCII decimal digit.
pub open spec fn is_digit(c: char) -> bool {
    '0' <= c && c <= '9'
}

/// Value of a string of decimal digits.
pub open spec fn digits_value(s: Seq<char>) -> int
    decreases s.len(),
{
    if s.len() == 0 {
        0
    } else {
        digits_value(s.drop_last()) * 10 + (s.last() as int - '0' as int)
    }
}

/// `s` without its leading `+` sign, if it has one.
pub open spec fn unsigned_part(s: Seq<char>) -> Seq<char> {
    if s.len() > 0 && s[0] == '+' {
        s.drop_first()
    } else {
        s
    }
}

/// The `usize` written in `s` in decimal: an optional `+` followed by one or
/// more digits, whose value fits in a `usize`. `None` for anything else.
pub open spec fn decimal_usize(s: Seq<char>) -> Option<usize> {
    let d = unsigned_part(s);
    if d.len() > 0 && (forall|i: int| 0 <= i < d.len() ==> is_digit(#[trigger] d[i])) && digits_value(d)
        <= usize::MAX {
        Some(digits_value(d) as usize)
    } else {
        None
    }
}

proof fn lemma_digits_value_prefix(d: Seq<char>, k: int)
    requires
        0 <= k <= d.len(),
        forall|i: int| 0 <= i < d.len() ==> is_digit(#[trigger] d[i]),
    ensures
        digits_value(d.take(k)) <= digits_value(d),
        0 <= digits_value(d.take(k)),
    decreases d.len(),
{
    if k == d.len() {
        assert(d.take(k) =~= d);
        if d.len() > 0 {
            lemma_digits_value_prefix(d.drop_last(), 0);
            assert(d.drop_last().take(0) =~= Seq::<char>::empty());
        }
    } else {
        let e = d.drop_last();
        assert forall|i: int| 0 <= i < e.len() implies is_digit(#[trigger] e[i]) by {
            assert(e[i] == d[i]);
        }
        lemma_digits_value_prefix(e, k);
        assert(e.take(k) =~= d.take(k));
        lemma_digits_value_prefix(e, e.len() as int);
        assert(e.take(e.len() as int) =~= e);
        assert(is_digit(d.last()));
    }
}

/// Reads a decimal `usize` as `<usize as FromStr>::from_str` does: an optional
/// `+` followed by one or more digits, whose value fits in a `usize`.
fn parse_usize(s: &str) -> (r: Option<usize>)
    ensures
        r == decimal_usize(s@),
{
    let n: usize = s.unicode_len();
    let mut start: usize = 0;
    if n > 0 && s.get_char(0) == '+' {
        start = 1;
    }
    let ghost d = unsigned_part(s@);
    assert(d =~= s@.subrange(start as int, n as int));
    if start == n {
        return None;
    }
    let mut v: usize = 0;
    let mut i: usize = start;
    assert(s@.subrange(start as int, start as int) =~= Seq::<char>::empty());
    while i < n
        invariant
            n == s@.len(),
            start <= i <= n,
            d == s@.subrange(start as int, n as int),
            d == unsigned_part(s@),
            d.len() > 0,
            v == digits_value(s@.subrange(start as int, i as int)),
            forall|k: int| start <= k < i ==> is_digit(#[trigger] s@[k]),
        decreases n - i,
    {
        let c = s.get_char(i);
        assert(d[i - start] == s@[i as int]);
        if !('0' <= c && c <= '9') {
            assert(!is_digit(d[i - start]));
            assert(!(forall|k: int| 0 <= k < d.len() ==> is_digit(#[trigger] d[k])));
            return None;
        }
        let digit: usize = ((c as u32) - ('0' as u32)) as usize;
        assert(s@.subrange(start as int, i + 1).drop_last() =~= s@.subrange(start as int, i as int));
        let ghost next = v * 10 + digit;
        assert(s@.subrange(start as int, i + 1).last() == c);
        assert(digit == c as int - '0' as int);
        assert(next == digits_value(s@.subrange(start as int, i + 1)));
        let w = match v.checked_mul(10) {
            Some(t) => t.checked_add(digit),
            None => None,
        };
        match w {
            Some(t) => {
                v = t;
            },
            None => {
                proof {
                    let j = i + 1;
                    assert(next > usize::MAX);
                    if forall|k: int| 0 <= k < d.len() ==> is_digit(#[trigger] d[k]) {
                        lemma_digits_value_prefix(d, j - start);
                        assert(d.take(j - start) =~= s@.subrange(start as int, j as int));
                        assert(digits_value(d) > usize::MAX);
                    }
                }
                return None;
            },
        }
        i = i + 1;
    }
    assert(s@.subrange(start as int, i as int) =~= d);
    Some(v)
}

/// The monitor selection that a `--monitor` value designates: none means the
/// primary monitor, a decimal number an index, anything else a name.
pub fn monitor_select(m: &Option<String>) -> (sel: MonitorSelect)
    ensures
        sel == (match *m {
            None => MonitorSelect::Primary,
            Some(s) => match decimal_usize(s@) {
                Some(i) => MonitorSelect::Index(i),
                None => MonitorSelect::Name(s),
            },
        }),
{
    match m {
        None => MonitorSelect::Primary,
        Some(s) => match parse_usize(s.as_str()) {
            Some(i) => MonitorSelect::Index(i),
            None => MonitorSelect::Name(s.clone()),
        },
    }
}

/// Whether `c` has the Unicode `White_Space` property.
pub open spec fn is_white_space(c: char) -> bool {
    ||| '\u{9}' <= c && c <= '\u{d}'
    ||| c == ' '
    ||| c == '\u{85}'
    ||| c == '\u{a0}'
    ||| c == '\u{1680}'
    ||| '\u{2000}' <= c && c <= '\u{200a}'
    ||| c == '\u{2028}'
    ||| c == '\u{2029}'
    ||| c == '\u{202f}'
    ||| c == '\u{205f}'
    ||| c == '\u{3000}'
}

/// `s` without its leading white space.
pub open spec fn trim_start_spec(s: Seq<char>) -> Seq<char>
    decreases s.len(),
{
    if s.len() > 0 && is_white_space(s[0]) {
        trim_start_spec(s.drop_first())
    } else {
        s
    }
}

/// `s` without its trailing white space.
pub open spec fn trim_end_spec(s: Seq<char>) -> Seq<char>
    decreases s.len(),
{
    if s.len() > 0 && is_white_space(s.last()) {
        trim_end_spec(s.drop_last())
    } else {
        s
    }
}

/// `s` without leading and trailing white space.
pub open spec fn trim_spec(s: Seq<char>) -> Seq<char> {
    trim_end_spec(trim_start_spec(s))
}

fn white_space(c: char) -> (r: bool)
    ensures
        r == is_white_space(c),
{
    ('\u{9}' <= c && c <= '\u{d}') || c == ' ' || c == '\u{85}' || c == '\u{a0}' || c == '\u{1680}'
        || ('\u{2000}' <= c && c <= '\u{200a}') || c == '\u{2028}' || c == '\u{2029}' || c == '\u{202f}'
        || c == '\u{205f}' || c == '\u{3000}'
}

/// Removes leading and trailing white space, as `str::trim` does (white space
/// being the Unicode `White_Space` property).
fn trim(s: &str) -> (r: &str)
    ensures
        r@ == trim_spec(s@),
{
    let n: usize = s.unicode_len();
    let mut i: usize = 0;
    assert(s@.skip(0) =~= s@);
    while i < n && white_space(s.get_char(i))
        invariant
            n == s@.len(),
            i <= n,
            trim_start_spec(s@) == trim_start_spec(s@.skip(i as int)),
        decreases n - i,
    {
        assert(s@.skip(i as int).drop_first() =~= s@.skip(i + 1));
        i = i + 1;
    }
    assert(trim_start_spec(s@) == s@.subrange(i as int, n as int)) by {
        assert(s@.skip(i as int) =~= s@.subrange(i as int, n as int));
    }
    let mut j: usize = n;
    while j > i && white_space(s.get_char(j - 1))
        invariant
            n == s@.len(),
            i <= j <= n,
            trim_spec(s@) == trim_end_spec(s@.subrange(i as int, j as int)),
        decreases j - i,
    {
        assert(s@.subrange(i as int, j as int).drop_last() =~= s@.subrange(i as int, j - 1));
        j = j - 1;
    }
    s.substring_char(i, j)
}

/// Whether `c` separates width from height in a resolution (`x` or `X`).
pub open spec fn sep_pred() -> spec_fn(char) -> bool {
    |c: char| c == 'x' || c == 'X'
}

/// Splits `s` at its first `x` or `X`.
fn split_dimensions(s: &str) -> (r: Option<(&str, &str)>)
    ensures
        match first_index(s@, sep_pred()) {
            None => r is None,
            Some(i) => r matches Some((a, b)) && a@ == s@.take(i) && b@ == s@.skip(i + 1),
        },
{
    let n: usize = s.unicode_len();
    let ghost pred = sep_pred();
    let mut i: usize = 0;
    while i < n
        invariant
            n == s@.len(),
            i <= n,
            pred == sep_pred(),
            forall|j: int| 0 <= j < i ==> !pred(#[trigger] s@[j]),
        decreases n - i,
    {
        let c = s.get_char(i);
        if c == 'x' || c == 'X' {
            proof {
                assert(pred(s@[i as int]));
                lemma_first_index(s@, pred, i as int);
            }
            let a = s.substring_char(0, i);
            let b = s.substring_char(i + 1, n);
            assert(a@ =~= s@.take(i as int));
            assert(b@ =~= s@.skip(i + 1));
            return Some((a, b));
        }
        i = i + 1;
    }
    proof {
        lemma_first_index(s@, pred, i as int);
    }
    None
}

/// `prefix`, then `s`, then a closing quote.
fn quoted(prefix: &str, s: &str) -> (e: String)
    ensures
        e@ == prefix@ + s@ + "'"@,
{
    let mut e = prefix.to_owned();
    e.append(s);
    e.append("'");
    e
}

/// What `parse_resolution` gives for the text `s`: the width and height on
/// either side of the first `x` or `X`, each trimmed of white space and read
/// as a decimal number, both non-zero; else the error message.
pub open spec fn resolution_spec(s: Seq<char>) -> Result<(usize, usize), Seq<char>> {
    match first_index(s, sep_pred()) {
        None => Err("expected WxH, got '"@ + s + "'"@),
        Some(i) => match decimal_usize(trim_spec(s.take(i))) {
            None => Err("invalid width in '"@ + s + "'"@),
            Some(w) => match decimal_usize(trim_spec(s.skip(i + 1))) {
                None => Err("invalid height in '"@ + s + "'"@),
                Some(h) => if w == 0 || h == 0 {
                    Err("width and height must be > 0"@)
                } else {
                    Ok((w, h))
                },
            },
        },
    }
}

/// Parses a capture resolution written `WxH` (for example `80x45`).
pub fn parse_resolution(s: &str) -> (r: Result<(usize, usize), String>)
    ensures
        match r {
            Ok(p) => resolution_spec(s@) == Ok::<(usize, usize), Seq<char>>(p),
            Err(e) => resolution_spec(s@) == Err::<(usize, usize), Seq<char>>(e@),
        },
{
    let (w, h) = match split_dimensions(s) {
        Some(p) => p,
        None => {
            return Err(quoted("expected WxH, got '", s));
        },
    };
    let w = match parse_usize(trim(w)) {
        Some(v) => v,
        None => {
            return Err(quoted("invalid width in '", s));
        },
    };
    let h = match parse_usize(trim(h)) {
        Some(v) => v,
        None => {
            return Err(quoted("invalid height in '", s));
        },
    };
    if w == 0 || h == 0 {
        return Err("width and height must be > 0".to_owned());
    }
    Ok((w, h))
}


/// The character of decimal digit `d` (0 to 9).
pub open spec fn digit_char(d: nat) -> char {
    ('0' as int + d) as char
}

/// The decimal text of `n`, as `format!("{}", n)` writes it: no sign, no
/// leading zeros, at least one digit.
pub open spec fn decimal_digits(n: nat) -> Seq<char>
    decreases n,
{
    if n < 10 {
        seq![digit_char(n)]
    } else {
        decimal_digits(n / 10).push(digit_char(n % 10))
    }
}

/// Whether every character of `s` is white space.
pub open spec fn all_white_space(s: Seq<char>) -> bool {
    forall|i: int| 0 <= i < s.len() ==> #[trigger] is_white_space(s[i])
}

proof fn lemma_digit_char(d: nat)
    requires
        d < 10,
    ensures
        is_digit(digit_char(d)),
        digit_char(d) as int - '0' as int == d,
        !is_white_space(digit_char(d)),
        digit_char(d) != '+' && digit_char(d) != 'x' && digit_char(d) != 'X',
{
}

proof fn lemma_decimal_digits(n: nat)
    ensures
        decimal_digits(n).len() >= 1,
        forall|i: int| 0 <= i < decimal_digits(n).len() ==> #[trigger] is_digit(decimal_digits(n)[i]),
        forall|i: int| 0 <= i < decimal_digits(n).len() ==> !is_white_space(#[trigger] decimal_digits(n)[i]),
        forall|i: int|
            0 <= i < decimal_digits(n).len() ==> #[trigger] decimal_digits(n)[i] != 'x'
                && decimal_digits(n)[i] != 'X' && decimal_digits(n)[i] != '+',
        digits_value(decimal_digits(n)) == n,
    decreases n,
{
    if n < 10 {
        lemma_digit_char(n);
        let d = decimal_digits(n);
        assert(d.drop_last() =~= Seq::<char>::empty());
        assert(digits_value(d) == digits_value(d.drop_last()) * 10 + (d.last() as int - '0' as int));
        assert(digits_value(Seq::<char>::empty()) == 0);
    } else {
        lemma_decimal_digits(n / 10);
        lemma_digit_char(n % 10);
        let d = decimal_digits(n);
        assert(d.drop_last() =~= decimal_digits(n / 10));
        assert(d.last() == digit_char(n % 10));
        assert forall|i: int| 0 <= i < d.len() implies #[trigger] is_digit(d[i]) && !is_white_space(d[i])
            && d[i] != 'x' && d[i] != 'X' && d[i] != '+' by {
            if i < d.len() - 1 {
                assert(d[i] == decimal_digits(n / 10)[i]);
            }
        }
        assert(digits_value(d) == digits_value(d.drop_last()) * 10 + (d.last() as int - '0' as int));
        assert((n / 10) * 10 + n % 10 == n);
    }
}

proof fn lemma_trim_start(a: Seq<char>, rest: Seq<char>)
    requires
        all_white_space(a),
        rest.len() > 0,
        !is_white_space(rest[0]),
    ensures
        trim_start_spec(a + rest) == rest,
    decreases a.len(),
{
    if a.len() == 0 {
        assert(a + rest =~= rest);
    } else {
        assert((a + rest)[0] == a[0]);
        assert((a + rest).drop_first() =~= a.drop_first() + rest);
        assert forall|i: int| 0 <= i < a.drop_first().len() implies #[trigger] is_white_space(a.drop_first()[i]) by {
            assert(a.drop_first()[i] == a[i + 1]);
        }
        lemma_trim_start(a.drop_first(), rest);
    }
}

proof fn lemma_trim_end(rest: Seq<char>, b: Seq<char>)
    requires
        all_white_space(b),
        rest.len() > 0,
        !is_white_space(rest.last()),
    ensures
        trim_end_spec(rest + b) == rest,
    decreases b.len(),
{
    if b.len() == 0 {
        assert(rest + b =~= rest);
    } else {
        assert((rest + b).last() == b.last());
        assert((rest + b).drop_last() =~= rest + b.drop_last());
        assert forall|i: int| 0 <= i < b.drop_last().len() implies #[trigger] is_white_space(b.drop_last()[i]) by {
            assert(b.drop_last()[i] == b[i]);
        }
        lemma_trim_end(rest, b.drop_last());
    }
}

proof fn lemma_trim_number(a: Seq<char>, n: nat, b: Seq<char>)
    requires
        all_white_space(a),
        all_white_space(b),
    ensures
        trim_spec(a + decimal_digits(n) + b) == decimal_digits(n),
{
    let d = decimal_digits(n);
    lemma_decimal_digits(n);
    assert(a + d + b =~= a + (d + b));
    assert((d + b)[0] == d[0]);
    lemma_trim_start(a, d + b);
    lemma_trim_end(d, b);
}

/// Writing a non-zero width and height in decimal around an `x` or `X`, with
/// any white space around the numbers, reads back as that width and height.
pub proof fn lemma_resolution_roundtrip(
    w: usize,
    h: usize,
    sep: char,
    a: Seq<char>,
    b: Seq<char>,
    c: Seq<char>,
    d: Seq<char>,
)
    requires
        w > 0,
        h > 0,
        sep == 'x' || sep == 'X',
        all_white_space(a),
        all_white_space(b),
        all_white_space(c),
        all_white_space(d),
    ensures
        resolution_spec(a + decimal_digits(w as nat) + b + seq![sep] + c + decimal_digits(h as nat) + d)
            == Ok::<(usize, usize), Seq<char>>((w, h)),
{
    let dw = decimal_digits(w as nat);
    let dh = decimal_digits(h as nat);
    lemma_decimal_digits(w as nat);
    lemma_decimal_digits(h as nat);
    let p = a + dw + b;
    let q = c + dh + d;
    let s = a + dw + b + seq![sep] + c + dh + d;
    assert(s =~= p + seq![sep] + q);
    let i = p.len() as int;
    assert forall|j: int| 0 <= j < i implies !(#[trigger] sep_pred()(s[j])) by {
        assert(s[j] == p[j]);
        if j < a.len() {
            assert(p[j] == a[j]);
            assert(is_white_space(a[j]));
        } else if j < a.len() + dw.len() {
            assert(p[j] == dw[j - a.len()]);
            assert(dw[j - a.len()] != 'x' && dw[j - a.len()] != 'X');
        } else {
            assert(p[j] == b[j - a.len() - dw.len()]);
            assert(is_white_space(b[j - a.len() - dw.len()]));
        }
        assert(s[j] != 'x' && s[j] != 'X');
    }
    assert(s[i] == sep);
    lemma_first_index(s, sep_pred(), i);
    assert(s.take(i) =~= p);
    assert(s.skip(i + 1) =~= q);
    lemma_trim_number(a, w as nat, b);
    lemma_trim_number(c, h as nat, d);
    assert(unsigned_part(dw) == dw);
    assert(unsigned_part(dh) == dh);
}

/// Greatest common divisor, by Euclid's algorithm.
pub open spec fn gcd_spec(a: nat, b: nat) -> nat
    decreases b,
{
    if b == 0 {
        a
    } else {
        gcd_spec(b, a % b)
    }
}

/// Greatest common divisor of `a` and `b` (0 when both are 0).
pub fn gcd(a: usize, b: usize) -> (g: usize)
    ensures
        g == gcd_spec(a as nat, b as nat),
    decreases b,
{
    if b == 0 {
        a
    } else {
        gcd(b, a % b)
    }
}

/// Whether the `k`-th fraction of the native size is offered: `k` divides the
/// common divisor `g` and the width it gives is at least 16.
pub open spec fn is_preset(w: nat, h: nat, g: nat, k: nat) -> bool {
    1 <= k && g % k == 0 && w / k >= 16
}

/// The offered resolutions among fractions `1 .. k`, in the order of `k`.
pub open spec fn presets_upto(w: nat, h: nat, g: nat, k: nat) -> Seq<(usize, usize)>
    decreases k,
{
    if k == 0 {
        Seq::empty()
    } else {
        presets_upto(w, h, g, (k - 1) as nat) + if is_preset(w, h, g, k) {
            seq![((w / k) as usize, (h / k) as usize)]
        } else {
            Seq::empty()
        }
    }
}

/// The capture-resolution presets of a `w` x `h` monitor: `(w / k, h / k)` for
/// every divisor `k` of `gcd(w, h)`, in increasing `k`, keeping widths of at
/// least 16.
pub open spec fn presets_spec(w: nat, h: nat) -> Seq<(usize, usize)> {
    presets_upto(w, h, gcd_spec(w, h), gcd_spec(w, h))
}

/// Integer-divisor resolutions of the native size, largest to smallest,
/// keeping the exact aspect ratio.
pub fn resolution_presets(w: usize, h: usize) -> (r: Vec<(usize, usize)>)
    ensures
        r@ == presets_spec(w as nat, h as nat),
{
    let g: usize = gcd(w, h);
    let mut out: Vec<(usize, usize)> = Vec::new();
    if g == 0 {
        return out;
    }
    let mut k: usize = 0;
    while k < g
        invariant
            k <= g,
            g == gcd_spec(w as nat, h as nat),
            out@ == presets_upto(w as nat, h as nat, g as nat, k as nat),
        decreases g - k,
    {
        k = k + 1;
        if g % k == 0 {
            let pw: usize = w / k;
            if pw >= 16 {
                out.push((pw, h / k));
            }
        }
        assert(out@ =~= presets_upto(w as nat, h as nat, g as nat, k as nat));
    }
    out
}

proof fn lemma_exact_quotient(x: int, k: int)
    requires
        k > 0,
        x % k == 0,
    ensures
        x == k * (x / k),
{
    lemma_fundamental_div_mod(x, k);
}

proof fn lemma_multiple_mod(m: int, k: int)
    requires
        k > 0,
    ensures
        (k * m) % k == 0,
        (k * m) / k == m,
{
    lemma_mod_multiples_basic(m, k);
    assert(m * k == k * m) by (nonlinear_arith);
    lemma_div_multiples_vanish(m, k);
}

proof fn lemma_divides_trans(a: int, b: int, c: int)
    requires
        b > 0,
        c > 0,
        a % b == 0,
        b % c == 0,
    ensures
        a % c == 0,
{
    lemma_exact_quotient(a, b);
    lemma_exact_quotient(b, c);
    let m = (b / c) * (a / b);
    assert(a == c * m) by (nonlinear_arith)
        requires
            a == b * (a / b),
            b == c * (b / c),
            m == (b / c) * (a / b),
    ;
    lemma_multiple_mod(m, c);
}

proof fn lemma_divides_combination(x: int, y: int, q: int, d: int)
    requires
        d > 0,
        x % d == 0,
        y % d == 0,
    ensures
        (x * q + y) % d == 0,
        (y - x * q) % d == 0,
{
    lemma_exact_quotient(x, d);
    lemma_exact_quotient(y, d);
    let m1 = (x / d) * q + y / d;
    let m2 = y / d - (x / d) * q;
    assert(x * q + y == d * m1 && y - x * q == d * m2) by (nonlinear_arith)
        requires
            x == d * (x / d),
            y == d * (y / d),
            m1 == (x / d) * q + y / d,
            m2 == y / d - (x / d) * q,
    ;
    lemma_multiple_mod(m1, d);
    lemma_multiple_mod(m2, d);
}

/// The greatest common divisor divides both numbers, and is 0 only when both are.
pub proof fn lemma_gcd_divides(a: nat, b: nat)
    ensures
        gcd_spec(a, b) == 0 <==> a == 0 && b == 0,
        gcd_spec(a, b) > 0 ==> a % gcd_spec(a, b) == 0 && b % gcd_spec(a, b) == 0,
    decreases b,
{
    if b == 0 {
        if a > 0 {
            lemma_mod_self_0(a as int);
        }
    } else {
        let r = a % b;
        lemma_gcd_divides(b, r);
        let g = gcd_spec(a, b);
        lemma_fundamental_div_mod(a as int, b as int);
        if g > 0 {
            lemma_divides_combination(b as int, r as int, (a / b) as int, g as int);
            assert(a as int == b * (a / b) + r) by {
                assert(b * (a as int / b as int) == (a / b) * b) by (nonlinear_arith);
            }
        }
    }
}

/// Every common divisor of two numbers divides their greatest common divisor.
pub proof fn lemma_common_divisor_divides_gcd(a: nat, b: nat, d: nat)
    requires
        d > 0,
        a % d == 0,
        b % d == 0,
    ensures
        gcd_spec(a, b) % d == 0,
    decreases b,
{
    if b > 0 {
        let r = a % b;
        lemma_fundamental_div_mod(a as int, b as int);
        lemma_divides_combination(b as int, a as int, (a / b) as int, d as int);
        assert(r == a as int - b as int * (a / b) as int) by {
            assert(b * (a as int / b as int) == b as int * (a / b) as int);
        }
        lemma_common_divisor_divides_gcd(b, r, d);
    }
}

/// The facts that hold of every preset up to the `k`-th fraction.
pub open spec fn presets_well_formed(w: nat, h: nat, ps: Seq<(usize, usize)>, k: nat) -> bool {
    &&& forall|i: int|
        0 <= i < ps.len() ==> {
            &&& (#[trigger] ps[i]).0 >= 16
            &&& w % (ps[i].0 as nat) == 0
            &&& 1 <= w / (ps[i].0 as nat) <= k
            &&& h == ps[i].1 * (w / (ps[i].0 as nat))
        }
    &&& forall|i: int, j: int| 0 <= i < j < ps.len() ==> #[trigger] ps[i].0 > #[trigger] ps[j].0
}

proof fn lemma_presets_upto(w: nat, h: nat, g: nat, k: nat)
    requires
        g > 0,
        w % g == 0,
        h % g == 0,
        w <= usize::MAX,
        h <= usize::MAX,
        k <= g,
    ensures
        presets_well_formed(w, h, presets_upto(w, h, g, k), k),
        forall|j: nat| 1 <= j <= k && is_preset(w, h, g, j) ==> presets_upto(w, h, g, k).contains(
            ((w / j) as usize, (h / j) as usize),
        ),
    decreases k,
{
    if k > 0 {
        let prev = presets_upto(w, h, g, (k - 1) as nat);
        lemma_presets_upto(w, h, g, (k - 1) as nat);
        let ps = presets_upto(w, h, g, k);
        if is_preset(w, h, g, k) {
            let pw = w / k;
            let ph = h / k;
            lemma_divides_trans(w as int, g as int, k as int);
            lemma_divides_trans(h as int, g as int, k as int);
            lemma_exact_quotient(w as int, k as int);
            lemma_exact_quotient(h as int, k as int);
            assert(w == pw * k) by (nonlinear_arith)
                requires
                    w == k * pw,
            ;
            lemma_multiple_mod(k as int, pw as int);
            assert(pw * k == k * pw) by (nonlinear_arith);
            assert(w % pw == 0 && w / pw == k);
            assert(h == ph * k) by (nonlinear_arith)
                requires
                    h == k * ph,
            ;
            assert(pw <= w) by {
                vstd::arithmetic::div_mod::lemma_div_is_ordered_by_denominator(w as int, 1, k as int);
            }
            assert(ps == prev.push(((w / k) as usize, (h / k) as usize)));
            assert forall|i: int, j: int| 0 <= i < j < ps.len() implies #[trigger] ps[i].0 > #[trigger] ps[j].0 by {
                if j == ps.len() - 1 {
                    let e = prev[i];
                    let ke = w / (e.0 as nat);
                    lemma_exact_quotient(w as int, e.0 as int);
                    assert(e.0 > pw) by (nonlinear_arith)
                        requires
                            w == e.0 * ke,
                            w == pw * k,
                            ke < k,
                            pw >= 16,
                    {
                        if e.0 <= pw {
                            assert(e.0 * ke <= pw * ke);
                            assert(pw * ke < pw * k);
                        }
                    }
                } else {
                    assert(ps[i] == prev[i] && ps[j] == prev[j]);
                }
            }
            assert forall|j: nat| 1 <= j <= k && is_preset(w, h, g, j) implies ps.contains(
                ((w / j) as usize, (h / j) as usize),
            ) by {
                if j < k {
                    let t = choose|t: int| 0 <= t < prev.len() && prev[t] == ((w / j) as usize, (h / j) as usize);
                    assert(ps[t] == prev[t]);
                } else {
                    assert(ps[ps.len() - 1] == ((w / k) as usize, (h / k) as usize));
                }
            }
        } else {
            assert(ps =~= prev);
        }
    }
}

/// The presets keep the exact aspect ratio of the monitor, as whole fractions
/// of it (`w == pw * k` and `h == ph * k` for one integer `k`), all at least 16
/// wide; they run from largest to smallest; and every whole fraction that
/// divides both sides and is at least 16 wide is among them.
pub proof fn lemma_presets(w: usize, h: usize)
    ensures
        forall|i: int|
            0 <= i < presets_spec(w as nat, h as nat).len() ==> {
                let p = #[trigger] presets_spec(w as nat, h as nat)[i];
                &&& p.0 >= 16
                &&& w % p.0 == 0
                &&& w == p.0 * (w / p.0)
                &&& h == p.1 * (w / p.0)
            },
        forall|i: int, j: int|
            0 <= i < j < presets_spec(w as nat, h as nat).len() ==> #[trigger] presets_spec(
                w as nat,
                h as nat,
            )[i].0 > #[trigger] presets_spec(w as nat, h as nat)[j].0,
        forall|k: nat|
            1 <= k && #[trigger] (w as nat % k) == 0 && h as nat % k == 0 && w as nat / k >= 16
                ==> presets_spec(w as nat, h as nat).contains(((w as nat / k) as usize, (h as nat / k) as usize)),
{
    let g = gcd_spec(w as nat, h as nat);
    lemma_gcd_divides(w as nat, h as nat);
    if g > 0 {
        lemma_presets_upto(w as nat, h as nat, g, g);
        let ps = presets_spec(w as nat, h as nat);
        assert forall|i: int| 0 <= i < ps.len() implies {
            let p = #[trigger] ps[i];
            &&& p.0 >= 16
            &&& w % p.0 == 0
            &&& w == p.0 * (w / p.0)
            &&& h == p.1 * (w / p.0)
        } by {
            lemma_exact_quotient(w as int, ps[i].0 as int);
        }
        assert forall|k: nat| 1 <= k && #[trigger] (w as nat % k) == 0 && h as nat % k == 0 && w as nat / k
            >= 16 implies ps.contains(((w as nat / k) as usize, (h as nat / k) as usize)) by {
            lemma_common_divisor_divides_gcd(w as nat, h as nat, k);
            lemma_exact_quotient(g as int, k as int);
            assert(k <= g) by (nonlinear_arith)
                requires
                    g == k * (g / k),
                    g > 0,
                    k >= 1,
            {
                if g / k <= 0 {
                    assert(k * (g / k) <= 0);
                }
            }
            assert(is_preset(w as nat, h as nat, g, k));
        }
    } else {
        assert(w == 0 && h == 0);
        assert forall|k: nat| 1 <= k && #[trigger] (w as nat % k) == 0 && h as nat % k == 0 && w as nat / k
            >= 16 implies presets_spec(w as nat, h as nat).contains(((w as nat / k) as usize, (h as nat / k) as usize)) by {
            assert(0nat / k == 0);
        }
    }
}

} // verus!
