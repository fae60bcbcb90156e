//! Recognising the Quiklight among the HID devices, and choosing its hidraw
//! node.

use vstd::prelude::*;

verus! {

/// USB vendor id of the Quiklight (QinHeng Electronics).
pub const VENDOR_ID: u32 = 0x1A86;

/// USB product id of the Quiklight.
pub const PRODUCT_ID: u32 = 0xFE07;

/// Upper-case hexadecimal digit of `d` (0 to 15).
pub open spec fn hex_digit(d: int) -> char {
    if d < 10 {
        ('0' as int + d) as char
    } else {
        ('A' as int + d - 10) as char
    }
}

/// The last `n` hexadecimal digits of `v`, most significant first.
pub open spec fn hex_digits(v: nat, n: nat) -> Seq<char>
    decreases n,
{
    if n == 0 {
        Seq::empty()
    } else {
        hex_digits(v / 16, (n - 1) as nat).push(hex_digit((v % 16) as int))
    }
}

/// The identifier of a USB HID device as its `uevent` file spells it:
/// `0003:VVVVVVVV:PPPPPPPP` (bus 3, vendor and product in eight hex digits).
pub open spec fn device_tag_spec(vendor: u32, product: u32) -> Seq<char> {
    "0003:"@ + hex_digits(vendor as nat, 8) + ":"@ + hex_digits(product as nat, 8)
}

fn hex_char(d: u32) -> (s: &'static str)
    requires
        d < 16,
    ensures
        s@ == seq![hex_digit(d as int)],
{
    let table: &'static str = "0123456789ABCDEF";
    proof {
        reveal_strlit("0123456789ABCDEF");
    }
    table.substring_char(d as usize, (d + 1) as usize)
}

/// Appends the last `n` hexadecimal digits of `v` to `out`.
fn push_hex(out: &mut String, v: u32, n: u32)
    ensures
        final(out)@ == old(out)@ + hex_digits(v as nat, n as nat),
    decreases n,
{
    if n > 0 {
        push_hex(out, v / 16, n - 1);
        out.append(hex_char(v % 16));
    }
}

/// The identifier that the `uevent` file of the given USB HID device holds.
pub fn device_tag(vendor: u32, product: u32) -> (tag: String)
    ensures
        tag@ == device_tag_spec(vendor, product),
{
    let mut tag = "0003:".to_owned();
    push_hex(&mut tag, vendor, 8);
    tag.append(":");
    push_hex(&mut tag, product, 8);
    tag
}

/// The characters of `s`.
fn chars_of(s: &str) -> (v: Vec<char>)
    ensures
        v@ == s@,
{
    let n: usize = s.unicode_len();
    let mut v: Vec<char> = Vec::with_capacity(n);
    let mut i: usize = 0;
    while i < n
        invariant
            n == s@.len(),
            i <= n,
            v@ == s@.take(i as int),
        decreases n - i,
    {
        v.push(s.get_char(i));
        i = i + 1;
        assert(v@ =~= s@.take(i as int));
    }
    assert(s@.take(n as int) =~= s@);
    v
}

/// Whether `needle` occurs in `hay` at position `i`.
pub open spec fn occurs_at(hay: Seq<char>, needle: Seq<char>, i: int) -> bool {
    0 <= i && i + needle.len() <= hay.len() && hay.subrange(i, i + needle.len()) == needle
}

/// Whether `needle` occurs anywhere in `hay`.
pub open spec fn seq_contains(hay: Seq<char>, needle: Seq<char>) -> bool {
    exists|i: int| #[trigger] occurs_at(hay, needle, i)
}

fn matches_at(hay: &Vec<char>, needle: &Vec<char>, i: usize) -> (r: bool)
    requires
        i + needle@.len() <= hay@.len(),
    ensures
        r == occurs_at(hay@, needle@, i as int),
{
    let hl: usize = hay.len();
    let mut j: usize = 0;
    while j < needle.len()
        invariant
            hl == hay@.len(),
            i + needle@.len() <= hay@.len(),
            j <= needle@.len(),
            forall|t: int| 0 <= t < j ==> hay@[i + t] == needle@[t],
        decreases needle.len() - j,
    {
        if hay[i + j] != needle[j] {
            assert(hay@.subrange(i as int, i + needle@.len())[j as int] != needle@[j as int]);
            return false;
        }
        j = j + 1;
    }
    assert(hay@.subrange(i as int, i + needle@.len()) =~= needle@);
    true
}

/// Whether `needle` occurs in `hay`.
pub fn contains(hay: &str, needle: &str) -> (r: bool)
    ensures
        r == seq_contains(hay@, needle@),
{
    let h = chars_of(hay);
    let n = chars_of(needle);
    if n.len() > h.len() {
        assert forall|i: int| !#[trigger] occurs_at(hay@, needle@, i) by {}
        return false;
    }
    let m: usize = h.len() - n.len();
    let mut i: usize = 0;
    loop
        invariant
            h@ == hay@,
            n@ == needle@,
            m == h@.len() - n@.len(),
            i <= m,
            forall|t: int| 0 <= t < i ==> !#[trigger] occurs_at(hay@, needle@, t),
        decreases m - i,
    {
        if matches_at(&h, &n, i) {
            assert(occurs_at(hay@, needle@, i as int));
            return true;
        }
        if i == m {
            assert forall|t: int| !#[trigger] occurs_at(hay@, needle@, t) by {
                if 0 <= t < i {
                }
            }
            return false;
        }
        i = i + 1;
    }
}

/// The text of a string after Unicode upper-casing.
pub uninterp spec fn uppercase(s: Seq<char>) -> Seq<char>;

/// Upper-cases `s` with `str::to_uppercase`. Its result depends on the string
/// alone; which characters map to which is the Unicode case mapping, left
/// unsaid here beyond that name.
#[verifier::external_body]
fn to_uppercase(s: &str) -> (r: String)
    ensures
        r@ == uppercase(s@),
{
    s.to_uppercase()
}

/// Whether a device's `uevent` text names the device `tag`, ignoring case:
/// the upper-cased text contains the tag.
pub fn uevent_matches(content: &str, tag: &str) -> (r: bool)
    ensures
        r == seq_contains(uppercase(content@), tag@),
{
    let upper = to_uppercase(content);
    contains(upper.as_str(), tag)
}


/// Lexicographic order of strings by code point (`a` comes no later than `b`).
/// It is the order of their UTF-8 bytes, which is how paths compare.
pub open spec fn lex_le(a: Seq<char>, b: Seq<char>) -> bool
    decreases a.len(),
{
    if a.len() == 0 {
        true
    } else if b.len() == 0 {
        false
    } else if a[0] != b[0] {
        a[0] < b[0]
    } else {
        lex_le(a.drop_first(), b.drop_first())
    }
}

/// Lexicographic order is reflexive.
pub proof fn lemma_lex_refl(a: Seq<char>)
    ensures
        lex_le(a, a),
    decreases a.len(),
{
    if a.len() > 0 {
        lemma_lex_refl(a.drop_first());
    }
}

/// Lexicographic order is total.
pub proof fn lemma_lex_total(a: Seq<char>, b: Seq<char>)
    ensures
        lex_le(a, b) || lex_le(b, a),
    decreases a.len(),
{
    if a.len() > 0 && b.len() > 0 && a[0] == b[0] {
        lemma_lex_total(a.drop_first(), b.drop_first());
    }
}

/// Lexicographic order is transitive.
pub proof fn lemma_lex_trans(a: Seq<char>, b: Seq<char>, c: Seq<char>)
    requires
        lex_le(a, b),
        lex_le(b, c),
    ensures
        lex_le(a, c),
    decreases a.len(),
{
    if a.len() > 0 && b.len() > 0 && c.len() > 0 && a[0] == b[0] && b[0] == c[0] {
        lemma_lex_trans(a.drop_first(), b.drop_first(), c.drop_first());
    }
}

fn lex_le_vec(a: &Vec<char>, b: &Vec<char>) -> (r: bool)
    ensures
        r == lex_le(a@, b@),
{
    let mut i: usize = 0;
    assert(a@.skip(0) =~= a@ && b@.skip(0) =~= b@);
    while i < a.len() && i < b.len() && a[i] == b[i]
        invariant
            i <= a@.len(),
            i <= b@.len(),
            lex_le(a@, b@) == lex_le(a@.skip(i as int), b@.skip(i as int)),
        decreases a@.len() - i,
    {
        assert(a@.skip(i as int).drop_first() =~= a@.skip(i + 1));
        assert(b@.skip(i as int).drop_first() =~= b@.skip(i + 1));
        i = i + 1;
    }
    if i == a.len() {
        true
    } else if i == b.len() {
        false
    } else {
        a[i] < b[i]
    }
}

fn starts_with(s: &Vec<char>, p: &Vec<char>) -> (r: bool)
    ensures
        r == (p@.len() <= s@.len() && s@.take(p@.len() as int) == p@),
{
    if p.len() > s.len() {
        return false;
    }
    let mut j: usize = 0;
    while j < p.len()
        invariant
            p@.len() <= s@.len(),
            j <= p@.len(),
            forall|t: int| 0 <= t < j ==> s@[t] == p@[t],
        decreases p.len() - j,
    {
        if s[j] != p[j] {
            assert(s@.take(p@.len() as int)[j as int] != p@[j as int]);
            return false;
        }
        j = j + 1;
    }
    assert(s@.take(p@.len() as int) =~= p@);
    true
}

/// Whether a device node name is a hidraw node (starts with `hidraw`).
pub open spec fn is_hidraw_name(n: Seq<char>) -> bool {
    n.len() >= 6 && n.take(6) == "hidraw"@
}

/// Chooses the device node among the entries found under the matching HID
/// devices: of the names that start with `hidraw`, the least in lexicographic
/// order, as a path under `/dev/`. `None` when no name starts with `hidraw`.
pub fn pick_hidraw(names: &[String]) -> (r: Option<String>)
    ensures
        r is None <==> forall|i: int| 0 <= i < names@.len() ==> !is_hidraw_name(#[trigger] names@[i]@),
        r matches Some(p) ==> exists|b: int|
            0 <= b < names@.len() && is_hidraw_name(names@[b]@) && p@ == "/dev/"@ + names@[b]@ && forall|j: int|
                0 <= j < names@.len() && is_hidraw_name(#[trigger] names@[j]@) ==> lex_le(names@[b]@, names@[j]@),
{
    let prefix = chars_of("hidraw");
    proof {
        reveal_strlit("hidraw");
    }
    assert(prefix@.len() == 6);
    let mut best: Option<usize> = None;
    let mut best_chars: Vec<char> = Vec::new();
    let mut i: usize = 0;
    while i < names.len()
        invariant
            i <= names@.len(),
            prefix@ == "hidraw"@,
            prefix@.len() == 6,
            match best {
                None => forall|j: int| 0 <= j < i ==> !is_hidraw_name(#[trigger] names@[j]@),
                Some(b) => {
                    &&& b < i
                    &&& best_chars@ == names@[b as int]@
                    &&& is_hidraw_name(names@[b as int]@)
                    &&& forall|j: int|
                        0 <= j < i && is_hidraw_name(#[trigger] names@[j]@) ==> lex_le(names@[b as int]@, names@[j]@)
                },
            },
        decreases names.len() - i,
    {
        let c = chars_of(names[i].as_str());
        if starts_with(&c, &prefix) {
            let replace = match best {
                None => true,
                Some(_) => !lex_le_vec(&best_chars, &c),
            };
            if replace {
                proof {
                    lemma_lex_refl(c@);
                    if let Some(b) = best {
                        lemma_lex_total(best_chars@, c@);
                        assert forall|j: int| 0 <= j < i && is_hidraw_name(#[trigger] names@[j]@) implies lex_le(
                            c@,
                            names@[j]@,
                        ) by {
                            lemma_lex_trans(c@, names@[b as int]@, names@[j]@);
                        }
                    }
                }
                best = Some(i);
                best_chars = c;
            }
        }
        i = i + 1;
    }
    match best {
        None => None,
        Some(b) => {
            let mut p = "/dev/".to_owned();
            p.append(names[b].as_str());
            Some(p)
        },
    }
}

} // verus!
