//! Value types of display geometry: position, scale factor and rotation.
use vstd::prelude::*;

use crate::text::{
    chars_of, lemma_i32_text, lemma_int_text, lemma_split_push, lemma_split_whole,
    lemma_trim_keeps, lemma_trim_lead, parse_i32, push_int, split_chars, string_of, trim,
    trim_chars, trim_end, trim_start, views, i32_value, int_text, is_digit, split_on, Strip,
    all_digits, first_index, lemma_first_index, digit_char, digit_value, digits_value, lemma_nat_text, nat_text, push_nat,
};

verus! {

/// Text that does not denote a position or a scale.
#[derive(Clone, Copy, Debug, PartialEq, Eq)]
pub struct ParseError;

/// Rotation of a display.
#[derive(Clone, Copy, Debug, PartialEq, Eq, Structural)]
pub enum Transform {
    Normal,
    R90,
    R180,
    R270,
}

impl Default for Transform {
    fn default() -> (r: Transform)
        ensures
            r == Transform::Normal,
    {
        Transform::Normal
    }
}

/// The canonical text of a rotation.
pub open spec fn transform_text(t: Transform) -> Seq<char> {
    match t {
        Transform::Normal => seq!['n', 'o', 'r', 'm', 'a', 'l'],
        Transform::R90 => seq!['9', '0'],
        Transform::R180 => seq!['1', '8', '0'],
        Transform::R270 => seq!['2', '7', '0'],
    }
}

/// The rotation that a session reports by its text: the three right-angle
/// turns by their degrees, anything else as no rotation.
pub open spec fn transform_of(s: Seq<char>) -> Transform {
    if s == transform_text(Transform::R90) {
        Transform::R90
    } else if s == transform_text(Transform::R180) {
        Transform::R180
    } else if s == transform_text(Transform::R270) {
        Transform::R270
    } else {
        Transform::Normal
    }
}

impl Transform {
    /// Appends the canonical text.
    pub fn push_text(&self, out: &mut Vec<char>)
        ensures
            final(out)@ == old(out)@ + transform_text(*self),
    {
        let t: Vec<char> = match self {
            Transform::Normal => vec!['n', 'o', 'r', 'm', 'a', 'l'],
            Transform::R90 => vec!['9', '0'],
            Transform::R180 => vec!['1', '8', '0'],
            Transform::R270 => vec!['2', '7', '0'],
        };
        crate::text::push_chars(out, &t);
        assert(t@ =~= transform_text(*self));
    }

    /// The canonical text: `normal`, `90`, `180` or `270`.
    pub fn to_string(&self) -> (r: String)
        ensures
            r@ == transform_text(*self),
    {
        let mut out: Vec<char> = Vec::new();
        self.push_text(&mut out);
        assert(out@ =~= transform_text(*self));
        string_of(&out)
    }

    /// The rotation named by a session's text.
    pub fn from_text(s: &str) -> (r: Transform)
        ensures
            r == transform_of(s@),
    {
        let c = chars_of(s);
        let r90: Vec<char> = vec!['9', '0'];
        let r180: Vec<char> = vec!['1', '8', '0'];
        let r270: Vec<char> = vec!['2', '7', '0'];
        assert(r90@ =~= transform_text(Transform::R90));
        assert(r180@ =~= transform_text(Transform::R180));
        assert(r270@ =~= transform_text(Transform::R270));
        if crate::text::chars_eq(&c, &r90) {
            Transform::R90
        } else if crate::text::chars_eq(&c, &r180) {
            Transform::R180
        } else if crate::text::chars_eq(&c, &r270) {
            Transform::R270
        } else {
            Transform::Normal
        }
    }
}

/// A position in display space, in pixels.
#[derive(Clone, Copy, Debug, PartialEq, Eq, Structural)]
pub struct Pos(pub i32, pub i32);

impl Default for Pos {
    fn default() -> (r: Pos)
        ensures
            r == Pos(0, 0),
    {
        Pos(0, 0)
    }
}

impl From<(i32, i32)> for Pos {
    fn from(i: (i32, i32)) -> (r: Pos) {
        Pos(i.0, i.1)
    }
}

impl vstd::std_specs::convert::FromSpecImpl<(i32, i32)> for Pos {
    open spec fn obeys_from_spec() -> bool {
        true
    }

    open spec fn from_spec(i: (i32, i32)) -> Pos {
        Pos(i.0, i.1)
    }
}

impl From<Pos> for (i32, i32) {
    fn from(p: Pos) -> (r: (i32, i32)) {
        (p.0, p.1)
    }
}

impl vstd::std_specs::convert::FromSpecImpl<Pos> for (i32, i32) {
    open spec fn obeys_from_spec() -> bool {
        true
    }

    open spec fn from_spec(p: Pos) -> (i32, i32) {
        (p.0, p.1)
    }
}

/// The canonical text of a position: `(x, y)`.
pub open spec fn pos_text(p: Pos) -> Seq<char> {
    seq!['('] + int_text(p.0 as int) + seq![',', ' '] + int_text(p.1 as int) + seq![')']
}

/// The position that `s` denotes: parentheses and spaces at either end are
/// dropped, the rest is split at commas, and the first two pieces, without
/// spaces at their ends, must be `i32`s. Further pieces are not read.
pub open spec fn pos_value(s: Seq<char>) -> Option<Pos> {
    let f = split_on(trim(s, Strip::Brackets), ',');
    if f.len() >= 2 {
        match (i32_value(trim(f[0], Strip::Space)), i32_value(trim(f[1], Strip::Space))) {
            (Some(x), Some(y)) => Some(Pos(x, y)),
            _ => None,
        }
    } else {
        None
    }
}

impl Pos {
    /// The canonical text, `(x, y)`.
    pub fn to_string(&self) -> (r: String)
        ensures
            r@ == pos_text(*self),
    {
        let mut out: Vec<char> = Vec::new();
        out.push('(');
        push_int(&mut out, self.0 as i64);
        out.push(',');
        out.push(' ');
        push_int(&mut out, self.1 as i64);
        out.push(')');
        assert(out@ =~= pos_text(*self));
        string_of(&out)
    }

    /// Reads a position written as `(x, y)`.
    pub fn from_str(s: &str) -> (r: Result<Pos, ParseError>)
        ensures
            r == (match pos_value(s@) {
                Some(p) => Ok(p),
                None => Err(ParseError),
            }),
    {
        let c = chars_of(s);
        let t = trim_chars(&c, Strip::Brackets);
        let f = split_chars(&t, ',');
        if f.len() < 2 {
            return Err(ParseError);
        }
        assert(f[0]@ == views(f@)[0] && f[1]@ == views(f@)[1]);
        let a = trim_chars(&f[0], Strip::Space);
        let b = trim_chars(&f[1], Strip::Space);
        match (parse_i32(&a), parse_i32(&b)) {
            (Some(x), Some(y)) => Ok(Pos(x, y)),
            _ => Err(ParseError),
        }
    }
}

/// A position reads back from its canonical text.
pub proof fn lemma_pos_round_trip(p: Pos)
    ensures
        pos_value(pos_text(p)) == Some(p),
{
    let a = int_text(p.0 as int);
    let b = int_text(p.1 as int);
    lemma_int_text(p.0 as int);
    lemma_int_text(p.1 as int);
    lemma_i32_text(p.0);
    lemma_i32_text(p.1);
    let u = a + seq![',', ' '] + b;
    assert(u[0] == a[0]);
    assert(u.last() == b.last());
    let s = pos_text(p);
    assert(s =~= seq!['('] + u.push(')'));
    assert(s.drop_first() =~= u.push(')'));
    assert(trim_start(s, Strip::Brackets) == trim_start(u.push(')'), Strip::Brackets));
    assert(u.push(')')[0] == a[0]);
    assert(trim_start(u.push(')'), Strip::Brackets) == u.push(')'));
    assert(u.push(')').drop_last() =~= u);
    assert(trim_end(u.push(')'), Strip::Brackets) == trim_end(u, Strip::Brackets));
    assert(trim_end(u, Strip::Brackets) == u);
    assert(trim(s, Strip::Brackets) == u);
    let b1 = seq![' '] + b;
    assert(!a.contains(',')) by {
        if a.contains(',') {
            let j = choose|j: int| 0 <= j < a.len() && a[j] == ',';
            assert(is_digit(a[j]) || a[j] == '-');
        }
    }
    assert(!b1.contains(',')) by {
        if b1.contains(',') {
            let j = choose|j: int| 0 <= j < b1.len() && b1[j] == ',';
            assert(b1[j] == b[j - 1]);
            assert(is_digit(b[j - 1]) || b[j - 1] == '-');
        }
    }
    assert(u =~= a.push(',') + b1);
    lemma_split_push(a, b1, ',');
    lemma_split_whole(a, ',');
    let f = split_on(u, ',');
    assert(f =~= seq![a, b1]);
    lemma_trim_keeps(a, Strip::Space);
    lemma_trim_lead(' ', b, Strip::Space);
    lemma_trim_keeps(b, Strip::Space);
}

/// A display's scale factor, in hundredths: `Scale(150)` is a factor of 1.5.
///
/// Scales are compared at this precision, the one at which they are written
/// out, so a factor that a session reports with more digits counts as equal
/// to its rounding.
#[derive(Clone, Copy, Debug, PartialEq, Eq, Structural)]
pub struct Scale(pub u32);

impl Default for Scale {
    fn default() -> (r: Scale)
        ensures
            r == Scale(100),
    {
        Scale(100)
    }
}

impl From<u32> for Scale {
    fn from(hundredths: u32) -> (r: Scale) {
        Scale(hundredths)
    }
}

impl vstd::std_specs::convert::FromSpecImpl<u32> for Scale {
    open spec fn obeys_from_spec() -> bool {
        true
    }

    open spec fn from_spec(hundredths: u32) -> Scale {
        Scale(hundredths)
    }
}

/// The canonical text of a scale: the factor with exactly two decimals.
pub open spec fn scale_text(s: Scale) -> Seq<char> {
    nat_text((s.0 / 100) as nat) + seq!['.', digit_char(((s.0 / 10) % 10) as int), digit_char((s.0 % 10) as int)]
}

/// The `i`-th digit of a fraction, zero past its end.
pub open spec fn frac_digit(f: Seq<char>, i: int) -> nat {
    if 0 <= i < f.len() {
        digit_value(f[i])
    } else {
        0
    }
}

/// The scale that `s` denotes: an optional `+`, then a decimal number
/// without an exponent (see `unsigned_scale_value`).
pub open spec fn scale_value(s: Seq<char>) -> Option<Scale> {
    if s.len() > 0 && s[0] == '+' {
        unsigned_scale_value(s.skip(1))
    } else {
        unsigned_scale_value(s)
    }
}

/// The scale that `s` denotes: digits, optionally a point and more digits,
/// with at least one digit in all, rounded half up to hundredths. A scale
/// is positive and its hundredths fit in a `u32`.
pub open spec fn unsigned_scale_value(s: Seq<char>) -> Option<Scale> {
    let k = first_index(s, '.');
    let ip = s.take(k as int);
    let fp = if k < s.len() {
        s.skip(k + 1 as int)
    } else {
        Seq::empty()
    };
    if all_digits(ip) && all_digits(fp) && ip.len() + fp.len() > 0 {
        let h = digits_value(ip) * 100 + frac_digit(fp, 0) * 10 + frac_digit(fp, 1) + if frac_digit(
            fp,
            2,
        ) >= 5 {
            1int
        } else {
            0int
        };
        if 0 < h <= u32::MAX {
            Some(Scale(h as u32))
        } else {
            None
        }
    } else {
        None
    }
}

fn digit_at(c: &Vec<char>, i: usize) -> (r: u64)
    requires
        i < c@.len(),
        is_digit(c@[i as int]),
    ensures
        r == digit_value(c@[i as int]),
        r < 10,
{
    (c[i] as u32 - 48) as u64
}

impl Scale {
    /// The canonical text, the factor with exactly two decimals.
    pub fn to_string(&self) -> (r: String)
        ensures
            r@ == scale_text(*self),
    {
        let mut out: Vec<char> = Vec::new();
        self.push_text(&mut out);
        assert(out@ =~= scale_text(*self));
        string_of(&out)
    }

    /// Appends the canonical text.
    pub fn push_text(&self, out: &mut Vec<char>)
        ensures
            final(out)@ == old(out)@ + scale_text(*self),
    {
        push_nat(out, (self.0 / 100) as u64);
        out.push('.');
        out.push((((self.0 / 10) % 10) as u8 + 48) as char);
        out.push(((self.0 % 10) as u8 + 48) as char);
        assert(out@ =~= old(out)@ + scale_text(*self));
    }

    /// Reads a scale factor written as a decimal number, with an optional
    /// `+` and no exponent.
    pub fn from_str(s: &str) -> (r: Result<Scale, ParseError>)
        ensures
            r == (match scale_value(s@) {
                Some(v) => Ok(v),
                None => Err(ParseError),
            }),
    {
        let all = chars_of(s);
        let c = if all.len() > 0 && all[0] == '+' {
            crate::text::sub_chars(&all, 1, all.len())
        } else {
            crate::text::sub_chars(&all, 0, all.len())
        };
        assert(scale_value(s@) == unsigned_scale_value(c@)) by {
            if !(all@.len() > 0 && all@[0] == '+') {
                assert(c@ =~= s@);
            } else {
                assert(c@ =~= s@.skip(1));
            }
        }
        Scale::parse_unsigned(&c)
    }

    fn parse_unsigned(c: &Vec<char>) -> (r: Result<Scale, ParseError>)
        ensures
            r == (match unsigned_scale_value(c@) {
                Some(v) => Ok(v),
                None => Err(ParseError),
            }),
    {
        let n = c.len();
        let mut k: usize = 0;
        while k < n && c[k] != '.'
            invariant
                k <= n == c@.len(),
                forall|j: int| 0 <= j < k ==> c@[j] != '.',
            decreases n - k,
        {
            k += 1;
        }
        proof {
            lemma_first_index(c@, '.', k as int);
            if k < n {
                assert(c@.skip(k as int)[0] == '.');
            }
        }
        let ghost ip = c@.take(k as int);
        let ghost fp = if k < n {
            c@.skip(k + 1)
        } else {
            Seq::<char>::empty()
        };
        let mut acc: u64 = 0;
        let mut i: usize = 0;
        while i < k
            invariant
                i <= k <= n == c@.len(),
                ip == c@.take(k as int),
                first_index(c@, '.') == k,
                fp == (if k < n {
                    c@.skip(k + 1)
                } else {
                    Seq::<char>::empty()
                }),
                all_digits(ip.take(i as int)),
                acc == digits_value(ip.take(i as int)),
                acc <= 42949673,
            decreases k - i,
        {
            if !('0' <= c[i] && c[i] <= '9') {
                assert(!is_digit(ip[i as int]));
                return Err(ParseError);
            }
            acc = acc * 10 + digit_at(&c, i);
            i += 1;
            assert(ip.take(i as int).drop_last() =~= ip.take(i - 1));
            assert(all_digits(ip.take(i as int)));
            if acc > 42949673 {
                proof {
                    if all_digits(ip) {
                        crate::text::lemma_digits_value_prefix(ip, i as int);
                        assert(digits_value(ip) * 100 >= 42949674 * 100) by (nonlinear_arith)
                            requires
                                digits_value(ip) >= 42949674,
                        ;
                    }
                }
                return Err(ParseError);
            }
        }
        assert(ip.take(k as int) =~= ip);
        if k < n {
            let mut j: usize = k + 1;
            while j < n
                invariant
                    k < n,
                    k + 1 <= j <= n,
                    n == c@.len(),
                    fp == c@.skip(k + 1),
                        first_index(c@, '.') == k,
                    forall|m: int| k + 1 <= m < j ==> is_digit(c@[m]),
                decreases n - j,
            {
                if !('0' <= c[j] && c[j] <= '9') {
                    assert(fp[j - k - 1] == c@[j as int]);
                    return Err(ParseError);
                }
                j += 1;
            }
        }
        assert(all_digits(fp)) by {
            if k < n {
                assert forall|m: int| 0 <= m < fp.len() implies is_digit(#[trigger] fp[m]) by {
                    assert(fp[m] == c@[k + 1 + m]);
                }
            }
        }
        if k == 0 && n <= 1 {
            return Err(ParseError);
        }
        let rest: usize = n - k;
        let d0: u64 = if rest > 1 { digit_at(&c, k + 1) } else { 0 };
        let d1: u64 = if rest > 2 { digit_at(&c, k + 2) } else { 0 };
        let d2: u64 = if rest > 3 { digit_at(&c, k + 3) } else { 0 };
        assert(d0 == frac_digit(fp, 0) && d1 == frac_digit(fp, 1) && d2 == frac_digit(fp, 2));
        let h: u64 = acc * 100 + d0 * 10 + d1 + if d2 >= 5 { 1 } else { 0 };
        if h == 0 || h > 4294967295 {
            return Err(ParseError);
        }
        Ok(Scale(h as u32))
    }
}

/// A positive scale reads back from its canonical text.
pub proof fn lemma_scale_round_trip(s: Scale)
    requires
        s.0 > 0,
    ensures
        scale_value(scale_text(s)) == Some(s),
{
    let q = (s.0 / 100) as nat;
    let a = nat_text(q);
    lemma_nat_text(q);
    assert(is_digit(a[0]));
    assert(scale_text(s)[0] == a[0]);
    let d1 = (s.0 / 10) % 10;
    let d2 = s.0 % 10;
    let t = scale_text(s);
    let b = seq!['.', digit_char(d1 as int), digit_char(d2 as int)];
    assert(t =~= a + b);
    assert forall|j: int| 0 <= j < a.len() implies t[j] != '.' by {
        assert(t[j] == a[j]);
        assert(is_digit(a[j]));
    }
    lemma_first_index(t, '.', a.len() as int);
    assert(t.skip(a.len() as int) =~= b);
    assert(first_index(t, '.') == a.len());
    assert(t.take(a.len() as int) =~= a);
    let fp = t.skip(a.len() + 1 as int);
    assert(fp =~= seq![digit_char(d1 as int), digit_char(d2 as int)]);
    assert(digit_value(digit_char(d1 as int)) == d1);
    assert(digit_value(digit_char(d2 as int)) == d2);
    assert(all_digits(fp));
    assert(frac_digit(fp, 0) == d1);
    assert(frac_digit(fp, 1) == d2);
    assert(frac_digit(fp, 2) == 0);
    assert(s.0 == q * 100 + d1 * 10 + d2) by {
        let x = s.0 as int;
        assert(x == (x / 10) * 10 + x % 10);
        assert(x / 10 == ((x / 10) / 10) * 10 + (x / 10) % 10);
        vstd::arithmetic::div_mod::lemma_div_denominator(x, 10, 10);
    }
}

} // verus!
