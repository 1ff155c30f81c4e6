//! Team colors and their `#rrggbb` text form.
use crate::text::push_char;
use vstd::prelude::*;
use vstd::string::StringSliceAdditionalSpecFns;
use vstd::utf8::{encode_utf8, is_ascii_chars, is_ascii_chars_encode_utf8};

verus! {

/// An RGB team color.
#[derive(Copy, Clone, Debug, Eq, Hash)]
pub struct TeamColor {
    inner: [u8; 3],
}

/// A string that is not a valid lowercase `#rrggbb` color.
#[derive(Debug)]
pub struct InvalidTeamColor;

impl View for TeamColor {
    type V = Seq<u8>;

    closed spec fn view(&self) -> Seq<u8> {
        self.inner@
    }
}

impl PartialEq for TeamColor {
    fn eq(&self, other: &Self) -> (r: bool) {
        let a = self.inner;
        let b = other.inner;
        let r = a[0] == b[0] && a[1] == b[1] && a[2] == b[2];
        proof {
            if r {
                assert(self@ =~= other@);
            } else {
                assert(self@ != other@) by {
                    if self@ == other@ {
                        assert(self@[0] == other@[0] && self@[1] == other@[1] && self@[2] == other@[2]);
                    }
                }
            }
        }
        r
    }
}

impl vstd::std_specs::cmp::PartialEqSpecImpl for TeamColor {
    open spec fn obeys_eq_spec() -> bool {
        true
    }

    open spec fn eq_spec(&self, other: &Self) -> bool {
        self@ == other@
    }
}

impl Default for TeamColor {
    /// Light gray.
    fn default() -> (r: Self)
        ensures
            r@ == seq![200u8, 200u8, 200u8],
    {
        let r = TeamColor { inner: [200u8, 200u8, 200u8] };
        assert(r@ =~= seq![200u8, 200u8, 200u8]);
        r
    }
}

/// The value of an ASCII hexadecimal digit (either case).
pub open spec fn hex_value(b: u8) -> int {
    if 48 <= b <= 57 {
        b - 48
    } else if 97 <= b <= 102 {
        b - 87
    } else {
        b - 55
    }
}

/// Whether a byte is an ASCII hexadecimal digit (either case).
pub open spec fn is_hex_digit(b: u8) -> bool {
    (48 <= b <= 57) || (97 <= b <= 102) || (65 <= b <= 70)
}

/// Whether a byte is an ASCII lowercase letter.
pub open spec fn is_lower(b: u8) -> bool {
    97 <= b <= 122
}

/// The number that a run of hexadecimal digits denotes.
pub open spec fn hex_number(s: Seq<u8>) -> int
    decreases s.len(),
{
    if s.len() == 0 {
        0
    } else {
        hex_number(s.drop_last()) * 16 + hex_value(s.last())
    }
}

/// Whether `digits` (the text after `#`) is what an unsigned hexadecimal
/// parse accepts: hex digits, optionally after one `+`, and at least one digit.
pub open spec fn parses_as_hex(digits: Seq<u8>) -> bool {
    &&& hex_body(digits).len() > 0
    &&& forall|i: int|
        0 <= i < hex_body(digits).len() ==> is_hex_digit(#[trigger] hex_body(digits)[i])
}

/// The digits of `digits` without a leading `+`.
pub open spec fn hex_body(digits: Seq<u8>) -> Seq<u8> {
    if digits.len() > 0 && digits[0] == 43 {
        digits.drop_first()
    } else {
        digits
    }
}

/// Whether `text` is a color that `parse` accepts: `#`, then six bytes that
/// parse as an unsigned hexadecimal number, at least one of them an ASCII
/// lowercase letter.
pub open spec fn valid_color_text(text: Seq<u8>) -> bool {
    &&& text.len() == 7
    &&& text[0] == 35
    &&& parses_as_hex(text.drop_first())
    &&& exists|i: int| 1 <= i < 7 && is_lower(#[trigger] text[i])
}

/// The color that a valid text denotes: the low three bytes of its number.
pub open spec fn color_of_text(text: Seq<u8>) -> Seq<u8> {
    let n = hex_number(hex_body(text.drop_first()));
    seq![(n / 65536 % 256) as u8, (n / 256 % 256) as u8, (n % 256) as u8]
}

/// The lowercase hexadecimal digit character of a value below 16.
pub open spec fn hex_char(v: int) -> char {
    if v < 10 {
        (48 + v) as char
    } else {
        (87 + v) as char
    }
}

/// `#rrggbb` in lowercase.
pub open spec fn color_text(c: Seq<u8>) -> Seq<char> {
    seq![
        '#',
        hex_char(c[0] as int / 16),
        hex_char(c[0] as int % 16),
        hex_char(c[1] as int / 16),
        hex_char(c[1] as int % 16),
        hex_char(c[2] as int / 16),
        hex_char(c[2] as int % 16),
    ]
}

/// The byte of a lowercase hexadecimal digit of a value below 16.
pub open spec fn hex_byte(v: int) -> u8 {
    if v < 10 {
        (48 + v) as u8
    } else {
        (87 + v) as u8
    }
}

/// The bytes of `color_text`.
pub open spec fn color_bytes(c: Seq<u8>) -> Seq<u8> {
    seq![
        35u8,
        hex_byte(c[0] as int / 16),
        hex_byte(c[0] as int % 16),
        hex_byte(c[1] as int / 16),
        hex_byte(c[1] as int % 16),
        hex_byte(c[2] as int / 16),
        hex_byte(c[2] as int % 16),
    ]
}

/// Whether some hexadecimal digit of the color is a letter.
pub open spec fn has_letter_digit(c: Seq<u8>) -> bool {
    c[0] as int / 16 >= 10 || c[0] as int % 16 >= 10 || c[1] as int / 16 >= 10 || c[1] as int % 16 >= 10
        || c[2] as int / 16 >= 10 || c[2] as int % 16 >= 10
}

proof fn lemma_hex_byte(v: int)
    requires
        0 <= v < 16,
    ensures
        is_hex_digit(hex_byte(v)),
        hex_value(hex_byte(v)) == v,
        is_lower(hex_byte(v)) == (v >= 10),
        hex_byte(v) != 43,
        hex_char(v) as u8 == hex_byte(v),
        '\0' <= hex_char(v) <= '\u{7f}',
{
}

/// The text of a color (what `to_hex_string` writes) is ASCII, its bytes are
/// `color_bytes`, and it parses back (by `parse` or `from_str`) to the color
/// exactly when one of its hexadecimal digits is a letter: `#123456` is
/// refused, since parsing asks for a lowercase letter.
pub proof fn law_color_text_round_trip(c: Seq<u8>)
    requires
        c.len() == 3,
    ensures
        encode_utf8(color_text(c)) == color_bytes(c),
        has_letter_digit(c) ==> valid_color_text(encode_utf8(color_text(c))) && color_of_text(
            encode_utf8(color_text(c)),
        ) == c,
        !has_letter_digit(c) ==> !valid_color_text(encode_utf8(color_text(c))),
{
    let b = color_bytes(c);
    let d0 = c[0] as int / 16;
    let d1 = c[0] as int % 16;
    let d2 = c[1] as int / 16;
    let d3 = c[1] as int % 16;
    let d4 = c[2] as int / 16;
    let d5 = c[2] as int % 16;
    lemma_hex_byte(d0);
    lemma_hex_byte(d1);
    lemma_hex_byte(d2);
    lemma_hex_byte(d3);
    lemma_hex_byte(d4);
    lemma_hex_byte(d5);
    assert(('#' as u8) == 35u8);
    let digits = b.drop_first();
    assert(hex_body(digits) == digits);
    assert forall|i: int| 0 <= i < hex_body(digits).len() implies is_hex_digit(#[trigger] hex_body(digits)[i]) by {
        assert(digits[i] == b[i + 1]);
    }
    assert(digits.drop_last().drop_last().drop_last().drop_last().drop_last().drop_last() =~= Seq::<u8>::empty());
    reveal_with_fuel(hex_number, 7);
    let n = hex_number(digits);
    assert(n == ((((d0 * 16 + d1) * 16 + d2) * 16 + d3) * 16 + d4) * 16 + d5) by {
        assert(digits.drop_last().drop_last().drop_last().drop_last().drop_last() =~= seq![b[1]]);
        assert(digits.drop_last().drop_last().drop_last().drop_last() =~= seq![b[1], b[2]]);
        assert(digits.drop_last().drop_last().drop_last() =~= seq![b[1], b[2], b[3]]);
        assert(digits.drop_last().drop_last() =~= seq![b[1], b[2], b[3], b[4]]);
        assert(digits.drop_last() =~= seq![b[1], b[2], b[3], b[4], b[5]]);
    }
    assert(n == c[0] as int * 65536 + c[1] as int * 256 + c[2] as int) by (nonlinear_arith)
        requires
            n == ((((d0 * 16 + d1) * 16 + d2) * 16 + d3) * 16 + d4) * 16 + d5,
            d0 == c[0] as int / 16,
            d1 == c[0] as int % 16,
            d2 == c[1] as int / 16,
            d3 == c[1] as int % 16,
            d4 == c[2] as int / 16,
            d5 == c[2] as int % 16,
    ;
    assert(n / 65536 % 256 == c[0] as int && n / 256 % 256 == c[1] as int && n % 256 == c[2] as int) by (nonlinear_arith)
        requires
            n == c[0] as int * 65536 + c[1] as int * 256 + c[2] as int,
            0 <= c[0] < 256,
            0 <= c[1] < 256,
            0 <= c[2] < 256,
    ;
    assert(color_of_text(b) =~= c);
    let t = color_text(c);
    assert(is_ascii_chars(t)) by {
        assert forall|i: int| 0 <= i < t.len() implies '\0' <= #[trigger] t[i] <= '\u{7f}' by {
            assert('\0' <= '#' <= '\u{7f}');
        }
    }
    is_ascii_chars_encode_utf8(t);
    assert(encode_utf8(t) =~= b) by {
        assert forall|i: int| 0 <= i < 7 implies #[trigger] encode_utf8(t)[i] == b[i] by {
            assert(t[i] as u8 == encode_utf8(t)[i]);
        }
    }
    if has_letter_digit(c) {
        if d0 >= 10 {
            assert(is_lower(b[1]));
        } else if d1 >= 10 {
            assert(is_lower(b[2]));
        } else if d2 >= 10 {
            assert(is_lower(b[3]));
        } else if d3 >= 10 {
            assert(is_lower(b[4]));
        } else if d4 >= 10 {
            assert(is_lower(b[5]));
        } else {
            assert(is_lower(b[6]));
        }
    } else {
        assert forall|i: int| 1 <= i < 7 implies !is_lower(#[trigger] b[i]) by {}
    }
}

proof fn lemma_hex_number_bound(s: Seq<u8>)
    requires
        forall|i: int| 0 <= i < s.len() ==> is_hex_digit(#[trigger] s[i]),
    ensures
        0 <= hex_number(s),
        s.len() <= 6 ==> hex_number(s) < 16777216,
        s.len() <= 5 ==> hex_number(s) < 1048576,
        s.len() <= 4 ==> hex_number(s) < 65536,
        s.len() <= 3 ==> hex_number(s) < 4096,
        s.len() <= 2 ==> hex_number(s) < 256,
        s.len() <= 1 ==> hex_number(s) < 16,
    decreases s.len(),
{
    if s.len() > 0 {
        let t = s.drop_last();
        assert forall|i: int| 0 <= i < t.len() implies is_hex_digit(#[trigger] t[i]) by {
            assert(t[i] == s[i]);
        }
        lemma_hex_number_bound(t);
        assert(is_hex_digit(s[s.len() - 1]));
    }
}

fn hex_digit_value(b: u8) -> (r: u32)
    requires
        is_hex_digit(b),
    ensures
        r == hex_value(b),
        r < 16,
{
    if b <= 57 {
        (b - 48) as u32
    } else if b >= 97 {
        (b - 87) as u32
    } else {
        (b - 55) as u32
    }
}

fn hex_digit_char(v: u8) -> (r: char)
    requires
        v < 16,
    ensures
        r == hex_char(v as int),
{
    if v < 10 {
        (48 + v) as char
    } else {
        (87 + v) as char
    }
}

impl TeamColor {
    pub fn new(inner: [u8; 3]) -> (r: Self)
        ensures
            r@ == inner@,
    {
        Self { inner }
    }

    pub fn as_rgb(&self) -> (r: [u8; 3])
        ensures
            r@ == self@,
    {
        self.inner
    }

    pub fn as_rgba(&self, a: u8) -> (r: [u8; 4])
        ensures
            r@ == self@.push(a),
    {
        let c = self.inner;
        let r = [c[0], c[1], c[2], a];
        assert(r@ =~= self@.push(a));
        r
    }

    /// Parses `#rrggbb` (see `valid_color_text` for exactly what is accepted).
    pub fn parse(s: &str) -> (r: Result<TeamColor, InvalidTeamColor>)
        ensures
            r is Ok <==> valid_color_text(s.spec_bytes()),
            r is Ok ==> s.spec_bytes().len() == 7 && s.spec_bytes()[0] == 35,
            r matches Ok(c) ==> c@ == color_of_text(s.spec_bytes()),
    {
        let b = s.as_bytes();
        let ghost text = s.spec_bytes();
        if b.len() != 7 || b[0] != 35 {
            return Err(InvalidTeamColor);
        }
        let mut any_lower = false;
        let mut i: usize = 1;
        while i < 7
            invariant
                1 <= i <= 7,
                b@ == text,
                text == s.spec_bytes(),
                text.len() == 7,
                any_lower <==> exists|j: int| 1 <= j < i && is_lower(#[trigger] text[j]),
            decreases 7 - i,
        {
            if 97 <= b[i] && b[i] <= 122 {
                any_lower = true;
            }
            i = i + 1;
        }
        if !any_lower {
            return Err(InvalidTeamColor);
        }
        let ghost digits = text.drop_first();
        let start: usize = if b[1] == 43 { 2 } else { 1 };
        let ghost body = hex_body(digits);
        assert(body =~= text.subrange(start as int, 7));
        let mut n: u32 = 0;
        let mut k: usize = start;
        while k < 7
            invariant
                start <= k <= 7,
                1 <= start <= 2,
                b@ == text,
                text == s.spec_bytes(),
                text.len() == 7,
                body =~= text.subrange(start as int, 7),
                digits == text.drop_first(),
                body == hex_body(digits),
                forall|j: int| start <= j < k ==> is_hex_digit(#[trigger] text[j]),
                n == hex_number(text.subrange(start as int, k as int)),
                n < 16777216,
            decreases 7 - k,
        {
            if !((48 <= b[k] && b[k] <= 57) || (97 <= b[k] && b[k] <= 102) || (65 <= b[k] && b[k] <= 70)) {
                proof {
                    assert(b@[k as int] == text[k as int]);
                    assert(!is_hex_digit(text[k as int]));
                    assert(body[k - start] == text[k as int]);
                    if parses_as_hex(digits) {
                        assert(is_hex_digit(hex_body(digits)[k - start]));
                    }
                    assert(!parses_as_hex(text.drop_first()));
                    assert(!valid_color_text(text));
                }
                return Err(InvalidTeamColor);
            }
            let d = hex_digit_value(b[k]);
            proof {
                let pre = text.subrange(start as int, (k + 1) as int);
                assert(pre.drop_last() =~= text.subrange(start as int, k as int));
                assert(forall|j: int| 0 <= j < pre.len() ==> #[trigger] pre[j] == text[start + j]);
                lemma_hex_number_bound(pre);
            }
            n = n * 16 + d;
            k = k + 1;
        }
        assert(text.subrange(start as int, 7) =~= body);
        assert(body.len() > 0);
        let r = (n / 65536 % 256) as u8;
        let g = (n / 256 % 256) as u8;
        let bl = (n % 256) as u8;
        let c = TeamColor::new([r, g, bl]);
        assert(c@ =~= color_of_text(text));
        Ok(c)
    }

    /// The color as lowercase `#rrggbb` text.
    pub fn to_hex_string(&self) -> (r: String)
        ensures
            r@ == color_text(self@),
    {
        let mut out = String::new();
        let mut i: usize = 0;
        let ghost c = self@;
        push_char(&mut out, '#');
        while i < 3
            invariant
                i <= 3,
                c == self@,
                c.len() == 3,
                out@.len() == 1 + 2 * i,
                forall|j: int| 0 <= j < out@.len() ==> #[trigger] out@[j] == color_text(c)[j],
            decreases 3 - i,
        {
            let byte = self.inner[i];
            let hi = hex_digit_char(byte / 16);
            let lo = hex_digit_char(byte % 16);
            push_char(&mut out, hi);
            push_char(&mut out, lo);
            i = i + 1;
        }
        assert(out@ =~= color_text(c));
        out
    }
}

impl std::str::FromStr for TeamColor {
    type Err = InvalidTeamColor;

    /// Parses `#rrggbb` (see `TeamColor::parse`).
    fn from_str(s: &str) -> (r: Result<TeamColor, InvalidTeamColor>)
        ensures
            r is Ok <==> valid_color_text(s.spec_bytes()),
            r is Ok ==> s.spec_bytes().len() == 7 && s.spec_bytes()[0] == 35,
            r matches Ok(c) ==> c@ == color_of_text(s.spec_bytes()),
    {
        TeamColor::parse(s)
    }
}

} // verus!
