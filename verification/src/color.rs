//! Colours written as hexadecimal text.

use vstd::prelude::*;

use crate::text;
use crate::text::{byte_count, chars_of, floor_index_of, slice_of, trim_bounds};

verus! {

/// The value of a hexadecimal digit.
pub open spec fn hex_digit(c: char) -> Option<nat> {
    let n = c as u32;
    if 0x30 <= n <= 0x39 {
        Some((n - 0x30) as nat)
    } else if 0x41 <= n <= 0x46 {
        Some((n - 0x41 + 10) as nat)
    } else if 0x61 <= n <= 0x66 {
        Some((n - 0x61 + 10) as nat)
    } else {
        None
    }
}

/// The number that a run of hexadecimal digits stands for; `None` if another character occurs.
pub open spec fn hex_number(s: Seq<char>) -> Option<nat>
    decreases s.len(),
{
    if s.len() == 0 {
        Some(0)
    } else {
        match (hex_number(s.drop_last()), hex_digit(s.last())) {
            (Some(high), Some(low)) => Some(high * 16 + low),
            _ => None,
        }
    }
}

/// The number that a hexadecimal text stands for: an optional plus sign, then at least one digit.
pub open spec fn hex_text(s: Seq<char>) -> Option<nat> {
    let digits = if s.len() > 0 && s[0] == '+' {
        s.skip(1)
    } else {
        s
    };
    if digits.len() == 0 {
        None
    } else {
        hex_number(digits)
    }
}

/// The text without white space at its ends and without the number sign in front.
pub open spec fn color_body(s: Seq<char>) -> Seq<char> {
    let t = text::trim(s);
    if t.len() > 0 && t[0] == '#' {
        t.skip(1)
    } else {
        t
    }
}

/// Every character twice.
pub open spec fn doubled(s: Seq<char>) -> Seq<char>
    decreases s.len(),
{
    if s.len() == 0 {
        Seq::empty()
    } else {
        doubled(s.drop_last()).push(s.last()).push(s.last())
    }
}

/// The first three characters, or all if there are fewer.
pub open spec fn first_three(s: Seq<char>) -> Seq<char> {
    if s.len() <= 3 {
        s
    } else {
        s.take(3)
    }
}

/// A colour text that can be cut after its sixth byte wherever it has eight of them.
pub open spec fn color_text_ok(s: Seq<char>) -> bool {
    text::utf8_len(color_body(s)) == 8 ==> text::is_boundary(color_body(s), 6)
}

/// The colour that a text stands for, as `0xRRGGBB`: three or four digits that count double, or
/// six or eight digits. A fourth or a last pair of digits, the opacity, is left out.
pub open spec fn color_rgb(s: Seq<char>) -> Option<nat> {
    let body = color_body(s);
    let n = text::utf8_len(body);
    if n == 3 || n == 4 {
        hex_text(doubled(first_three(body)))
    } else if n == 6 {
        hex_text(body)
    } else if n == 8 {
        hex_text(body.take(text::floor_index(body, 6)))
    } else {
        None
    }
}

/// The same as a machine value.
pub open spec fn color_value(s: Seq<char>) -> Option<u32> {
    match color_rgb(s) {
        Some(n) => Some(n as u32),
        None => None,
    }
}

proof fn lemma_hex_number_bound(s: Seq<char>)
    requires
        s.len() <= 6,
    ensures
        hex_number(s) matches Some(n) ==> n < 0x1000000,
        hex_number(s) matches Some(n) ==> s.len() <= 5 ==> n < 0x100000,
        hex_number(s) matches Some(n) ==> s.len() <= 4 ==> n < 0x10000,
        hex_number(s) matches Some(n) ==> s.len() <= 3 ==> n < 0x1000,
        hex_number(s) matches Some(n) ==> s.len() <= 2 ==> n < 0x100,
        hex_number(s) matches Some(n) ==> s.len() <= 1 ==> n < 0x10,
        hex_number(s) matches Some(n) ==> s.len() == 0 ==> n == 0,
    decreases s.len(),
{
    if s.len() > 0 {
        lemma_hex_number_bound(s.drop_last());
    }
}

proof fn lemma_hex_number_none(s: Seq<char>, k: int)
    requires
        0 <= k <= s.len(),
        hex_number(s.take(k)) is None,
    ensures
        hex_number(s) is None,
    decreases s.len(),
{
    if k == s.len() {
        assert(s.take(k) =~= s);
    } else {
        assert(s.drop_last().take(k) =~= s.take(k));
        lemma_hex_number_none(s.drop_last(), k);
    }
}

proof fn lemma_doubled_len(s: Seq<char>)
    ensures
        doubled(s).len() == 2 * s.len(),
    decreases s.len(),
{
    if s.len() > 0 {
        lemma_doubled_len(s.drop_last());
    }
}

/// A colour fits in three bytes.
pub proof fn law_color_is_rgb(s: Seq<char>)
    ensures
        color_rgb(s) matches Some(n) ==> n < 0x1000000,
{
    let body = color_body(s);
    let n = text::utf8_len(body);
    text::lemma_utf8_len_bounds(body);
    let digits = if n == 3 || n == 4 {
        lemma_doubled_len(first_three(body));
        doubled(first_three(body))
    } else if n == 8 {
        text::lemma_floor_index(body, 6);
        text::lemma_utf8_len_bounds(body.take(text::floor_index(body, 6)));
        body.take(text::floor_index(body, 6))
    } else {
        body
    };
    if color_rgb(s) is Some {
        if digits[0] == '+' {
            lemma_hex_number_bound(digits.skip(1));
        } else {
            lemma_hex_number_bound(digits);
        }
    }
}

fn hex_digit_of(c: char) -> (r: Option<u32>)
    ensures
        r matches Some(d) ==> hex_digit(c) == Some(d as nat) && d < 16,
        r is None ==> hex_digit(c) is None,
{
    let n: u32 = c as u32;
    if 0x30 <= n && n <= 0x39 {
        Some(n - 0x30)
    } else if 0x41 <= n && n <= 0x46 {
        Some(n - 0x41 + 10)
    } else if 0x61 <= n && n <= 0x66 {
        Some(n - 0x61 + 10)
    } else {
        None
    }
}

/// The number that up to six hexadecimal characters stand for.
fn hex_of(v: &Vec<char>) -> (r: Option<u32>)
    requires
        v.len() <= 6,
    ensures
        r matches Some(n) ==> hex_text(v@) == Some(n as nat),
        r is None ==> hex_text(v@) is None,
{
    let from: usize = if v.len() > 0 && v[0] == '+' {
        1
    } else {
        0
    };
    let ghost digits = v@.skip(from as int);
    assert(v@.skip(0) =~= v@);
    if from == v.len() {
        return None;
    }
    let mut n: u32 = 0;
    let mut i: usize = from;
    assert(digits.take(0) =~= Seq::<char>::empty());
    while i < v.len()
        invariant
            from <= i <= v.len() <= 6,
            digits == v@.skip(from as int),
            hex_number(digits.take(i - from)) == Some(n as nat),
            hex_text(v@) == hex_number(digits),
        decreases v.len() - i,
    {
        let ghost next = digits.take(i - from + 1);
        assert(next.drop_last() =~= digits.take(i - from));
        assert(next.last() == v@[i as int]);
        proof {
            lemma_hex_number_bound(digits.take(i - from));
        }
        match hex_digit_of(v[i]) {
            Some(d) => {
                n = n * 16 + d;
            },
            None => {
                proof {
                    lemma_hex_number_none(digits, i - from + 1);
                }
                return None;
            },
        }
        i += 1;
    }
    assert(digits.take(digits.len() as int) =~= digits);
    Some(n)
}

fn doubled_of(v: &Vec<char>, n: usize) -> (r: Vec<char>)
    requires
        n <= v.len(),
    ensures
        r@ == doubled(v@.take(n as int)),
{
    let mut r: Vec<char> = Vec::new();
    let mut i: usize = 0;
    assert(v@.take(0) =~= Seq::<char>::empty());
    while i < n
        invariant
            i <= n <= v.len(),
            r@ == doubled(v@.take(i as int)),
        decreases n - i,
    {
        assert(v@.take(i + 1).drop_last() =~= v@.take(i as int));
        r.push(v[i]);
        r.push(v[i]);
        i += 1;
    }
    r
}

/// Whether a colour text can be read at all.
pub fn color_text_is_ok(color: &str) -> (r: bool)
    ensures
        r == color_text_ok(color@),
{
    let (body, n) = color_body_of(color);
    if n != 8 {
        return true;
    }
    let (_, at) = floor_index_of(&body, 6);
    at == 6
}

/// The body of a colour text and its size in bytes.
fn color_body_of(color: &str) -> (r: (Vec<char>, usize))
    ensures
        r.0@ == color_body(color@),
        r.1 == text::utf8_len(r.0@),
{
    let v = chars_of(color);
    let (a, b) = trim_bounds(&v);
    let ghost t = text::trim(color@);
    let body = if a < b && v[a] == '#' {
        assert(v@.subrange(a + 1, b as int) =~= t.skip(1));
        slice_of(&v, a + 1, b)
    } else {
        slice_of(&v, a, b)
    };
    let n = byte_count(text::text_of(&body).as_str());
    (body, n)
}

/// Reads a colour such as `#ff00aa`, `#ff00aaff` or `#f0a`.
pub fn parse_color_rgb(color: &str) -> (r: Option<u32>)
    requires
        color_text_ok(color@),
    ensures
        r == color_value(color@),
        r matches Some(n) ==> n < 0x1000000,
{
    proof {
        law_color_is_rgb(color@);
    }
    let (body, n) = color_body_of(color);
    proof {
        text::lemma_utf8_len_bounds(body@);
    }
    if n == 3 || n == 4 {
        let three: usize = if body.len() < 3 {
            body.len()
        } else {
            3
        };
        assert(body@.take(three as int) =~= first_three(body@));
        proof {
            lemma_doubled_len(first_three(body@));
        }
        hex_of(&doubled_of(&body, three))
    } else if n == 6 {
        hex_of(&body)
    } else if n == 8 {
        let (k, _) = floor_index_of(&body, 6);
        assert(body@.subrange(0, k as int) =~= body@.take(k as int));
        proof {
            text::lemma_utf8_len_bounds(body@.take(k as int));
        }
        hex_of(&slice_of(&body, 0, k))
    } else {
        None
    }
}

/// The character for a hexadecimal digit.
pub open spec fn digit_char(d: nat, upper: bool) -> char {
    if d < 10 {
        (0x30 + d) as char
    } else if upper {
        (0x41 + d - 10) as char
    } else {
        (0x61 + d - 10) as char
    }
}

/// The last `n` hexadecimal digits of a number.
pub open spec fn hex_digits(value: nat, n: nat, upper: bool) -> Seq<char>
    decreases n,
{
    if n == 0 {
        Seq::empty()
    } else {
        hex_digits(value / 16, (n - 1) as nat, upper).push(digit_char(value % 16, upper))
    }
}

/// The number of values with `n` hexadecimal digits.
pub open spec fn hex_count(n: nat) -> nat
    decreases n,
{
    if n == 0 {
        1
    } else {
        16 * hex_count((n - 1) as nat)
    }
}

proof fn lemma_digit_char(d: nat, upper: bool)
    requires
        d < 16,
    ensures
        hex_digit(digit_char(d, upper)) == Some(d),
{
}

proof fn lemma_hex_is_ascii(c: char)
    requires
        hex_digit(c) is Some,
    ensures
        '\0' <= c <= '\u{7f}',
{
    let n = c as u32;
    assert(n <= 0x66);
}

/// Hexadecimal digits stand for the number that they are the digits of.
proof fn lemma_hex_digits(value: nat, n: nat, upper: bool)
    requires
        value < hex_count(n),
    ensures
        hex_digits(value, n, upper).len() == n,
        hex_number(hex_digits(value, n, upper)) == Some(value),
        is_hex(hex_digits(value, n, upper)),
    decreases n,
{
    if n > 0 {
        lemma_hex_digits(value / 16, (n - 1) as nat, upper);
        lemma_digit_char(value % 16, upper);
        let s = hex_digits(value, n, upper);
        assert(s.drop_last() =~= hex_digits(value / 16, (n - 1) as nat, upper));
    }
}

/// All characters are hexadecimal digits.
pub open spec fn is_hex(s: Seq<char>) -> bool {
    forall|i: int| 0 <= i < s.len() ==> hex_digit(#[trigger] s[i]) is Some
}

/// A colour that is written as six digits, in upper or lower case, reads back as itself: with or
/// without a number sign in front, with white space around it, and with an opacity of two digits.
pub proof fn law_written_color_reads_back(
    value: nat,
    upper: bool,
    sign: bool,
    alpha: Seq<char>,
    before: Seq<char>,
    after: Seq<char>,
)
    requires
        value <= 0xFFFFFF,
        alpha.len() == 0 || alpha.len() == 2,
        is_hex(alpha),
        text::all_white(before),
        text::all_white(after),
    ensures
        ({
            let digits = hex_digits(value, 6, upper) + alpha;
            let body = if sign {
                seq!['#'] + digits
            } else {
                digits
            };
            let color = before + body + after;
            color_text_ok(color) && color_value(color) == Some(value as u32)
        }),
{
    reveal_with_fuel(hex_count, 7);
    let six = hex_digits(value, 6, upper);
    lemma_hex_digits(value, 6, upper);
    let digits = six + alpha;
    assert forall|i: int| 0 <= i < digits.len() implies hex_digit(#[trigger] digits[i]) is Some by {
        if i < 6 {
            assert(digits[i] == six[i]);
        } else {
            assert(digits[i] == alpha[i - 6]);
        }
    }
    let body = if sign {
        seq!['#'] + digits
    } else {
        digits
    };
    let color = before + body + after;
    let last = digits.len() - 1;
    assert(body.last() == digits[last]);
    assert(hex_digit(digits[0]) is Some && hex_digit(digits[last]) is Some);
    text::lemma_trim_around(before, body, after);
    assert(color_body(color) =~= digits);
    assert(vstd::utf8::is_ascii_chars(digits)) by {
        assert forall|i: int| 0 <= i < digits.len() implies '\0' <= #[trigger] digits[i]
            <= '\u{7f}' by {
            lemma_hex_is_ascii(digits[i]);
        }
    }
    text::lemma_ascii_size(digits);
    assert(digits.take(6) =~= six);
    assert(vstd::utf8::is_ascii_chars(six)) by {
        assert forall|i: int| 0 <= i < six.len() implies '\0' <= #[trigger] six[i]
            <= '\u{7f}' by {
            assert(six[i] == digits[i]);
        }
    }
    text::lemma_ascii_size(six);
    text::lemma_boundary_at(digits, 6);
    assert(six[0] == digits[0]);
    if alpha.len() == 0 {
        assert(digits =~= six);
    }
}

/// A colour of three digits stands for the one with each digit twice, and a fourth digit is its
/// opacity.
pub proof fn law_short_colors(
    r: nat,
    g: nat,
    b: nat,
    upper: bool,
    sign: bool,
    alpha: Seq<char>,
    before: Seq<char>,
    after: Seq<char>,
)
    requires
        r < 16,
        g < 16,
        b < 16,
        alpha.len() <= 1,
        is_hex(alpha),
        text::all_white(before),
        text::all_white(after),
    ensures
        ({
            let digits = seq![digit_char(r, upper), digit_char(g, upper), digit_char(b, upper)]
                + alpha;
            let body = if sign {
                seq!['#'] + digits
            } else {
                digits
            };
            color_value(before + body + after) == Some(
                (r * 0x110000 + g * 0x1100 + b * 0x11) as u32,
            )
        }),
{
    let (x, y, z) = (digit_char(r, upper), digit_char(g, upper), digit_char(b, upper));
    let three = seq![x, y, z];
    let digits = three + alpha;
    let body = if sign {
        seq!['#'] + digits
    } else {
        digits
    };
    let s = before + body + after;
    assert(hex_digit(x) == Some(r) && hex_digit(y) == Some(g) && hex_digit(z) == Some(b));
    assert forall|i: int| 0 <= i < digits.len() implies hex_digit(#[trigger] digits[i]) is Some by {
        if i >= 3 {
            assert(digits[i] == alpha[i - 3]);
        }
    }
    assert(vstd::utf8::is_ascii_chars(digits)) by {
        assert forall|i: int| 0 <= i < digits.len() implies '\0' <= #[trigger] digits[i]
            <= '\u{7f}' by {
            assert(hex_digit(digits[i]) is Some);
            lemma_hex_is_ascii(digits[i]);
        }
    }
    text::lemma_ascii_size(digits);
    assert forall|i: int| 0 <= i < body.len() implies !text::is_white(#[trigger] body[i]) by {
        if sign && i > 0 {
            assert(body[i] == digits[i - 1]);
            assert(hex_digit(digits[i - 1]) is Some);
        } else if !sign {
            assert(hex_digit(digits[i]) is Some);
        }
    }
    assert(!text::is_white(body[0]) && !text::is_white(body[body.len() - 1]));
    text::lemma_trim_around(before, body, after);
    assert(color_body(s) =~= digits) by {
        if sign {
            assert(body.skip(1) =~= digits);
        } else {
            assert(hex_digit(digits[0]) is Some);
        }
    }
    assert(first_three(digits) =~= three);
    let two = seq![x, y];
    let one = seq![x];
    assert(three.drop_last() =~= two);
    assert(two.drop_last() =~= one);
    assert(one.drop_last() =~= Seq::empty());
    assert(doubled(Seq::empty()) =~= Seq::empty());
    assert(doubled(one) =~= seq![x, x]);
    assert(doubled(two) =~= seq![x, x, y, y]);
    let six = seq![x, x, y, y, z, z];
    assert(doubled(three) =~= six);
    assert(six.drop_last() =~= seq![x, x, y, y, z]);
    assert(seq![x, x, y, y, z].drop_last() =~= seq![x, x, y, y]);
    assert(seq![x, x, y, y].drop_last() =~= seq![x, x, y]);
    assert(seq![x, x, y].drop_last() =~= seq![x, x]);
    assert(seq![x, x].drop_last() =~= one);
    assert(hex_number(Seq::empty()) == Some(0nat));
    assert(hex_number(one) == Some(r));
    assert(hex_number(seq![x, x]) == Some(r * 16 + r));
    assert(hex_number(seq![x, x, y]) == Some((r * 16 + r) * 16 + g));
    assert(hex_number(seq![x, x, y, y]) == Some(((r * 16 + r) * 16 + g) * 16 + g));
    assert(hex_number(seq![x, x, y, y, z]) == Some(
        (((r * 16 + r) * 16 + g) * 16 + g) * 16 + b,
    ));
    assert(hex_number(six) == Some(((((r * 16 + r) * 16 + g) * 16 + g) * 16 + b) * 16 + b));
    assert(six[0] != '+') by {
        assert(hex_digit(x) is Some);
    }
}

/// A text is no colour unless it has three, four, six or eight bytes behind the number sign.
pub proof fn law_colors_have_fixed_lengths(s: Seq<char>)
    ensures
        color_value(s) is Some ==> {
            let t = text::trim(s);
            let n = text::utf8_len(
                if t.len() > 0 && t[0] == '#' {
                    t.skip(1)
                } else {
                    t
                },
            );
            n == 3 || n == 4 || n == 6 || n == 8
        },
{
}

/// Three, four, six or eight characters, of which one that is no opacity is no hexadecimal digit
/// either, are no colour behind a number sign.
pub proof fn law_colors_need_digits(body: Seq<char>, k: int)
    requires
        body.len() == 3 || body.len() == 4 || body.len() == 6 || body.len() == 8,
        vstd::utf8::is_ascii_chars(body),
        0 <= k < (if body.len() <= 4 {
            3int
        } else {
            6
        }),
        !('0' <= body[k] <= '9') && !('a' <= body[k] <= 'f') && !('A' <= body[k] <= 'F'),
        body[0] != '+',
        !text::is_white(body.last()),
    ensures
        color_value(seq!['#'] + body) is None,
{
    let s = seq!['#'] + body;
    assert(s[s.len() - 1] == body.last());
    text::lemma_trim_fixed(s);
    assert(s.skip(1) =~= body);
    text::lemma_ascii_size(body);
    assert(hex_digit(body[k]) is None);
    if body.len() <= 4 {
        let three = first_three(body);
        let twice = doubled(three);
        lemma_doubled_at(three, k);
        lemma_doubled_at(three, 0);
        lemma_hex_number_needs_digits(twice, 2 * k);
    } else if body.len() == 6 {
        lemma_hex_number_needs_digits(body, k);
    } else {
        let six = body.take(6);
        assert(vstd::utf8::is_ascii_chars(six)) by {
            assert forall|i: int| 0 <= i < six.len() implies '\0' <= #[trigger] six[i] <= '\u{7f}' by {
                assert(six[i] == body[i]);
            }
        }
        text::lemma_ascii_size(six);
        text::lemma_boundary_at(body, 6);
        assert(text::floor_index(body, 6) == 6);
        lemma_hex_number_needs_digits(six, k);
    }
}

proof fn lemma_doubled_at(s: Seq<char>, k: int)
    requires
        0 <= k < s.len(),
    ensures
        doubled(s).len() == 2 * s.len(),
        doubled(s)[2 * k] == s[k],
        doubled(s)[2 * k + 1] == s[k],
    decreases s.len(),
{
    lemma_doubled_len(s);
    lemma_doubled_len(s.drop_last());
    if k < s.len() - 1 {
        lemma_doubled_at(s.drop_last(), k);
    }
}

proof fn lemma_hex_number_needs_digits(s: Seq<char>, k: int)
    requires
        0 <= k < s.len(),
        hex_digit(s[k]) is None,
    ensures
        hex_number(s) is None,
    decreases s.len(),
{
    if k < s.len() - 1 {
        lemma_hex_number_needs_digits(s.drop_last(), k);
    }
}

/// A plus sign may stand in place of the first of six digits.
pub proof fn law_signed_colors(value: nat, upper: bool)
    requires
        value <= 0xFFFFF,
    ensures
        color_value(seq!['#', '+'] + hex_digits(value, 5, upper)) == Some(value as u32),
        color_value(seq!['+'] + hex_digits(value, 5, upper)) == Some(value as u32),
{
    reveal_with_fuel(hex_count, 6);
    let five = hex_digits(value, 5, upper);
    lemma_hex_digits(value, 5, upper);
    let body = seq!['+'] + five;
    let s = seq!['#', '+'] + five;
    assert(hex_digit(five[4]) is Some);
    assert(s.last() == five[4] && body.last() == five[4]);
    text::lemma_trim_fixed(s);
    text::lemma_trim_fixed(body);
    assert(s.skip(1) =~= body);
    assert(body.skip(1) =~= five);
    assert(vstd::utf8::is_ascii_chars(body)) by {
        assert forall|i: int| 0 <= i < body.len() implies '\0' <= #[trigger] body[i] <= '\u{7f}' by {
            if i > 0 {
                assert(body[i] == five[i - 1]);
                lemma_hex_is_ascii(five[i - 1]);
            }
        }
    }
    text::lemma_ascii_size(body);
}

} // verus!
