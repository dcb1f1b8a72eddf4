//! What the interface shows as text: file sizes, and tag colors as they are shown and as
//! a user types them.
use vstd::prelude::*;
use vstd::string::StringExecFns;
use vstd::arithmetic::div_mod::{
    lemma_div_denominator, lemma_fundamental_div_mod, lemma_mod_pos_bound,
};

use crate::text::{
    ascii_lower_char, ascii_lowercase, ascii_lowercase_of, is_unicode_whitespace, leading_space,
    string_push, trailing_space, trim, trimmed, ascii_uppercase_of,
    lemma_trimmed_twice, lemma_trim_ascii_case, lemma_lower_of_upper, is_whitespace,
};

verus! {

/// The character of a decimal digit.
pub open spec fn digit_char(d: nat) -> char {
    ((d + 48) as u8) as char
}

/// The decimal spelling of `n`, without leading zeros.
pub open spec fn decimal_of(n: nat) -> Seq<char>
    decreases n,
{
    if n < 10 {
        seq![digit_char(n)]
    } else {
        decimal_of(n / 10).push(digit_char(n % 10))
    }
}

/// Appends the decimal spelling of `n` to `out`.
pub fn push_decimal(out: &mut String, n: u64)
    ensures
        final(out)@ == old(out)@ + decimal_of(n as nat),
    decreases n,
{
    if n >= 10 {
        push_decimal(out, n / 10);
    }
    let digit = (n % 10) as u8;
    string_push(out, (digit + 48u8) as char);
    assert(old(out)@ + decimal_of(n as nat) =~= (if n >= 10 {
        old(out)@ + decimal_of((n / 10) as nat)
    } else {
        old(out)@
    }).push(digit_char((n % 10) as nat)));
}

/// The smallest byte count at which a `f64` no longer holds every whole number (2^53).
pub const EXACT_FLOAT_LIMIT: u64 = 9007199254740992;

/// Two to the power `e`.
pub open spec fn two_to(e: nat) -> nat
    decreases e,
{
    if e == 0 {
        1
    } else {
        2 * two_to((e - 1) as nat)
    }
}

/// How many low bits of `b` a `f64` cannot hold: none below 2^53, one more for each
/// halving that is still at least 2^53.
pub open spec fn float_shift(b: nat) -> nat
    decreases b,
{
    if b < EXACT_FLOAT_LIMIT {
        0
    } else {
        1 + float_shift(b / 2)
    }
}

/// The whole number `b as f64` holds: `b` rounded to a multiple of `2^float_shift(b)`,
/// to the nearest one, ties to the one with an even multiplier.
pub open spec fn nearest_float(b: nat) -> nat {
    let d = two_to(float_shift(b));
    let q = b / d;
    let r = b % d;
    (if r * 2 > d || (r * 2 == d && q % 2 == 1) {
        q + 1
    } else {
        q
    }) * d
}

/// A byte count in tenths of a KiB, rounded to the nearest tenth, ties to the even tenth.
pub open spec fn kib_tenths(bytes: nat) -> nat {
    let q = bytes * 10 / 1024;
    let r = bytes * 10 % 1024;
    if r * 2 > 1024 || (r * 2 == 1024 && q % 2 == 1) {
        q + 1
    } else {
        q
    }
}

/// The label of a size: whole bytes below 1 KiB (`512 B`), otherwise KiB with one
/// decimal (`1.5 KB`), computed from the byte count as a `f64` holds it.
pub open spec fn size_label(bytes: nat) -> Seq<char> {
    if bytes < 1024 {
        decimal_of(bytes) + " B"@
    } else {
        let t = kib_tenths(nearest_float(bytes));
        decimal_of(t / 10) + seq!['.', digit_char(t % 10)] + " KB"@
    }
}

/// `bytes as f64`, as the whole number it holds (see `nearest_float`).
fn float_value(b: u64) -> (v: u128)
    requires
        b > 0,
    ensures
        v == nearest_float(b as nat),
        v <= 2 * (b as nat) + 1,
{
    let mut m: u64 = b;
    let mut d: u128 = 1;
    let ghost mut e: nat = 0;
    while m >= EXACT_FLOAT_LIMIT
        invariant
            d == two_to(e),
            0 < d <= b,
            m == b as nat / (d as nat),
            float_shift(b as nat) == e + float_shift(m as nat),
        decreases m,
    {
        proof {
            lemma_div_denominator(b as int, d as int, 2);
            assert(b as nat / (d as nat) >= 2 ==> b >= 2 * d) by (nonlinear_arith)
                requires
                    d > 0,
                    b >= 0,
                    b as nat / (d as nat) >= 2,
            {
                lemma_fundamental_div_mod(b as int, d as int);
            }
        }
        m = m / 2;
        d = d * 2;
        proof {
            e = e + 1;
        }
    }
    proof {
        lemma_fundamental_div_mod(b as int, d as int);
        lemma_mod_pos_bound(b as int, d as int);
        assert((m as int) * (d as int) == (d as int) * (m as int)) by (nonlinear_arith);
    }
    let r = (b as u128) - (m as u128) * d;
    assert(r == (b as nat) % (d as nat));
    let q: u128 = if r * 2 > d || (r * 2 == d && m % 2 == 1) {
        (m as u128) + 1
    } else {
        m as u128
    };
    assert(q * d <= 2 * (b as nat) + 1) by (nonlinear_arith)
        requires
            q <= m + 1,
            m * d <= b,
            d <= b,
    ;
    q * d
}

/// The label of a file size (see `size_label`).
pub fn file_size(bytes: usize) -> (label: String)
    ensures
        label@ == size_label(bytes as nat),
{
    let b = bytes as u64;
    let mut out = String::new();
    if b < 1024 {
        push_decimal(&mut out, b);
        out.append(" B");
        return out;
    }
    let v = float_value(b);
    let q = v * 10 / 1024;
    let r = v * 10 % 1024;
    let t = if r * 2 > 1024 || (r * 2 == 1024 && q % 2 == 1) {
        q + 1
    } else {
        q
    };
    assert(t == kib_tenths(nearest_float(bytes as nat)));
    push_decimal(&mut out, (t / 10) as u64);
    string_push(&mut out, '.');
    let digit = (t % 10) as u8;
    string_push(&mut out, (digit + 48u8) as char);
    out.append(" KB");
    assert(out@ =~= size_label(bytes as nat));
    out
}

/// The uppercase hexadecimal digit of a value below 16.
pub open spec fn upper_hex_char(d: nat) -> char {
    if d < 10 {
        ((d + 48) as u8) as char
    } else {
        ((d + 55) as u8) as char
    }
}

/// The uppercase hexadecimal spelling of `n`, without leading zeros.
pub open spec fn upper_hex_of(n: nat) -> Seq<char>
    decreases n,
{
    if n < 16 {
        seq![upper_hex_char(n)]
    } else {
        upper_hex_of(n / 16).push(upper_hex_char(n % 16))
    }
}

/// `count` zero digits.
pub open spec fn zeros(count: nat) -> Seq<char> {
    Seq::new(count, |i: int| '0')
}

/// The text a tag color is shown as: `#` and at least six uppercase hexadecimal digits.
pub open spec fn color_hex_text(color: u32) -> Seq<char> {
    let digits = upper_hex_of(color as nat);
    seq!['#'] + if digits.len() < 6 {
        zeros((6 - digits.len()) as nat) + digits
    } else {
        digits
    }
}

fn push_upper_hex(out: &mut String, n: u32)
    ensures
        final(out)@ == old(out)@ + upper_hex_of(n as nat),
    decreases n,
{
    if n >= 16 {
        push_upper_hex(out, n / 16);
    }
    let digit = (n % 16) as u8;
    let c = if digit < 10 {
        (digit + 48u8) as char
    } else {
        (digit + 55u8) as char
    };
    string_push(out, c);
    assert(old(out)@ + upper_hex_of(n as nat) =~= (if n >= 16 {
        old(out)@ + upper_hex_of((n / 16) as nat)
    } else {
        old(out)@
    }).push(upper_hex_char((n % 16) as nat)));
}

fn hex_width(n: u32) -> (width: usize)
    ensures
        width == upper_hex_of(n as nat).len(),
        width <= 1 + n / 16,
    decreases n,
{
    if n >= 16 {
        proof {
            assert(upper_hex_of(n as nat).len() == upper_hex_of((n / 16) as nat).len() + 1);
        }
        hex_width(n / 16) + 1
    } else {
        1
    }
}

/// The text a tag color is shown as (see `color_hex_text`).
pub fn color_hex(color: u32) -> (text: String)
    ensures
        text@ == color_hex_text(color),
{
    let mut out = String::new();
    string_push(&mut out, '#');
    let width = hex_width(color);
    let mut padded: usize = width;
    while padded < 6
        invariant
            width <= padded <= 6 || (width > 6 && padded == width),
            width == upper_hex_of(color as nat).len(),
            out@ == seq!['#'] + zeros((padded - width) as nat),
        decreases 6 - padded,
    {
        string_push(&mut out, '0');
        assert(zeros((padded + 1 - width) as nat) =~= zeros((padded - width) as nat).push('0'));
        padded = padded + 1;
    }
    push_upper_hex(&mut out, color);
    proof {
        if width < 6 {
            assert(padded == 6);
        } else {
            assert(zeros((padded - width) as nat) =~= Seq::<char>::empty());
        }
    }
    assert(out@ =~= color_hex_text(color));
    out
}

/// Whether a character is an ASCII hexadecimal digit.
pub open spec fn is_hex_char(c: char) -> bool {
    ('0' <= c && c <= '9') || ('a' <= c && c <= 'f') || ('A' <= c && c <= 'F')
}

/// Whether every character of `h` is an ASCII hexadecimal digit.
pub open spec fn all_hex(h: Seq<char>) -> bool {
    forall|i: int| 0 <= i < h.len() ==> is_hex_char(#[trigger] h[i])
}

/// The value of an ASCII hexadecimal digit.
pub open spec fn hex_digit(c: char) -> nat {
    if '0' <= c && c <= '9' {
        (c as nat - 48) as nat
    } else if 'a' <= c && c <= 'f' {
        (c as nat - 87) as nat
    } else {
        (c as nat - 55) as nat
    }
}

/// The `0xRRGGBB` value of three or six hexadecimal digits; each of three digits stands for
/// itself twice.
pub open spec fn rgb_value(h: Seq<char>) -> nat {
    if h.len() == 3 {
        hex_digit(h[0]) * 0x110000 + hex_digit(h[1]) * 0x1100 + hex_digit(h[2]) * 0x11
    } else {
        hex_digit(h[0]) * 0x100000 + hex_digit(h[1]) * 0x10000 + hex_digit(h[2]) * 0x1000
            + hex_digit(h[3]) * 0x100 + hex_digit(h[4]) * 0x10 + hex_digit(h[5])
    }
}

/// A tag color as the user typed it, before it is turned into a color.
#[derive(Debug, PartialEq, Eq)]
pub enum TagColorInput {
    /// Nothing typed: the tag keeps no color of its own.
    Unset,
    /// A `0xRRGGBB` color.
    Rgb(u32),
    /// The text between the parentheses of `oklch(...)`, lowercase, which names a color
    /// by lightness, chroma and hue.
    Oklch(String),
}

/// Why typed text names no color.
#[derive(Clone, Copy, Debug, PartialEq, Eq, Structural)]
pub struct TagColorError;

impl TagColorError {
    /// What the user is told.
    pub fn message(&self) -> (text: &'static str)
        ensures
            text@ == "Enter #RGB, #RRGGBB or oklch(L C H), without transparency."@,
    {
        "Enter #RGB, #RRGGBB or oklch(L C H), without transparency."
    }
}

/// `oklch(` in characters.
pub open spec fn oklch_prefix() -> Seq<char> {
    seq!['o', 'k', 'l', 'c', 'h', '(']
}

/// The text typed for a tag color, trimmed, with ASCII letters lowered.
pub open spec fn color_text(value: Seq<char>) -> Seq<char> {
    ascii_lowercase_of(trimmed(value))
}

/// The hexadecimal digits of a color: the text without one leading `#`.
pub open spec fn hex_part(v: Seq<char>) -> Seq<char> {
    if v.len() > 0 && v[0] == '#' {
        v.drop_first()
    } else {
        v
    }
}

/// What typed color text names, in the terms of the contracts.
pub enum TypedColor {
    Unset,
    Oklch(Seq<char>),
    Rgb(nat),
    Invalid,
}

/// What the typed text `value` names: nothing when it is blank; the text inside
/// `oklch(...)`; otherwise three or six hexadecimal digits after an optional `#`, and
/// nothing valid for anything else.
pub open spec fn tag_color_input(value: Seq<char>) -> TypedColor {
    let v = color_text(value);
    let h = hex_part(v);
    if v.len() == 0 {
        TypedColor::Unset
    } else if v.len() >= 7 && v.take(6) == oklch_prefix() && v.last() == ')' {
        TypedColor::Oklch(v.subrange(6, v.len() - 1))
    } else if (h.len() == 3 || h.len() == 6) && all_hex(h) {
        TypedColor::Rgb(rgb_value(h))
    } else {
        TypedColor::Invalid
    }
}

fn hex_value_of(c: char) -> (d: u32)
    requires
        is_hex_char(c),
    ensures
        d == hex_digit(c),
        d < 16,
{
    if '0' <= c && c <= '9' {
        (c as u32) - 48
    } else if 'a' <= c && c <= 'f' {
        (c as u32) - 87
    } else {
        (c as u32) - 55
    }
}

/// Reads the color typed for a tag. The result is exact: blank text is `Unset`; text
/// `oklch(` ... `)` hands its inside on; three or six hexadecimal digits after an
/// optional `#` are the color they spell; anything else is refused.
pub fn read_tag_color(value: &str) -> (result: Result<TagColorInput, TagColorError>)
    ensures
        match tag_color_input(value@) {
            TypedColor::Unset => result == Ok::<TagColorInput, TagColorError>(TagColorInput::Unset),
            TypedColor::Oklch(body) => (result matches Ok(TagColorInput::Oklch(b)) && b@ == body),
            TypedColor::Rgb(rgb) => (result matches Ok(TagColorInput::Rgb(c)) && c == rgb),
            TypedColor::Invalid => result == Err::<TagColorInput, TagColorError>(TagColorError),
        },
        result matches Ok(TagColorInput::Rgb(c)) ==> c <= 0xffffff,
{
    let trimmed_value = trim(value);
    let lowered = ascii_lowercase(trimmed_value.as_str());
    let v = lowered.as_str();
    let ghost vs = color_text(value@);
    assert(v@ == vs);
    let n = v.unicode_len();
    if n == 0 {
        return Ok(TagColorInput::Unset);
    }
    if n >= 7 && v.get_char(0) == 'o' && v.get_char(1) == 'k' && v.get_char(2) == 'l' && v.get_char(
        3,
    ) == 'c' && v.get_char(4) == 'h' && v.get_char(5) == '(' && v.get_char(n - 1) == ')' {
        assert(vs.take(6) =~= oklch_prefix());
        let body = v.substring_char(6, n - 1).to_owned();
        return Ok(TagColorInput::Oklch(body));
    }
    proof {
        if vs.len() >= 7 && vs.take(6) == oklch_prefix() && vs.last() == ')' {
            assert(vs.take(6)[0] == 'o');
            assert(vs.take(6)[1] == 'k');
            assert(vs.take(6)[2] == 'l');
            assert(vs.take(6)[3] == 'c');
            assert(vs.take(6)[4] == 'h');
            assert(vs.take(6)[5] == '(');
        }
    }
    let start: usize = if v.get_char(0) == '#' {
        1
    } else {
        0
    };
    let ghost h = hex_part(vs);
    assert(h =~= vs.subrange(start as int, vs.len() as int));
    let len = n - start;
    if len != 3 && len != 6 {
        return Err(TagColorError);
    }
    let mut i: usize = start;
    while i < n
        invariant
            start <= i <= n == vs.len(),
            v@ == vs,
            h == vs.subrange(start as int, vs.len() as int),
            h == hex_part(vs),
            vs == color_text(value@),
            vs.len() > 0,
            !(vs.len() >= 7 && vs.take(6) == oklch_prefix() && vs.last() == ')'),
            forall|j: int| 0 <= j < i - start ==> is_hex_char(#[trigger] h[j]),
        decreases n - i,
    {
        let c = v.get_char(i);
        assert(h[i - start] == c);
        if !(('0' <= c && c <= '9') || ('a' <= c && c <= 'f') || ('A' <= c && c <= 'F')) {
            assert(!is_hex_char(h[i - start]));
            return Err(TagColorError);
        }
        i = i + 1;
    }
    assert(h[0] == vs[start as int]);
    assert(h[1] == vs[start + 1]);
    assert(h[2] == vs[start + 2]);
    let d0 = hex_value_of(v.get_char(start));
    let d1 = hex_value_of(v.get_char(start + 1));
    let d2 = hex_value_of(v.get_char(start + 2));
    if len == 3 {
        return Ok(TagColorInput::Rgb(d0 * 0x110000 + d1 * 0x1100 + d2 * 0x11));
    }
    assert(h[3] == vs[start + 3]);
    assert(h[4] == vs[start + 4]);
    assert(h[5] == vs[start + 5]);
    let d3 = hex_value_of(v.get_char(start + 3));
    let d4 = hex_value_of(v.get_char(start + 4));
    let d5 = hex_value_of(v.get_char(start + 5));
    Ok(
        TagColorInput::Rgb(
            d0 * 0x100000 + d1 * 0x10000 + d2 * 0x1000 + d3 * 0x100 + d4 * 0x10 + d5,
        ),
    )
}

/// The last `k` hexadecimal digits of `n`, uppercase, most significant first.
pub open spec fn padded_hex(n: nat, k: nat) -> Seq<char>
    decreases k,
{
    if k == 0 {
        Seq::empty()
    } else {
        padded_hex(n / 16, (k - 1) as nat).push(upper_hex_char(n % 16))
    }
}

proof fn lemma_padded_hex_of_zero(k: nat)
    ensures
        padded_hex(0, k) == zeros(k),
    decreases k,
{
    if k > 0 {
        lemma_padded_hex_of_zero((k - 1) as nat);
        assert(zeros(k) =~= zeros((k - 1) as nat).push('0'));
    }
}

proof fn lemma_padded_hex(n: nat, k: nat)
    requires
        n < two_to(4 * k),
        k >= 1,
    ensures
        upper_hex_of(n).len() <= k,
        zeros((k - upper_hex_of(n).len()) as nat) + upper_hex_of(n) == padded_hex(n, k),
    decreases k,
{
    if n < 16 {
        lemma_padded_hex_of_zero((k - 1) as nat);
        assert(zeros((k - 1) as nat) + seq![upper_hex_char(n)] =~= zeros((k - 1) as nat).push(
            upper_hex_char(n),
        ));
    } else {
        assert(two_to(4 * k) == 16 * two_to((4 * (k - 1)) as nat)) by {
            assert(two_to(4 * k) == 2 * two_to((4 * k - 1) as nat));
            assert(two_to((4 * k - 1) as nat) == 2 * two_to((4 * k - 2) as nat));
            assert(two_to((4 * k - 2) as nat) == 2 * two_to((4 * k - 3) as nat));
            assert(two_to((4 * k - 3) as nat) == 2 * two_to((4 * k - 4) as nat));
        }
        if k == 1 {
            assert(false);
        }
        lemma_padded_hex(n / 16, (k - 1) as nat);
        let prefix = zeros((k - 1 - upper_hex_of(n / 16).len()) as nat);
        assert(prefix + upper_hex_of(n) =~= (prefix + upper_hex_of(n / 16)).push(
            upper_hex_char(n % 16),
        ));
    }
}

proof fn lemma_hex_digit_back(d: nat)
    requires
        d < 16,
    ensures
        is_hex_char(ascii_lower_char(upper_hex_char(d))),
        hex_digit(ascii_lower_char(upper_hex_char(d))) == d,
{
}

/// A color shown as text reads back as the same color.
pub proof fn lemma_color_text_reads_back(color: u32)
    requires
        color <= 0xffffff,
    ensures
        tag_color_input(color_hex_text(color)) == TypedColor::Rgb(color as nat),
{
    reveal_with_fuel(two_to, 25);
    lemma_padded_hex(color as nat, 6);
    let digits = padded_hex(color as nat, 6);
    let text = color_hex_text(color);
    assert(text == seq!['#'] + digits);
    reveal_with_fuel(padded_hex, 7);
    let c = color as nat;
    assert(digits =~= seq![
        upper_hex_char(c / 16 / 16 / 16 / 16 / 16 % 16),
        upper_hex_char(c / 16 / 16 / 16 / 16 % 16),
        upper_hex_char(c / 16 / 16 / 16 % 16),
        upper_hex_char(c / 16 / 16 % 16),
        upper_hex_char(c / 16 % 16),
        upper_hex_char(c % 16),
    ]);
    assert(leading_space(text) == 0);
    assert(!is_unicode_whitespace(text[6]));
    assert(trailing_space(text) == 0);
    assert(trimmed(text) =~= text);
    let v = color_text(text);
    assert(v =~= ascii_lowercase_of(text));
    assert(v[0] == '#');
    assert(v.take(6) != oklch_prefix()) by {
        assert(v.take(6)[0] != oklch_prefix()[0]);
    }
    let h = hex_part(v);
    assert(h =~= ascii_lowercase_of(digits));
    lemma_hex_digit_back(c / 16 / 16 / 16 / 16 / 16 % 16);
    lemma_hex_digit_back(c / 16 / 16 / 16 / 16 % 16);
    lemma_hex_digit_back(c / 16 / 16 / 16 % 16);
    lemma_hex_digit_back(c / 16 / 16 % 16);
    lemma_hex_digit_back(c / 16 % 16);
    lemma_hex_digit_back(c % 16);
    assert(all_hex(h));
    assert(rgb_value(h) == c);
}

/// Typed color text means the same after trimming, and whatever the case of its ASCII
/// letters: trimmed, raised to uppercase or lowered, it names the same color.
pub proof fn lemma_color_input_ignores_space_and_case(value: Seq<char>)
    ensures
        tag_color_input(trimmed(value)) == tag_color_input(value),
        tag_color_input(ascii_uppercase_of(trimmed(value))) == tag_color_input(value),
        tag_color_input(ascii_lowercase_of(value)) == tag_color_input(value),
{
    let t = trimmed(value);
    lemma_trimmed_twice(value);
    assert(color_text(t) == color_text(value));
    lemma_trim_ascii_case(t);
    lemma_lower_of_upper(t);
    assert(color_text(ascii_uppercase_of(t)) == color_text(value));
    lemma_trim_ascii_case(value);
    lemma_lower_of_upper(t);
    assert(color_text(ascii_lowercase_of(value)) == color_text(value));
}

/// Every color that typed text names fits in `0xRRGGBB`.
pub proof fn lemma_typed_color_fits(value: Seq<char>)
    ensures
        tag_color_input(value) matches TypedColor::Rgb(c) ==> c <= 0xffffff,
{
    let h = hex_part(color_text(value));
    if (h.len() == 3 || h.len() == 6) && all_hex(h) {
        assert(is_hex_char(h[0]) && is_hex_char(h[1]) && is_hex_char(h[2]));
        if h.len() == 6 {
            assert(is_hex_char(h[3]) && is_hex_char(h[4]) && is_hex_char(h[5]));
        }
    }
}

/// The six digits of a shown color, without `#` and in either case, read back as that color.
#[verifier::rlimit(60)]
#[verifier::spinoff_prover]
pub proof fn lemma_color_digits_read_back(color: u32)
    requires
        color <= 0xffffff,
    ensures
        tag_color_input(color_hex_text(color).drop_first()) == TypedColor::Rgb(color as nat),
        tag_color_input(ascii_lowercase_of(color_hex_text(color).drop_first())) == TypedColor::Rgb(
            color as nat,
        ),
{
    reveal_with_fuel(two_to, 25);
    lemma_padded_hex(color as nat, 6);
    let digits = padded_hex(color as nat, 6);
    let text = color_hex_text(color);
    assert(text == seq!['#'] + digits);
    assert(text.drop_first() =~= digits);
    reveal_with_fuel(padded_hex, 7);
    let c = color as nat;
    assert(digits =~= seq![
        upper_hex_char(c / 16 / 16 / 16 / 16 / 16 % 16),
        upper_hex_char(c / 16 / 16 / 16 / 16 % 16),
        upper_hex_char(c / 16 / 16 / 16 % 16),
        upper_hex_char(c / 16 / 16 % 16),
        upper_hex_char(c / 16 % 16),
        upper_hex_char(c % 16),
    ]);
    assert(!is_unicode_whitespace(digits[0]));
    assert(leading_space(digits) == 0);
    assert(!is_unicode_whitespace(digits[5]));
    assert(trailing_space(digits) == 0);
    assert(trimmed(digits) =~= digits);
    let v = color_text(digits);
    assert(v =~= ascii_lowercase_of(digits));
    lemma_hex_digit_back(c / 16 / 16 / 16 / 16 / 16 % 16);
    lemma_hex_digit_back(c / 16 / 16 / 16 / 16 % 16);
    lemma_hex_digit_back(c / 16 / 16 / 16 % 16);
    lemma_hex_digit_back(c / 16 / 16 % 16);
    lemma_hex_digit_back(c / 16 % 16);
    lemma_hex_digit_back(c % 16);
    assert(v[0] != '#');
    assert(v.take(6) != oklch_prefix()) by {
        assert(v.take(6)[0] != oklch_prefix()[0]);
    }
    let h = hex_part(v);
    assert(h == v);
    assert(all_hex(h));
    assert(rgb_value(h) == c);
    lemma_color_input_ignores_space_and_case(digits);
}

/// The whitespace-separated words of `s` found so far, and the word being read.
pub open spec fn word_state(s: Seq<char>) -> (Seq<Seq<char>>, Seq<char>)
    decreases s.len(),
{
    if s.len() == 0 {
        (Seq::empty(), Seq::empty())
    } else {
        let before = word_state(s.drop_last());
        if is_unicode_whitespace(s.last()) {
            (add_word(before.0, before.1), Seq::empty())
        } else {
            (before.0, before.1.push(s.last()))
        }
    }
}

/// `words` with `word` after them, unless it is empty.
pub open spec fn add_word(words: Seq<Seq<char>>, word: Seq<char>) -> Seq<Seq<char>> {
    if word.len() > 0 {
        words.push(word)
    } else {
        words
    }
}

/// `str::split_whitespace`: the runs of non-whitespace characters of `s`, in order.
pub open spec fn words_of(s: Seq<char>) -> Seq<Seq<char>> {
    add_word(word_state(s).0, word_state(s).1)
}

/// Whether `s` ends with `suffix`.
pub open spec fn has_suffix(s: Seq<char>, suffix: Seq<char>) -> bool {
    s.len() >= suffix.len() && s.subrange(s.len() - suffix.len(), s.len() as int) == suffix
}

/// `s` without `suffix` when it ends with it, as `str::strip_suffix(..).unwrap_or(s)`.
pub open spec fn without_suffix(s: Seq<char>, suffix: Seq<char>) -> Seq<char> {
    if has_suffix(s, suffix) {
        s.subrange(0, s.len() - suffix.len())
    } else {
        s
    }
}

/// The three numbers of `oklch(L C H)` as typed: lightness and chroma, each without a
/// `%` it ends with, and the hue without a `deg` it ends with.
pub struct OklchParts {
    pub lightness: String,
    pub lightness_percent: bool,
    pub chroma: String,
    pub chroma_percent: bool,
    pub hue: String,
}

fn strip_char_suffix(word: &str, last: char) -> (result: (String, bool))
    ensures
        result.1 == has_suffix(word@, seq![last]),
        result.0@ == without_suffix(word@, seq![last]),
{
    let n = word.unicode_len();
    if n >= 1 && word.get_char(n - 1) == last {
        assert(word@.subrange(n - 1, n as int) =~= seq![last]);
        (word.substring_char(0, n - 1).to_owned(), true)
    } else {
        proof {
            if n >= 1 && word@.subrange(n - 1, n as int) == seq![last] {
                assert(word@.subrange(n - 1, n as int)[0] == word@[n - 1]);
            }
        }
        assert(word@.subrange(0, n as int) =~= word@);
        (word.substring_char(0, n).to_owned(), false)
    }
}

fn strip_deg(word: &str) -> (result: String)
    ensures
        result@ == without_suffix(word@, "deg"@),
{
    proof {
        reveal_strlit("deg");
    }
    let n = word.unicode_len();
    if n >= 3 && word.get_char(n - 3) == 'd' && word.get_char(n - 2) == 'e' && word.get_char(n - 1)
        == 'g' {
        assert(word@.subrange(n - 3, n as int) =~= "deg"@);
        word.substring_char(0, n - 3).to_owned()
    } else {
        proof {
            if n >= 3 && word@.subrange(n - 3, n as int) == "deg"@ {
                assert(word@.subrange(n - 3, n as int)[0] == word@[n - 3]);
                assert(word@.subrange(n - 3, n as int)[1] == word@[n - 2]);
                assert(word@.subrange(n - 3, n as int)[2] == word@[n - 1]);
            }
        }
        assert(word@.subrange(0, n as int) =~= word@);
        word.substring_char(0, n).to_owned()
    }
}

/// Splits the inside of `oklch(...)` into its three numbers (see `OklchParts`); nothing
/// when it does not hold exactly three whitespace-separated words.
pub fn oklch_parts(body: &str) -> (parts: Option<OklchParts>)
    ensures
        parts is Some <==> words_of(body@).len() == 3,
        parts matches Some(p) ==> {
            let w = words_of(body@);
            &&& p.lightness_percent == has_suffix(w[0], seq!['%'])
            &&& p.lightness@ == without_suffix(w[0], seq!['%'])
            &&& p.chroma_percent == has_suffix(w[1], seq!['%'])
            &&& p.chroma@ == without_suffix(w[1], seq!['%'])
            &&& p.hue@ == without_suffix(w[2], "deg"@)
        },
{
    let n = body.unicode_len();
    let mut words: Vec<String> = Vec::new();
    let mut current = String::new();
    let mut i: usize = 0;
    assert(body@.take(0) =~= Seq::<char>::empty());
    while i < n
        invariant
            i <= n == body@.len(),
            words@.map_values(|w: String| w@) == word_state(body@.take(i as int)).0,
            current@ == word_state(body@.take(i as int)).1,
        decreases n - i,
    {
        let c = body.get_char(i);
        assert(body@.take(i + 1).drop_last() =~= body@.take(i as int));
        assert(body@.take(i + 1).last() == c);
        if is_whitespace(c) {
            if current.unicode_len() > 0 {
                let ghost before = words@;
                let word = current;
                current = String::new();
                words.push(word);
                assert(words@.map_values(|w: String| w@) =~= before.map_values(|w: String| w@).push(
                    word@,
                ));
            }
            assert(current@ =~= Seq::<char>::empty());
        } else {
            string_push(&mut current, c);
        }
        i = i + 1;
    }
    assert(body@.take(n as int) =~= body@);
    if current.unicode_len() > 0 {
        let ghost before = words@;
        let word = current;
        words.push(word);
        assert(words@.map_values(|w: String| w@) =~= before.map_values(|w: String| w@).push(word@));
    }
    let ghost w = words_of(body@);
    assert(words@.map_values(|x: String| x@) == w);
    if words.len() != 3 {
        return None;
    }
    assert(words@[0]@ == w[0]);
    assert(words@[1]@ == w[1]);
    assert(words@[2]@ == w[2]);
    let (lightness, lightness_percent) = strip_char_suffix(words[0].as_str(), '%');
    let (chroma, chroma_percent) = strip_char_suffix(words[1].as_str(), '%');
    let hue = strip_deg(words[2].as_str());
    Some(OklchParts { lightness, lightness_percent, chroma, chroma_percent, hue })
}
} // verus!
