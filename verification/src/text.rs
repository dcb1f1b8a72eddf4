//! Small text operations with exact statements over character sequences.
use vstd::prelude::*;
use vstd::string::*;
use vstd::utf8::*;

verus! {

broadcast use encode_utf8_decode_utf8;

/// `String::push`: appends one character.
#[verifier::external_body]
pub(crate) fn string_push(s: &mut String, c: char)
    ensures
        final(s)@ == old(s)@.push(c),
{
    s.push(c)
}

/// The Unicode lowercase mapping of a string, as `str::to_lowercase` computes it.
pub uninterp spec fn unicode_lowercase(s: Seq<char>) -> Seq<char>;

/// `str::to_lowercase`: the Unicode lowercase form of `s`.
#[verifier::external_body]
pub(crate) fn to_lowercase(s: &str) -> (lower: String)
    ensures
        lower@ == unicode_lowercase(s@),
{
    s.to_lowercase()
}

/// Whether two strings hold the same characters.
pub fn str_eq(a: &str, b: &str) -> (same: bool)
    ensures
        same == (a@ == b@),
{
    let x = a.as_bytes();
    let y = b.as_bytes();
    if x.len() != y.len() {
        proof {
            if a@ == b@ {
                assert(x@ == y@);
            }
        }
        return false;
    }
    let mut i: usize = 0;
    while i < x.len()
        invariant
            i <= x@.len() == y@.len(),
            x@ == a.spec_bytes(),
            y@ == b.spec_bytes(),
            forall|j: int| 0 <= j < i ==> x@[j] == y@[j],
        decreases x@.len() - i,
    {
        if x[i] != y[i] {
            proof {
                if a@ == b@ {
                    assert(x@ == y@);
                }
            }
            return false;
        }
        i = i + 1;
    }
    assert(x@ =~= y@);
    assert(decode_utf8(encode_utf8(a@)) == a@);
    assert(decode_utf8(encode_utf8(b@)) == b@);
    true
}

/// Whether `s` is one of `list`.
pub fn list_contains(list: &Vec<String>, s: &str) -> (found: bool)
    ensures
        found == exists|i: int| 0 <= i < list@.len() && (#[trigger] list@[i])@ == s@,
{
    let mut i: usize = 0;
    while i < list.len()
        invariant
            i <= list@.len(),
            forall|j: int| 0 <= j < i ==> (#[trigger] list@[j])@ != s@,
        decreases list@.len() - i,
    {
        if str_eq(list[i].as_str(), s) {
            return true;
        }
        i = i + 1;
    }
    false
}

/// The ASCII lowercase form of a character: `A`..`Z` become `a`..`z`.
pub open spec fn ascii_lower_char(c: char) -> char {
    if 'A' <= c && c <= 'Z' {
        ((c as u32) + 32) as char
    } else {
        c
    }
}

pub open spec fn ascii_lowercase_of(s: Seq<char>) -> Seq<char> {
    s.map_values(|c: char| ascii_lower_char(c))
}

/// `str::to_ascii_lowercase`: ASCII letters lowered, every other character kept.
pub fn ascii_lowercase(s: &str) -> (lower: String)
    ensures
        lower@ == ascii_lowercase_of(s@),
{
    let n = s.unicode_len();
    let mut out = String::new();
    let mut i: usize = 0;
    while i < n
        invariant
            i <= n == s@.len(),
            out@ == ascii_lowercase_of(s@.take(i as int)),
        decreases n - i,
    {
        let c = s.get_char(i);
        let lowered = if 'A' <= c && c <= 'Z' {
            ((c as u32) + 32) as u8 as char
        } else {
            c
        };
        assert(ascii_lowercase_of(s@.take(i + 1)) =~= ascii_lowercase_of(s@.take(i as int)).push(
            ascii_lower_char(c),
        ));
        string_push(&mut out, lowered);
        i = i + 1;
    }
    assert(s@.take(n as int) =~= s@);
    out
}

/// The Unicode characters that `char::is_whitespace` reports (the `White_Space` property).
pub open spec fn is_unicode_whitespace(c: char) -> bool {
    ||| c == '\u{0009}'
    ||| c == '\u{000A}'
    ||| c == '\u{000B}'
    ||| c == '\u{000C}'
    ||| c == '\u{000D}'
    ||| c == '\u{0020}'
    ||| c == '\u{0085}'
    ||| c == '\u{00A0}'
    ||| c == '\u{1680}'
    ||| ('\u{2000}' <= c && c <= '\u{200A}')
    ||| c == '\u{2028}'
    ||| c == '\u{2029}'
    ||| c == '\u{202F}'
    ||| c == '\u{205F}'
    ||| c == '\u{3000}'
}

pub(crate) fn is_whitespace(c: char) -> (w: bool)
    ensures
        w == is_unicode_whitespace(c),
{
    c == '\u{0009}' || c == '\u{000A}' || c == '\u{000B}' || c == '\u{000C}' || c == '\u{000D}'
        || c == '\u{0020}' || c == '\u{0085}' || c == '\u{00A0}' || c == '\u{1680}' || (
    '\u{2000}' <= c && c <= '\u{200A}') || c == '\u{2028}' || c == '\u{2029}' || c == '\u{202F}'
        || c == '\u{205F}' || c == '\u{3000}'
}

/// The number of leading whitespace characters of `s`.
pub open spec fn leading_space(s: Seq<char>) -> nat
    decreases s.len(),
{
    if s.len() > 0 && is_unicode_whitespace(s[0]) {
        1 + leading_space(s.drop_first())
    } else {
        0
    }
}

/// The number of trailing whitespace characters of `s`.
pub open spec fn trailing_space(s: Seq<char>) -> nat
    decreases s.len(),
{
    if s.len() > 0 && is_unicode_whitespace(s.last()) {
        1 + trailing_space(s.drop_last())
    } else {
        0
    }
}

/// `str::trim`: `s` without leading and trailing whitespace.
pub open spec fn trimmed(s: Seq<char>) -> Seq<char> {
    if leading_space(s) == s.len() {
        Seq::empty()
    } else {
        s.subrange(leading_space(s) as int, s.len() - trailing_space(s))
    }
}

proof fn lemma_leading_space(s: Seq<char>, k: int)
    requires
        0 <= k <= s.len(),
        forall|j: int| 0 <= j < k ==> is_unicode_whitespace(s[j]),
        k < s.len() ==> !is_unicode_whitespace(s[k]),
    ensures
        leading_space(s) == k,
    decreases k,
{
    if k > 0 {
        assert forall|j: int| 0 <= j < k - 1 implies is_unicode_whitespace(s.drop_first()[j]) by {
            assert(s.drop_first()[j] == s[j + 1]);
        }
        if k - 1 < s.drop_first().len() {
            assert(s.drop_first()[k - 1] == s[k]);
        }
        lemma_leading_space(s.drop_first(), k - 1);
    }
}

proof fn lemma_trailing_space(s: Seq<char>, k: int)
    requires
        0 <= k <= s.len(),
        forall|j: int| s.len() - k <= j < s.len() ==> is_unicode_whitespace(s[j]),
        k < s.len() ==> !is_unicode_whitespace(s[s.len() - k - 1]),
    ensures
        trailing_space(s) == k,
    decreases k,
{
    if k > 0 {
        assert forall|j: int|
            s.drop_last().len() - (k - 1) <= j < s.drop_last().len() implies is_unicode_whitespace(
            s.drop_last()[j],
        ) by {
            assert(s.drop_last()[j] == s[j]);
        }
        if k - 1 < s.drop_last().len() {
            assert(s.drop_last()[s.drop_last().len() - (k - 1) - 1] == s[s.len() - k - 1]);
        }
        lemma_trailing_space(s.drop_last(), k - 1);
    }
}

/// The ASCII uppercase form of a character: `a`..`z` become `A`..`Z`.
pub open spec fn ascii_upper_char(c: char) -> char {
    if 'a' <= c && c <= 'z' {
        ((c as u32) - 32) as char
    } else {
        c
    }
}

/// `str::to_ascii_uppercase`: ASCII letters raised, every other character kept.
pub open spec fn ascii_uppercase_of(s: Seq<char>) -> Seq<char> {
    s.map_values(|c: char| ascii_upper_char(c))
}

proof fn lemma_leading_space_facts(s: Seq<char>)
    ensures
        leading_space(s) <= s.len(),
        forall|j: int| 0 <= j < leading_space(s) ==> is_unicode_whitespace(#[trigger] s[j]),
        leading_space(s) < s.len() ==> !is_unicode_whitespace(s[leading_space(s) as int]),
    decreases s.len(),
{
    if s.len() > 0 && is_unicode_whitespace(s[0]) {
        let t = s.drop_first();
        lemma_leading_space_facts(t);
        assert forall|j: int| 0 <= j < leading_space(s) implies is_unicode_whitespace(
            #[trigger] s[j],
        ) by {
            if j > 0 {
                assert(s[j] == t[j - 1]);
            }
        }
        if leading_space(s) < s.len() {
            assert(s[leading_space(s) as int] == t[leading_space(t) as int]);
        }
    }
}

proof fn lemma_trailing_space_facts(s: Seq<char>)
    ensures
        trailing_space(s) <= s.len(),
        forall|j: int|
            s.len() - trailing_space(s) <= j < s.len() ==> is_unicode_whitespace(#[trigger] s[j]),
        trailing_space(s) < s.len() ==> !is_unicode_whitespace(
            s[s.len() - trailing_space(s) - 1],
        ),
    decreases s.len(),
{
    if s.len() > 0 && is_unicode_whitespace(s.last()) {
        let t = s.drop_last();
        lemma_trailing_space_facts(t);
        assert forall|j: int|
            s.len() - trailing_space(s) <= j < s.len() implies is_unicode_whitespace(
            #[trigger] s[j],
        ) by {
            if j < s.len() - 1 {
                assert(s[j] == t[j]);
            }
        }
        if trailing_space(s) < s.len() {
            assert(s[s.len() - trailing_space(s) - 1] == t[t.len() - trailing_space(t) - 1]);
        }
    }
}

/// Trimming what is already trimmed changes nothing.
pub proof fn lemma_trimmed_twice(s: Seq<char>)
    ensures
        trimmed(trimmed(s)) == trimmed(s),
{
    lemma_leading_space_facts(s);
    lemma_trailing_space_facts(s);
    let t = trimmed(s);
    if leading_space(s) < s.len() {
        let k = leading_space(s);
        let e = s.len() - trailing_space(s);
        assert(k < e) by {
            if e <= k {
                assert(is_unicode_whitespace(s[k as int]));
            }
        }
        assert(t[0] == s[k as int]);
        assert(t[t.len() - 1] == s[e - 1]);
        lemma_leading_space(t, 0);
        lemma_trailing_space(t, 0);
        assert(t.subrange(0, t.len() as int) =~= t);
    }
}

/// Trimming commutes with a character map that keeps whitespace apart from the rest.
proof fn lemma_trim_map(s: Seq<char>, f: spec_fn(char) -> char)
    requires
        forall|c: char| #[trigger] is_unicode_whitespace(f(c)) == is_unicode_whitespace(c),
    ensures
        trimmed(s.map_values(f)) == trimmed(s).map_values(f),
{
    let m = s.map_values(f);
    lemma_leading_space_facts(s);
    lemma_trailing_space_facts(s);
    let k = leading_space(s);
    let t = trailing_space(s);
    assert(forall|j: int| 0 <= j < s.len() ==> #[trigger] m[j] == f(s[j]));
    assert forall|j: int| 0 <= j < k implies is_unicode_whitespace(#[trigger] m[j]) by {
        assert(is_unicode_whitespace(s[j]));
        assert(m[j] == f(s[j]));
    }
    if k < s.len() {
        assert(m[k as int] == f(s[k as int]));
    }
    lemma_leading_space(m, k as int);
    if k == s.len() {
        assert(trimmed(s).map_values(f) =~= Seq::<char>::empty());
    } else {
        assert forall|j: int| m.len() - t <= j < m.len() implies is_unicode_whitespace(
            #[trigger] m[j],
        ) by {
            assert(is_unicode_whitespace(s[j]));
            assert(m[j] == f(s[j]));
        }
        if t < s.len() {
            assert(m[m.len() - t - 1] == f(s[s.len() - t - 1]));
        }
        lemma_trailing_space(m, t as int);
        assert(trimmed(m) =~= trimmed(s).map_values(f));
    }
}

/// Trimming commutes with ASCII lowering and raising.
pub proof fn lemma_trim_ascii_case(s: Seq<char>)
    ensures
        trimmed(ascii_lowercase_of(s)) == ascii_lowercase_of(trimmed(s)),
        trimmed(ascii_uppercase_of(s)) == ascii_uppercase_of(trimmed(s)),
{
    let lower = |c: char| ascii_lower_char(c);
    let upper = |c: char| ascii_upper_char(c);
    assert forall|c: char| #[trigger] is_unicode_whitespace(lower(c)) == is_unicode_whitespace(c) by {}
    assert forall|c: char| #[trigger] is_unicode_whitespace(upper(c)) == is_unicode_whitespace(c) by {}
    lemma_trim_map(s, lower);
    lemma_trim_map(s, upper);
}

/// Lowering ASCII letters after raising them is lowering them.
pub proof fn lemma_lower_of_upper(s: Seq<char>)
    ensures
        ascii_lowercase_of(ascii_uppercase_of(s)) == ascii_lowercase_of(s),
        ascii_lowercase_of(ascii_lowercase_of(s)) == ascii_lowercase_of(s),
{
    assert(ascii_lowercase_of(ascii_uppercase_of(s)) =~= ascii_lowercase_of(s));
    assert(ascii_lowercase_of(ascii_lowercase_of(s)) =~= ascii_lowercase_of(s));
}

/// `str::trim` followed by `to_owned`.
pub fn trim(s: &str) -> (t: String)
    ensures
        t@ == trimmed(s@),
{
    let n = s.unicode_len();
    let mut start: usize = 0;
    while start < n && is_whitespace(s.get_char(start))
        invariant
            start <= n == s@.len(),
            forall|j: int| 0 <= j < start ==> is_unicode_whitespace(s@[j]),
        decreases n - start,
    {
        start = start + 1;
    }
    proof {
        lemma_leading_space(s@, start as int);
    }
    if start == n {
        return String::new();
    }
    let mut end: usize = n;
    while end > start && is_whitespace(s.get_char(end - 1))
        invariant
            start < n == s@.len(),
            start <= end <= n,
            !is_unicode_whitespace(s@[start as int]),
            forall|j: int| end <= j < n ==> is_unicode_whitespace(s@[j]),
        decreases end - start,
    {
        end = end - 1;
    }
    proof {
        lemma_trailing_space(s@, (n - end) as int);
    }
    s.substring_char(start, end).to_owned()
}

} // verus!
