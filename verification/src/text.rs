//! Strings as sequences of characters: digits, searching and copying, and what is taken on
//! trust of the standard library.

use vstd::prelude::*;
use vstd::string::*;
use vstd::utf8::*;

verus! {

/// `std::string::String::push` appends one character.
pub assume_specification[ String::push ](s: &mut String, c: char)
    ensures
        final(s)@ == old(s)@.push(c),
;

/// `std::string::String::pop` takes the last character off, if there is one.
pub assume_specification[ String::pop ](s: &mut String) -> (last: Option<char>)
    ensures
        old(s)@.len() == 0 ==> last is None && final(s)@ == old(s)@,
        old(s)@.len() > 0 ==> last == Some(old(s)@.last()) && final(s)@ == old(s)@.drop_last(),
;

/// `str`'s `==`: two string slices are equal when they hold the same characters.
#[verifier::external_body]
pub(crate) fn str_eq(a: &str, b: &str) -> (r: bool)
    ensures
        r == (a@ == b@),
{
    a == b
}

/// `str::starts_with` with a string pattern.
#[verifier::external_body]
pub(crate) fn str_starts_with(s: &str, prefix: &str) -> (r: bool)
    ensures
        r == prefix@.is_prefix_of(s@),
{
    s.starts_with(prefix)
}

/// `str::ends_with` with a string pattern.
#[verifier::external_body]
pub(crate) fn str_ends_with(s: &str, suffix: &str) -> (r: bool)
    ensures
        r == suffix@.is_suffix_of(s@),
{
    s.ends_with(suffix)
}

/// `needle` stands in `hay` as an unbroken run of characters.
pub open spec fn has_substring(hay: Seq<char>, needle: Seq<char>) -> bool {
    exists|i: int| 0 <= i && i + needle.len() <= hay.len() && #[trigger] hay.subrange(i, i + needle.len()) == needle
}

/// `str::contains` with a string pattern.
#[verifier::external_body]
pub(crate) fn str_contains(s: &str, needle: &str) -> (r: bool)
    ensures
        r == has_substring(s@, needle@),
{
    s.contains(needle)
}

/// Every character of a text is ASCII.
pub open spec fn is_ascii(s: Seq<char>) -> bool {
    forall|i: int| 0 <= i < s.len() ==> #[trigger] s[i] < '\u{80}'
}

/// A character with its case set, if it is a capital letter of ASCII.
pub open spec fn ascii_lower_char(c: char) -> char {
    if 'A' <= c && c <= 'Z' {
        (c as u32 + 32) as char
    } else {
        c
    }
}

/// A text with the capital letters of ASCII in lower case.
pub open spec fn ascii_lower(s: Seq<char>) -> Seq<char> {
    s.map_values(|c: char| ascii_lower_char(c))
}

/// What `str::to_lowercase` makes of a text that is not all ASCII.
pub uninterp spec fn lowercase(s: Seq<char>) -> Seq<char>;

/// A text in lower case.
pub open spec fn lowered(s: Seq<char>) -> Seq<char> {
    if is_ascii(s) {
        ascii_lower(s)
    } else {
        lowercase(s)
    }
}

/// `str::to_lowercase`, the Unicode lowercase of the whole text. On ASCII it sets the letters
/// `A` to `Z` to `a` to `z` and leaves the rest. Of any other text the result depends on the
/// text alone; the mapping itself is left unsaid.
#[verifier::external_body]
pub(crate) fn str_to_lowercase(s: &str) -> (r: String)
    ensures
        is_ascii(s@) ==> r@ == ascii_lower(s@),
        !is_ascii(s@) ==> r@ == lowercase(s@),
{
    s.to_lowercase()
}

/// Two texts of ASCII are the same but for the case of their letters.
pub open spec fn same_but_for_case(a: Seq<char>, b: Seq<char>) -> bool {
    a == b || (is_ascii(a) && is_ascii(b) && ascii_lower(a) == ascii_lower(b))
}

/// Lower case does away with the case of letters.
pub proof fn lemma_lowered_alike(a: Seq<char>, b: Seq<char>)
    requires
        same_but_for_case(a, b),
    ensures
        lowered(a) == lowered(b),
        a.len() == 0 <==> b.len() == 0,
{
    if a != b {
        assert(ascii_lower(a).len() == a.len());
        assert(ascii_lower(b).len() == b.len());
    }
}

/// A part of an ASCII text is a part of it in lower case too.
pub proof fn lemma_lowered_part(s: Seq<char>, part: Seq<char>)
    requires
        is_ascii(s),
        has_substring(s, part),
    ensures
        is_ascii(part),
        has_substring(lowered(s), lowered(part)),
{
    let i = choose|i: int| 0 <= i && i + part.len() <= s.len() && #[trigger] s.subrange(i, i + part.len()) == part;
    let sub = s.subrange(i, i + part.len());
    assert forall|k: int| 0 <= k < part.len() implies #[trigger] part[k] < '\u{80}' by {
        assert(sub[k] == s[i + k]);
    }
    let low = lowered(s);
    assert(low.subrange(i, i + lowered(part).len()) =~= lowered(part)) by {
        assert forall|k: int| 0 <= k < part.len() implies low[i + k] == lowered(part)[k] by {
            assert(sub[k] == s[i + k]);
        }
    }
}

/// A part of a part is a part.
pub proof fn lemma_substring_transitive(hay: Seq<char>, needle: Seq<char>, part: Seq<char>)
    requires
        has_substring(hay, needle),
        has_substring(needle, part),
    ensures
        has_substring(hay, part),
{
    let i = choose|i: int| 0 <= i && i + needle.len() <= hay.len() && #[trigger] hay.subrange(i, i + needle.len())
        == needle;
    let j = choose|j: int| 0 <= j && j + part.len() <= needle.len() && #[trigger] needle.subrange(j, j + part.len())
        == part;
    assert(hay.subrange(i + j, i + j + part.len()) =~= needle.subrange(j, j + part.len()));
}

/// `std::str::from_utf8` gives the text that the bytes encode, and fails exactly on bytes
/// that are not UTF-8.
#[verifier::external_body]
pub(crate) fn str_from_utf8(bytes: &[u8]) -> (r: Option<&str>)
    ensures
        r is Some <==> valid_utf8(bytes@),
        r is Some ==> r->0@ == decode_utf8(bytes@),
{
    std::str::from_utf8(bytes).ok()
}

/// The text that bytes encode, if they are UTF-8.
pub open spec fn utf8_text(bytes: Seq<u8>) -> Option<Seq<char>> {
    if valid_utf8(bytes) {
        Some(decode_utf8(bytes))
    } else {
        None
    }
}

/// An optional string as an optional sequence of characters.
pub open spec fn opt_text(s: Option<String>) -> Option<Seq<char>> {
    match s {
        Some(v) => Some(v@),
        None => None,
    }
}

/// An optional string slice as an optional sequence of characters.
pub open spec fn opt_str_text(s: Option<&str>) -> Option<Seq<char>> {
    match s {
        Some(v) => Some(v@),
        None => None,
    }
}

/// The characters of a string.
pub fn chars_of(s: &str) -> (r: Vec<char>)
    ensures
        r@ == s@,
{
    let mut out: Vec<char> = Vec::new();
    for c in it: s.chars()
        invariant
            it.seq() == s@,
            out@ == s@.take(it.index() as int),
    {
        out.push(c);
        assert(out@ =~= s@.take(it.index() + 1));
    }
    assert(s@.take(s@.len() as int) =~= s@);
    out
}

/// Appends the characters from position `from` up to `to`.
pub fn append_chars(out: &mut String, v: &Vec<char>, from: usize, to: usize)
    requires
        from <= to <= v@.len(),
    ensures
        final(out)@ == old(out)@ + v@.subrange(from as int, to as int),
{
    let mut i: usize = from;
    assert(out@ =~= old(out)@ + v@.subrange(from as int, from as int));
    while i < to
        invariant
            from <= i <= to <= v@.len(),
            out@ == old(out)@ + v@.subrange(from as int, i as int),
        decreases to - i,
    {
        out.push(v[i]);
        i += 1;
        assert(out@ =~= old(out)@ + v@.subrange(from as int, i as int));
    }
}

/// The digit character for `d`, with lowercase letters from ten on.
pub open spec fn digit_char(d: int) -> char {
    if d < 10 {
        (48 + d) as char
    } else {
        (87 + d) as char
    }
}

/// The digits of `n` in `base`, most significant first, without leading zeros.
pub open spec fn digits(n: nat, base: nat) -> Seq<char>
    decreases n,
{
    if base < 2 || n < base {
        seq![digit_char(n as int)]
    } else {
        proof {
            assert(n / base < n) by (nonlinear_arith)
                requires
                    n >= base,
                    base >= 2,
            ;
        }
        digits(n / base, base).push(digit_char((n % base) as int))
    }
}

/// A number in decimal.
pub open spec fn decimal(n: nat) -> Seq<char> {
    digits(n, 10)
}

/// Appends the digits of `n` in `base`.
pub fn append_digits(out: &mut String, n: u128, base: u128)
    requires
        2 <= base <= 16,
    ensures
        final(out)@ == old(out)@ + digits(n as nat, base as nat),
    decreases n,
{
    if n >= base {
        assert(n / base < n) by (nonlinear_arith)
            requires
                n >= base,
                base >= 2,
        ;
        append_digits(out, n / base, base);
    }
    assert(n % base < base) by (nonlinear_arith)
        requires
            base >= 2,
    ;
    assert(n < base ==> n % base == n) by (nonlinear_arith)
        requires
            base >= 2,
    ;
    let d: u8 = (n % base) as u8;
    let c: char = if d < 10 {
        (48u8 + d) as char
    } else {
        (87u8 + d) as char
    };
    out.push(c);
    assert(out@ =~= old(out)@ + digits(n as nat, base as nat));
}

/// A number in decimal.
pub fn decimal_string(n: u128) -> (r: String)
    ensures
        r@ == decimal(n as nat),
{
    let mut out = String::new();
    append_digits(&mut out, n, 10);
    out
}

/// The texts of strings.
pub open spec fn texts(v: Seq<String>) -> Seq<Seq<char>> {
    v.map_values(|s: String| s@)
}

/// The position of the last slash, or -1.
pub open spec fn last_slash(p: Seq<char>) -> int
    decreases p.len(),
{
    if p.len() == 0 {
        -1
    } else if p.last() == '/' {
        p.len() - 1
    } else {
        last_slash(p.drop_last())
    }
}

proof fn lemma_last_slash(p: Seq<char>)
    ensures
        -1 <= last_slash(p) < p.len(),
        last_slash(p) >= 0 ==> p[last_slash(p)] == '/',
        forall|k: int| last_slash(p) < k < p.len() ==> p[k] != '/',
    decreases p.len(),
{
    if p.len() > 0 && p.last() != '/' {
        let d = p.drop_last();
        lemma_last_slash(d);
        assert forall|k: int| last_slash(p) < k < p.len() implies p[k] != '/' by {
            if k < d.len() {
                assert(p[k] == d[k]);
            }
        }
    }
}

/// A slash with none behind it is the last one; so is the place before a text without one.
pub proof fn lemma_last_slash_at(p: Seq<char>, i: int)
    requires
        -1 <= i < p.len(),
        i >= 0 ==> p[i] == '/',
        forall|k: int| i < k < p.len() ==> p[k] != '/',
    ensures
        last_slash(p) == i,
{
    lemma_last_slash(p);
}

/// What stands between two texts is found in what they make up together.
pub proof fn lemma_substring_is_a_part(hay: Seq<char>, before: Seq<char>, needle: Seq<char>, after: Seq<char>)
    requires
        hay == before + needle + after,
    ensures
        has_substring(hay, needle),
{
    let i = before.len() as int;
    assert(hay.subrange(i, i + needle.len()) =~= needle);
}

/// A text with a needle in it is something, the needle, and something.
pub proof fn lemma_part_splits(hay: Seq<char>, needle: Seq<char>)
    requires
        has_substring(hay, needle),
    ensures
        exists|a: Seq<char>, b: Seq<char>| hay == #[trigger] (a + needle + b),
        needle.len() <= hay.len(),
{
    let i = choose|i: int| 0 <= i && i + needle.len() <= hay.len() && #[trigger] hay.subrange(i, i + needle.len())
        == needle;
    let a = hay.take(i);
    let b = hay.skip(i + needle.len());
    assert(a + needle + b =~= hay);
}

/// The number that digits write in a base.
pub open spec fn number_of(s: Seq<char>, base: nat) -> nat
    decreases s.len(),
{
    if s.len() == 0 {
        0
    } else {
        number_of(s.drop_last(), base) * base + (if '0' <= s.last() && s.last() <= '9' {
            (s.last() as nat - 48) as nat
        } else {
            (s.last() as nat - 87) as nat
        })
    }
}

/// The digits of a number write it, in decimal and in hexadecimal, without leading zeros.
pub proof fn lemma_digits_write_the_number(n: nat, base: nat)
    requires
        2 <= base <= 16,
    ensures
        number_of(digits(n, base), base) == n,
        digits(n, base).len() > 0,
        digits(n, base)[0] == '0' ==> n == 0 && digits(n, base).len() == 1,
        forall|i: int|
            0 <= i < digits(n, base).len() ==> ('0' <= #[trigger] digits(n, base)[i] <= '9') || ('a' <= digits(
                n,
                base,
            )[i] <= 'f'),
        base <= 10 ==> forall|i: int| 0 <= i < digits(n, base).len() ==> '0' <= #[trigger] digits(n, base)[i] <= '9',
    decreases n,
{
    reveal_with_fuel(number_of, 2);
    let d = digits(n, base);
    if n < base {
        assert(d.drop_last() =~= Seq::<char>::empty());
        assert(d.last() == digit_char(n as int));
    } else {
        assert(n / base < n) by (nonlinear_arith)
            requires
                n >= base,
                base >= 2,
        ;
        assert(n / base > 0) by (nonlinear_arith)
            requires
                n >= base,
                base >= 2,
        ;
        assert(0 <= n % base < base) by (nonlinear_arith)
            requires
                base >= 2,
        ;
        assert((n / base) * base + n % base == n) by (nonlinear_arith)
            requires
                base >= 2,
        ;
        lemma_digits_write_the_number(n / base, base);
        let e = digits(n / base, base);
        assert(d.drop_last() =~= e);
        assert(d[0] == e[0]);
        assert forall|i: int| 0 <= i < d.len() implies ('0' <= #[trigger] d[i] <= '9') || ('a' <= d[i] <= 'f') by {
            if i < e.len() {
                assert(d[i] == e[i]);
            }
        }
        if base <= 10 {
            assert forall|i: int| 0 <= i < d.len() implies '0' <= #[trigger] d[i] <= '9' by {
                if i < e.len() {
                    assert(d[i] == e[i]);
                }
            }
        }
    }
}

/// A decimal number is written in base ten.
pub proof fn lemma_decimal_writes_the_number(n: nat)
    ensures
        number_of(decimal(n), 10) == n,
        decimal(n).len() > 0,
        n > 0 ==> decimal(n)[0] != '0',
        forall|i: int| 0 <= i < decimal(n).len() ==> '0' <= #[trigger] decimal(n)[i] <= '9',
{
    lemma_digits_write_the_number(n, 10);
}

/// What comes behind the last slash has none, and a text without one has none.
pub proof fn lemma_last_slash_splits(a: Seq<char>, b: Seq<char>)
    requires
        forall|i: int| 0 <= i < b.len() ==> b[i] != '/',
    ensures
        last_slash(a + seq!['/'] + b) == a.len(),
        last_slash(b) == -1,
{
    let p = a + seq!['/'] + b;
    assert forall|k: int| a.len() < k < p.len() implies p[k] != '/' by {
        assert(p[k] == b[k - a.len() - 1]);
    }
    lemma_last_slash_at(p, a.len() as int);
    lemma_last_slash_at(b, -1);
}

/// Lower case on ASCII: letters change, everything else stays, nothing is added or lost.
pub proof fn lemma_lowered_letters(s: Seq<char>, i: int)
    requires
        0 <= i < s.len(),
        forall|k: int| 0 <= k < s.len() ==> #[trigger] s[k] <= '\u{7f}',
    ensures
        lowered(s).len() == s.len(),
        'A' <= s[i] <= 'Z' ==> lowered(s)[i] as int == s[i] as int + 32,
        !('A' <= s[i] <= 'Z') ==> lowered(s)[i] == s[i],
{
    assert(is_ascii(s));
}

/// Texts behind options, references and lists are the texts themselves.
pub proof fn lemma_texts_are_the_texts(s: String, t: &str, v: Seq<String>, i: int, b: Seq<u8>)
    ensures
        opt_text(Some(s)) == Some(s@),
        opt_text(None) is None,
        opt_str_text(Some(t)) == Some(t@),
        opt_str_text(None) is None,
        texts(v).len() == v.len(),
        0 <= i < v.len() ==> texts(v)[i] == v[i]@,
        valid_utf8(b) ==> utf8_text(b) == Some(decode_utf8(b)),
        !valid_utf8(b) ==> utf8_text(b) is None,
{
}

} // verus!
