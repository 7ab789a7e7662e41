//! The text of rule files: quoting a value, and switching the `enabled` flag while leaving
//! everything else as it stands.

use vstd::prelude::*;
use vstd::string::*;

use crate::text;

verus! {

/// A character as it stands in a quoted value: backslashes and double quotes get a
/// backslash in front.
pub open spec fn escaped_char(c: char) -> Seq<char> {
    if c == '\\' || c == '"' {
        seq!['\\', c]
    } else {
        seq![c]
    }
}

/// A text as it stands between the quotes of a value.
pub open spec fn escaped(s: Seq<char>) -> Seq<char>
    decreases s.len(),
{
    if s.len() == 0 {
        Seq::empty()
    } else {
        escaped_char(s[0]) + escaped(s.skip(1))
    }
}

/// Reads a value up to its closing quote: the text that it holds, and where the quote
/// stands. A backslash takes the character after it as it is.
pub open spec fn read_value(t: Seq<char>) -> Option<(Seq<char>, int)>
    decreases t.len(),
{
    if t.len() == 0 {
        None
    } else if t[0] == '"' {
        Some((Seq::empty(), 0))
    } else if t[0] == '\\' {
        if t.len() < 2 {
            None
        } else {
            match read_value(t.skip(2)) {
                Some((s, end)) => Some((seq![t[1]] + s, end + 2)),
                None => None,
            }
        }
    } else {
        match read_value(t.skip(1)) {
            Some((s, end)) => Some((seq![t[0]] + s, end + 1)),
            None => None,
        }
    }
}

/// A quoted value reads back as the text that was quoted, and ends where it was ended.
pub proof fn lemma_quoted_value_reads_back(s: Seq<char>, rest: Seq<char>)
    ensures
        read_value(escaped(s) + seq!['"'] + rest) == Some((s, escaped(s).len() as int)),
    decreases s.len(),
{
    let t = escaped(s) + seq!['"'] + rest;
    if s.len() > 0 {
        let tail = s.skip(1);
        let u = escaped(tail) + seq!['"'] + rest;
        lemma_quoted_value_reads_back(tail, rest);
        if s[0] == '\\' || s[0] == '"' {
            assert(t.skip(2) =~= u);
            assert(seq![t[1]] + tail =~= s);
        } else {
            assert(t.skip(1) =~= u);
            assert(seq![t[0]] + tail =~= s);
        }
    }
}

/// Quotes a text for use between double quotes.
pub fn toml_escape(s: &str) -> (r: String)
    ensures
        r@ == escaped(s@),
{
    let mut out = String::new();
    assert(s@.skip(0) =~= s@);
    assert(out@ + escaped(s@.skip(0)) =~= escaped(s@));
    for c in it: s.chars()
        invariant
            it.seq() == s@,
            out@ + escaped(s@.skip(it.index() as int)) == escaped(s@),
    {
        let ghost before = out@;
        if c == '\\' || c == '"' {
            out.push('\\');
        }
        out.push(c);
        proof {
            let i = it.index() as int;
            assert(s@.skip(i)[0] == c);
            assert(s@.skip(i).skip(1) =~= s@.skip(i + 1));
            assert(out@ =~= before + escaped_char(c));
            assert(out@ + escaped(s@.skip(i + 1)) =~= before + (escaped_char(c) + escaped(s@.skip(i + 1))));
        }
    }
    assert(out@ + escaped(s@.skip(s@.len() as int)) =~= out@);
    out
}

pub open spec fn is_blank(c: char) -> bool {
    c == ' ' || c == '\t'
}

pub open spec fn is_letter(c: char) -> bool {
    ('a' <= c && c <= 'z') || ('A' <= c && c <= 'Z')
}

/// How many blanks a text begins with.
pub open spec fn blanks_len(s: Seq<char>) -> int
    decreases s.len(),
{
    if s.len() > 0 && is_blank(s[0]) {
        1 + blanks_len(s.skip(1))
    } else {
        0
    }
}

/// How many letters a text begins with.
pub open spec fn letters_len(s: Seq<char>) -> int
    decreases s.len(),
{
    if s.len() > 0 && is_letter(s[0]) {
        1 + letters_len(s.skip(1))
    } else {
        0
    }
}

/// The value of a hexadecimal digit.
pub open spec fn hex_digit(c: char) -> Option<int> {
    if '0' <= c && c <= '9' {
        Some(c as int - 48)
    } else if 'a' <= c && c <= 'f' {
        Some(c as int - 87)
    } else if 'A' <= c && c <= 'F' {
        Some(c as int - 55)
    } else {
        None
    }
}

/// The number that the first `n` characters write in hexadecimal.
pub open spec fn hex_value(s: Seq<char>, n: nat) -> Option<int>
    decreases n,
{
    if n == 0 {
        Some(0)
    } else if s.len() < n {
        None
    } else {
        match (hex_value(s, (n - 1) as nat), hex_digit(s[n - 1])) {
            (Some(high), Some(low)) => Some(high * 16 + low),
            _ => None,
        }
    }
}

/// How many characters stand for `c` at the front of a text between double quotes: the
/// character itself, or its number in four or in eight hexadecimal digits.
pub open spec fn written_len(s: Seq<char>, c: char) -> Option<int> {
    if s.len() > 0 && s[0] == c {
        Some(1)
    } else if s.len() > 1 && s[0] == '\\' && s[1] == 'u' && hex_value(s.skip(2), 4) == Some(c as int) {
        Some(6)
    } else if s.len() > 1 && s[0] == '\\' && s[1] == 'U' && hex_value(s.skip(2), 8) == Some(c as int) {
        Some(10)
    } else {
        None
    }
}

/// How many characters write `word` at the front of a text between double quotes.
pub open spec fn spelled_len(s: Seq<char>, word: Seq<char>) -> Option<int>
    decreases word.len(),
{
    if word.len() == 0 {
        Some(0)
    } else {
        match written_len(s, word[0]) {
            Some(n) => match spelled_len(s.skip(n), word.skip(1)) {
                Some(m) => Some(n + m),
                None => None,
            },
            None => None,
        }
    }
}

/// How many characters the key `enabled` takes at the front of a text: bare, in single
/// quotes, or in double quotes.
pub open spec fn key_len(s: Seq<char>) -> Option<int> {
    if s.len() > 0 && s[0] == '"' {
        match spelled_len(s.skip(1), "enabled"@) {
            Some(n) => if n + 1 < s.len() && s[n + 1] == '"' {
                Some(n + 2)
            } else {
                None
            },
            None => None,
        }
    } else if s.len() > 0 && s[0] == '\'' {
        if s.len() > 8 && s.subrange(1, 8) == "enabled"@ && s[8] == '\'' {
            Some(9)
        } else {
            None
        }
    } else if s.len() >= 7 && s.take(7) == "enabled"@ {
        Some(7)
    } else {
        None
    }
}

/// How many characters a line takes up to and with the equals sign, if it sets `enabled`.
pub open spec fn equals_len(line: Seq<char>) -> Option<int> {
    let a = blanks_len(line);
    match key_len(line.skip(a)) {
        Some(k) => {
            let b = a + k + blanks_len(line.skip(a + k));
            if b < line.len() && line[b] == '=' {
                Some(b + 1)
            } else {
                None
            }
        },
        None => None,
    }
}

/// Where the value stands in a line that sets `enabled`.
pub open spec fn value_offset(line: Seq<char>) -> int {
    let q = equals_len(line)->0;
    q + blanks_len(line.skip(q))
}

/// What a reader of a rule file is in the middle of.
pub enum Place {
    /// At the start of a line of the top table.
    LineStart,
    /// Behind blanks at the start of such a line.
    Indent,
    /// In a statement, inside so many brackets.
    Plain(nat),
    Comment(nat),
    /// Behind one opening quote.
    Opened(char, nat),
    /// Behind two quotes: an empty string, or two thirds of an opening.
    OpenedTwice(char, nat),
    /// In a string of one line.
    Line(char, nat),
    /// Behind a backslash in such a string.
    LineEscape(nat),
    /// In a string of many lines, behind so many quotes.
    Multi(char, nat, nat),
    /// Behind a backslash in such a string.
    MultiEscape(nat),
    /// Behind the closing quotes of such a string and so many quotes more.
    Closed(char, nat, nat),
    /// Past the header of a table: the top table is over.
    Past,
}

/// Behind a line feed that ends what it stands in.
pub open spec fn line_end(depth: nat) -> Place {
    if depth == 0 {
        Place::LineStart
    } else {
        Place::Plain(depth)
    }
}

/// Behind a character outside strings and comments.
pub open spec fn plain_step(depth: nat, c: char) -> Place {
    if c == '\n' {
        line_end(depth)
    } else if c == '#' {
        Place::Comment(depth)
    } else if c == '"' || c == '\'' {
        Place::Opened(c, depth)
    } else if c == '[' || c == '{' {
        Place::Plain(depth + 1)
    } else if (c == ']' || c == '}') && depth > 0 {
        Place::Plain((depth - 1) as nat)
    } else {
        Place::Plain(depth)
    }
}

/// Behind a character in a string of one line. Only between double quotes does a backslash
/// escape; a line feed ends the string in any case.
pub open spec fn line_step(q: char, depth: nat, c: char) -> Place {
    if c == '\n' {
        line_end(depth)
    } else if c == q {
        Place::Plain(depth)
    } else if c == '\\' && q == '"' {
        Place::LineEscape(depth)
    } else {
        Place::Line(q, depth)
    }
}

/// What a reader is in the middle of one character later.
pub open spec fn step(p: Place, c: char) -> Place {
    match p {
        Place::LineStart | Place::Indent => if is_blank(c) {
            Place::Indent
        } else if c == '[' {
            Place::Past
        } else {
            plain_step(0, c)
        },
        Place::Plain(depth) => plain_step(depth, c),
        Place::Comment(depth) => if c == '\n' {
            line_end(depth)
        } else {
            Place::Comment(depth)
        },
        Place::Opened(q, depth) => if c == q {
            Place::OpenedTwice(q, depth)
        } else {
            line_step(q, depth, c)
        },
        Place::OpenedTwice(q, depth) => if c == q {
            Place::Multi(q, 0, depth)
        } else {
            plain_step(depth, c)
        },
        Place::Line(q, depth) => line_step(q, depth, c),
        Place::LineEscape(depth) => if c == '\n' {
            line_end(depth)
        } else {
            Place::Line('"', depth)
        },
        Place::Multi(q, quotes, depth) => if c == q {
            if quotes == 2 {
                Place::Closed(q, 0, depth)
            } else {
                Place::Multi(q, quotes + 1, depth)
            }
        } else if c == '\\' && q == '"' {
            Place::MultiEscape(depth)
        } else {
            Place::Multi(q, 0, depth)
        },
        Place::MultiEscape(depth) => Place::Multi('"', 0, depth),
        Place::Closed(q, more, depth) => if c == q && more < 2 {
            Place::Closed(q, more + 1, depth)
        } else {
            plain_step(depth, c)
        },
        Place::Past => Place::Past,
    }
}

/// Where the text of a file begins: behind a byte order mark, if there is one.
pub open spec fn text_start(s: Seq<char>) -> int {
    if s.len() > 0 && s[0] == '\u{feff}' {
        1
    } else {
        0
    }
}

/// What a reader is in the middle of after `i` characters.
pub open spec fn place_at(s: Seq<char>, i: int) -> Place
    decreases i,
{
    if i <= text_start(s) {
        Place::LineStart
    } else {
        step(place_at(s, i - 1), s[i - 1])
    }
}

/// A line that sets the `enabled` key of the top table begins at `i`.
pub open spec fn is_setting(s: Seq<char>, i: int) -> bool {
    &&& text_start(s) <= i < s.len()
    &&& place_at(s, i) is LineStart
    &&& equals_len(s.skip(i)) is Some
}

/// The first line from `i` on that sets the key.
pub open spec fn first_setting(s: Seq<char>, i: int) -> Option<int>
    decreases s.len() - i,
{
    if i >= s.len() {
        None
    } else if is_setting(s, i) {
        Some(i)
    } else {
        first_setting(s, i + 1)
    }
}

/// Where the value of the key stands, if the top table sets it.
pub open spec fn find_flag(s: Seq<char>) -> Option<int> {
    match first_setting(s, text_start(s)) {
        Some(i) => Some(i + value_offset(s.skip(i))),
        None => None,
    }
}

/// The word that stands at a position.
pub open spec fn word_at(s: Seq<char>, v: int) -> Seq<char> {
    s.subrange(v, v + letters_len(s.skip(v)))
}

pub open spec fn flag_word(enabled: bool) -> Seq<char> {
    if enabled {
        "true"@
    } else {
        "false"@
    }
}

/// The line that sets the key.
pub open spec fn flag_line(enabled: bool) -> Seq<char> {
    "enabled = "@ + flag_word(enabled) + "\n"@
}

/// A rule file with its `enabled` key set: the word behind the key changes, and nothing
/// else; a file whose top table does not set the key gets it as a line of its own at the
/// top.
pub open spec fn with_enabled(s: Seq<char>, enabled: bool) -> Seq<char> {
    match find_flag(s) {
        Some(v) => s.take(v) + flag_word(enabled) + s.skip(v + letters_len(s.skip(v))),
        None => s.take(text_start(s)) + flag_line(enabled) + s.skip(text_start(s)),
    }
}

proof fn lemma_blanks(s: Seq<char>)
    ensures
        0 <= blanks_len(s) <= s.len(),
        blanks_len(s) < s.len() ==> !is_blank(s[blanks_len(s)]),
        forall|k: int| 0 <= k < blanks_len(s) ==> is_blank(#[trigger] s[k]),
    decreases s.len(),
{
    if s.len() > 0 && is_blank(s[0]) {
        let t = s.skip(1);
        lemma_blanks(t);
        assert forall|k: int| 0 <= k < blanks_len(s) implies is_blank(#[trigger] s[k]) by {
            if k > 0 {
                assert(t[k - 1] == s[k]);
            }
        }
    }
}

proof fn lemma_blanks_at(s: Seq<char>, n: int)
    requires
        0 <= n <= s.len(),
        forall|k: int| 0 <= k < n ==> is_blank(#[trigger] s[k]),
        n < s.len() ==> !is_blank(s[n]),
    ensures
        blanks_len(s) == n,
{
    lemma_blanks(s);
    if blanks_len(s) < n {
        assert(is_blank(s[blanks_len(s)]));
    }
    if n < blanks_len(s) {
        assert(is_blank(s[n]));
    }
}

proof fn lemma_letters(s: Seq<char>)
    ensures
        0 <= letters_len(s) <= s.len(),
        letters_len(s) < s.len() ==> !is_letter(s[letters_len(s)]),
        forall|k: int| 0 <= k < letters_len(s) ==> is_letter(#[trigger] s[k]),
    decreases s.len(),
{
    if s.len() > 0 && is_letter(s[0]) {
        let t = s.skip(1);
        lemma_letters(t);
        assert forall|k: int| 0 <= k < letters_len(s) implies is_letter(#[trigger] s[k]) by {
            if k > 0 {
                assert(t[k - 1] == s[k]);
            }
        }
    }
}

proof fn lemma_letters_at(s: Seq<char>, n: int)
    requires
        0 <= n <= s.len(),
        forall|k: int| 0 <= k < n ==> is_letter(#[trigger] s[k]),
        n < s.len() ==> !is_letter(s[n]),
    ensures
        letters_len(s) == n,
{
    lemma_letters(s);
    if letters_len(s) < n {
        assert(is_letter(s[letters_len(s)]));
    }
    if n < letters_len(s) {
        assert(is_letter(s[n]));
    }
}

/// Two texts begin alike for `n` characters.
spec fn alike(s: Seq<char>, t: Seq<char>, n: int) -> bool {
    &&& n <= s.len()
    &&& n <= t.len()
    &&& forall|k: int| 0 <= k < n ==> #[trigger] s[k] == t[k]
}

proof fn lemma_hex(s: Seq<char>, t: Seq<char>, n: nat)
    requires
        hex_value(s, n) is Some,
        alike(s, t, n as int),
    ensures
        hex_value(t, n) == hex_value(s, n),
        forall|k: int| 0 <= k < n ==> hex_digit(#[trigger] s[k]) is Some,
    decreases n,
{
    if n > 0 {
        lemma_hex(s, t, (n - 1) as nat);
    }
}

/// What writes a word between double quotes is the same in a text that begins alike, holds
/// neither a line feed nor a quote, and leaves a reader in the string.
proof fn lemma_spelled(s: Seq<char>, word: Seq<char>)
    requires
        spelled_len(s, word) is Some,
        forall|k: int| 0 <= k < word.len() ==> is_letter(#[trigger] word[k]),
    ensures
        word.len() <= spelled_len(s, word)->0 <= s.len(),
        forall|k: int| 0 <= k < spelled_len(s, word)->0 ==> (#[trigger] s[k]) != '\n' && s[k] != '"',
        forall|t: Seq<char>| #[trigger]
            alike(s, t, spelled_len(s, word)->0) ==> spelled_len(t, word) == spelled_len(s, word),
    decreases word.len(),
{
    if word.len() > 0 {
        let n = written_len(s, word[0])->0;
        let rest = s.skip(n);
        let more = word.skip(1);
        assert forall|k: int| 0 <= k < more.len() implies is_letter(#[trigger] more[k]) by {
            assert(more[k] == word[k + 1]);
        }
        lemma_written(s, word[0]);
        lemma_spelled(rest, more);
        let m = spelled_len(rest, more)->0;
        assert forall|k: int| 0 <= k < n + m implies (#[trigger] s[k]) != '\n' && s[k] != '"' by {
            if k >= n {
                assert(rest[k - n] == s[k]);
            }
        }
        assert forall|t: Seq<char>| #[trigger] alike(s, t, n + m) implies spelled_len(t, word) == spelled_len(
            s,
            word,
        ) by {
            assert(alike(s, t, n));
            assert(written_len(t, word[0]) == Some(n));
            assert forall|k: int| 0 <= k < m implies #[trigger] rest[k] == t.skip(n)[k] by {
                assert(s[k + n] == t[k + n]);
            }
            assert(alike(rest, t.skip(n), m));
        }
    }
}

proof fn lemma_written(s: Seq<char>, c: char)
    requires
        written_len(s, c) is Some,
        is_letter(c),
    ensures
        1 <= written_len(s, c)->0 <= s.len(),
        forall|k: int| 0 <= k < written_len(s, c)->0 ==> (#[trigger] s[k]) != '\n' && s[k] != '"',
        forall|t: Seq<char>| #[trigger]
            alike(s, t, written_len(s, c)->0) ==> written_len(t, c) == written_len(s, c),
{
    let n = written_len(s, c)->0;
    let digits = s.skip(2);
    if n > 1 {
        lemma_hex(digits, digits, (n - 2) as nat);
        assert forall|k: int| 0 <= k < n implies (#[trigger] s[k]) != '\n' && s[k] != '"' by {
            if k >= 2 {
                assert(digits[k - 2] == s[k]);
                assert(hex_digit(digits[k - 2]) is Some);
            }
        }
    }
    assert forall|t: Seq<char>| #[trigger] alike(s, t, n) implies written_len(t, c) == written_len(s, c) by {
        assert(s[0] == t[0]);
        if n > 1 {
            assert(s[1] == t[1]);
            assert forall|k: int| 0 <= k < n - 2 implies #[trigger] digits[k] == t.skip(2)[k] by {
                assert(s[k + 2] == t[k + 2]);
            }
            lemma_hex(digits, t.skip(2), (n - 2) as nat);
        }
    }
}

/// The key is the same in a text that begins alike, and holds no line feed.
proof fn lemma_key(s: Seq<char>)
    requires
        key_len(s) is Some,
    ensures
        0 < key_len(s)->0 <= s.len(),
        !is_blank(s[0]),
        forall|k: int| 0 <= k < key_len(s)->0 ==> (#[trigger] s[k]) != '\n',
        forall|t: Seq<char>| #[trigger] alike(s, t, key_len(s)->0) ==> key_len(t) == key_len(s),
{
    reveal_strlit("enabled");
    let word = "enabled"@;
    let n = key_len(s)->0;
    if s[0] == '"' {
        let inner = s.skip(1);
        lemma_spelled(inner, word);
        let m = spelled_len(inner, word)->0;
        assert forall|k: int| 0 <= k < n implies (#[trigger] s[k]) != '\n' by {
            if 1 <= k < n - 1 {
                assert(inner[k - 1] == s[k]);
            }
        }
        assert forall|t: Seq<char>| #[trigger] alike(s, t, n) implies key_len(t) == key_len(s) by {
            assert(s[0] == t[0] && s[n - 1] == t[n - 1]);
            assert forall|k: int| 0 <= k < m implies #[trigger] inner[k] == t.skip(1)[k] by {
                assert(s[k + 1] == t[k + 1]);
            }
            assert(alike(inner, t.skip(1), m));
        }
    } else if s[0] == '\'' {
        assert forall|k: int| 0 <= k < n implies (#[trigger] s[k]) != '\n' by {
            if 1 <= k < 8 {
                assert(s.subrange(1, 8)[k - 1] == s[k]);
            }
        }
        assert forall|t: Seq<char>| #[trigger] alike(s, t, n) implies key_len(t) == key_len(s) by {
            assert(s[0] == t[0] && s[8] == t[8]);
            assert(t.subrange(1, 8) =~= s.subrange(1, 8));
        }
    } else {
        assert forall|k: int| 0 <= k < n implies is_letter(#[trigger] s[k]) by {
            assert(s.take(7)[k] == s[k]);
        }
        assert forall|t: Seq<char>| #[trigger] alike(s, t, n) implies key_len(t) == key_len(s) by {
            assert(s[0] == t[0]);
            assert(t.take(7) =~= s.take(7));
        }
    }
}

/// A line that sets the key is told by what stands up to its equals sign, which holds no
/// line feed.
proof fn lemma_equals(s: Seq<char>)
    requires
        equals_len(s) is Some,
    ensures
        0 < equals_len(s)->0 <= s.len(),
        forall|k: int| 0 <= k < equals_len(s)->0 ==> (#[trigger] s[k]) != '\n',
        forall|t: Seq<char>| #[trigger] alike(s, t, equals_len(s)->0) ==> equals_len(t) == equals_len(s),
{
    let a = blanks_len(s);
    let rest = s.skip(a);
    lemma_blanks(s);
    lemma_key(rest);
    let k0 = key_len(rest)->0;
    let tail = s.skip(a + k0);
    lemma_blanks(tail);
    let q = equals_len(s)->0;
    assert forall|k: int| 0 <= k < q implies (#[trigger] s[k]) != '\n' by {
        if a <= k < a + k0 {
            assert(rest[k - a] == s[k]);
        } else if a + k0 <= k < q - 1 {
            assert(tail[k - a - k0] == s[k]);
        }
    }
    assert forall|t: Seq<char>| #[trigger] alike(s, t, q) implies equals_len(t) == equals_len(s) by {
        assert forall|k: int| 0 <= k < a implies is_blank(#[trigger] t[k]) by {
            assert(s[k] == t[k]);
        }
        assert(rest[0] == s[a] && s[a] == t[a]);
        lemma_blanks_at(t, a);
        assert forall|k: int| 0 <= k < k0 implies #[trigger] rest[k] == t.skip(a)[k] by {
            assert(s[k + a] == t[k + a]);
        }
        assert(alike(rest, t.skip(a), k0));
        let other = t.skip(a + k0);
        let b = blanks_len(tail);
        assert forall|k: int| 0 <= k < b implies is_blank(#[trigger] other[k]) by {
            assert(tail[k] == s[k + a + k0] && s[k + a + k0] == t[k + a + k0]);
        }
        assert(s[q - 1] == t[q - 1]);
        assert(other[b] == t[q - 1]);
        lemma_blanks_at(other, b);
    }
}

proof fn lemma_value(s: Seq<char>)
    requires
        equals_len(s) is Some,
    ensures
        equals_len(s)->0 <= value_offset(s) <= s.len(),
        value_offset(s) < s.len() ==> !is_blank(s[value_offset(s)]),
        forall|k: int| equals_len(s)->0 <= k < value_offset(s) ==> is_blank(#[trigger] s[k]),
{
    lemma_equals(s);
    let q = equals_len(s)->0;
    let tail = s.skip(q);
    lemma_blanks(tail);
    assert forall|k: int| q <= k < value_offset(s) implies is_blank(#[trigger] s[k]) by {
        assert(tail[k - q] == s[k]);
    }
}

proof fn lemma_first_setting(s: Seq<char>, i: int)
    requires
        text_start(s) <= i,
    ensures
        match first_setting(s, i) {
            Some(p) => i <= p && is_setting(s, p) && forall|j: int| i <= j < p ==> !is_setting(s, j),
            None => forall|j: int| i <= j ==> !is_setting(s, j),
        },
    decreases s.len() - i,
{
    if i < s.len() && !is_setting(s, i) {
        lemma_first_setting(s, i + 1);
    }
}

proof fn lemma_first_setting_at(s: Seq<char>, i: int, p: int)
    requires
        text_start(s) <= i <= p,
        is_setting(s, p),
        forall|j: int| i <= j < p ==> !is_setting(s, j),
    ensures
        first_setting(s, i) == Some(p),
    decreases p - i,
{
    if i < p {
        lemma_first_setting_at(s, i + 1, p);
    }
}

/// A reader is in the same place in texts that are alike so far.
proof fn lemma_same_place(s: Seq<char>, t: Seq<char>, i: int)
    requires
        alike(s, t, i),
        text_start(s) == text_start(t),
    ensures
        place_at(s, i) == place_at(t, i),
    decreases i,
{
    if i > text_start(s) {
        lemma_same_place(s, t, i - 1);
        assert(s[i - 1] == t[i - 1]);
    }
}

/// A reader who is in the same place in two texts stays so while they go on alike.
proof fn lemma_same_place_on(s: Seq<char>, i: int, t: Seq<char>, j: int, n: int)
    requires
        text_start(s) <= i,
        text_start(t) <= j,
        0 <= n,
        i + n <= s.len(),
        j + n <= t.len(),
        place_at(s, i) == place_at(t, j),
        s.subrange(i, i + n) == t.subrange(j, j + n),
    ensures
        place_at(s, i + n) == place_at(t, j + n),
    decreases n,
{
    if n > 0 {
        let a = s.subrange(i, i + n);
        let b = t.subrange(j, j + n);
        assert(s.subrange(i, i + n - 1) =~= a.take(n - 1));
        assert(t.subrange(j, j + n - 1) =~= b.take(n - 1));
        lemma_same_place_on(s, i, t, j, n - 1);
        assert(a[n - 1] == s[i + n - 1] && b[n - 1] == t[j + n - 1]);
    }
}

/// Every line but the first begins behind a line feed.
proof fn lemma_line_start(s: Seq<char>, i: int)
    requires
        text_start(s) < i,
        place_at(s, i) is LineStart,
    ensures
        s[i - 1] == '\n',
{
}

/// A reader who is in a statement stays there over characters that open and close nothing.
proof fn lemma_plain_run(s: Seq<char>, i: int, j: int)
    requires
        text_start(s) <= i <= j <= s.len(),
        place_at(s, i) == Place::Plain(0),
        forall|k: int| i <= k < j ==> is_blank(#[trigger] s[k]) || s[k] == '=' || is_letter(s[k]),
    ensures
        place_at(s, j) == Place::Plain(0),
    decreases j - i,
{
    if i < j {
        lemma_plain_run(s, i, j - 1);
        assert(is_blank(s[j - 1]) || s[j - 1] == '=' || is_letter(s[j - 1]));
    }
}

/// A reader behind the blanks of a line's start is still at its start.
proof fn lemma_indent_run(s: Seq<char>, i: int, j: int)
    requires
        text_start(s) <= i <= j <= s.len(),
        place_at(s, i) is LineStart,
        forall|k: int| i <= k < j ==> is_blank(#[trigger] s[k]),
    ensures
        place_at(s, j) is LineStart || place_at(s, j) is Indent,
    decreases j - i,
{
    if i < j {
        lemma_indent_run(s, i, j - 1);
        assert(is_blank(s[j - 1]));
    }
}

/// A reader stays in a string over characters that neither close it nor end the line.
proof fn lemma_string_run(s: Seq<char>, i: int, j: int, q: char)
    requires
        text_start(s) <= i < j <= s.len(),
        place_at(s, i) == Place::Opened(q, 0),
        q == '"' || q == '\'',
        s[j - 1] != '\\',
        forall|k: int| i <= k < j ==> (#[trigger] s[k]) != '\n' && s[k] != q,
    ensures
        place_at(s, j) == Place::Line(q, 0),
{
    lemma_string_reach(s, i, j, q);
    assert(s[j - 1] != '\n' && s[j - 1] != q);
    if j - 1 > i {
        lemma_string_reach(s, i, j - 1, q);
    }
}

proof fn lemma_string_reach(s: Seq<char>, i: int, j: int, q: char)
    requires
        text_start(s) <= i < j <= s.len(),
        place_at(s, i) == Place::Opened(q, 0),
        q == '"' || q == '\'',
        forall|k: int| i <= k < j ==> (#[trigger] s[k]) != '\n' && s[k] != q,
    ensures
        place_at(s, j) == Place::Line(q, 0) || (q == '"' && place_at(s, j) == Place::LineEscape(0)),
    decreases j - i,
{
    assert(s[j - 1] != '\n' && s[j - 1] != q);
    if j - 1 > i {
        lemma_string_reach(s, i, j - 1, q);
    }
}

/// What writes a letter ends in no backslash.
proof fn lemma_spelled_end(s: Seq<char>, word: Seq<char>)
    requires
        spelled_len(s, word) is Some,
        word.len() > 0,
        forall|k: int| 0 <= k < word.len() ==> is_letter(#[trigger] word[k]),
    ensures
        0 < spelled_len(s, word)->0 <= s.len(),
        s[spelled_len(s, word)->0 - 1] != '\\',
    decreases word.len(),
{
    lemma_spelled(s, word);
    let n = written_len(s, word[0])->0;
    let rest = s.skip(n);
    let more = word.skip(1);
    lemma_written(s, word[0]);
    if more.len() > 0 {
        assert forall|k: int| 0 <= k < more.len() implies is_letter(#[trigger] more[k]) by {
            assert(more[k] == word[k + 1]);
        }
        lemma_spelled_end(rest, more);
        let m = spelled_len(rest, more)->0;
        assert(s[n + m - 1] == rest[m - 1]);
    } else {
        assert(spelled_len(rest, more) == Some(0int));
        if n > 1 {
            let digits = s.skip(2);
            lemma_hex(digits, digits, (n - 2) as nat);
            assert(hex_digit(digits[n - 3]) is Some);
            assert(digits[n - 3] == s[n - 1]);
        }
    }
}

/// A reader of a line that sets the key is in its statement from the equals sign on.
proof fn lemma_value_place(s: Seq<char>, i: int)
    requires
        is_setting(s, i),
    ensures
        place_at(s, i + value_offset(s.skip(i))) == Place::Plain(0),
{
    reveal_strlit("enabled");
    let word = "enabled"@;
    let line = s.skip(i);
    lemma_equals(line);
    lemma_value(line);
    lemma_blanks(line);
    let a = i + blanks_len(line);
    let rest = line.skip(blanks_len(line));
    lemma_key(rest);
    let k0 = key_len(rest)->0;
    assert(rest =~= s.skip(a));
    assert forall|k: int| i <= k < a implies is_blank(#[trigger] s[k]) by {
        assert(line[k - i] == s[k]);
    }
    lemma_indent_run(s, i, a);
    assert(rest[0] == s[a]);
    if rest[0] == '"' {
        let inner = rest.skip(1);
        lemma_spelled(inner, word);
        lemma_spelled_end(inner, word);
        let m = spelled_len(inner, word)->0;
        assert(place_at(s, a + 1) == Place::Opened('"', 0));
        assert forall|k: int| a + 1 <= k < a + 1 + m implies (#[trigger] s[k]) != '\n' && s[k] != '"' by {
            assert(inner[k - a - 1] == s[k]);
        }
        assert(s[a + m] == inner[m - 1]);
        lemma_string_run(s, a + 1, a + 1 + m, '"');
        assert(s[a + 1 + m] == rest[m + 1]);
    } else if rest[0] == '\'' {
        assert(place_at(s, a + 1) == Place::Opened('\'', 0));
        assert forall|k: int| a + 1 <= k < a + 8 implies (#[trigger] s[k]) != '\n' && s[k] != '\'' && s[k] != '\\' by {
            assert(rest.subrange(1, 8)[k - a - 1] == s[k]);
        }
        lemma_string_run(s, a + 1, a + 8, '\'');
        assert(s[a + 8] == rest[8]);
    } else {
        assert forall|k: int| a <= k < a + 7 implies is_letter(#[trigger] s[k]) by {
            assert(rest.take(7)[k - a] == s[k]);
        }
        assert(is_letter(s[a]));
        assert(place_at(s, a + 1) == Place::Plain(0));
        lemma_plain_run(s, a + 1, a + 7);
    }
    assert(place_at(s, a + k0) == Place::Plain(0));
    let tail = line.skip(blanks_len(line) + k0);
    lemma_blanks(tail);
    let q = equals_len(line)->0;
    let v = value_offset(line);
    assert forall|k: int| a + k0 <= k < i + v implies is_blank(#[trigger] s[k]) || s[k] == '=' || is_letter(s[k]) by {
        assert(line[k - i] == s[k]);
        if k < i + q - 1 {
            assert(tail[k - a - k0] == s[k]);
        }
    }
    lemma_plain_run(s, a + k0, i + v);
}

/// A text with the word at `v` replaced.
spec fn with_word(s: Seq<char>, v: int, word: Seq<char>) -> Seq<char> {
    s.take(v) + word + s.skip(v + letters_len(s.skip(v)))
}

/// The line whose value is replaced still sets the key, and its value is the new word.
proof fn lemma_line_kept(s: Seq<char>, p: int, word: Seq<char>)
    requires
        is_setting(s, p),
        word.len() > 0,
        forall|k: int| 0 <= k < word.len() ==> is_letter(#[trigger] word[k]),
    ensures
        ({
            let v = p + value_offset(s.skip(p));
            let e = v + letters_len(s.skip(v));
            let t = with_word(s, v, word);
            &&& text_start(s) <= p < v <= e <= s.len()
            &&& text_start(t) == text_start(s)
            &&& t.len() == s.len() + word.len() - (e - v)
            &&& alike(s, t, v)
            &&& is_setting(t, p)
            &&& p + value_offset(t.skip(p)) == v
            &&& letters_len(t.skip(v)) == word.len()
        }),
{
    let line = s.skip(p);
    lemma_equals(line);
    lemma_value(line);
    let q = equals_len(line)->0;
    let o = value_offset(line);
    let v = p + o;
    lemma_letters(s.skip(v));
    let e = v + letters_len(s.skip(v));
    let t = with_word(s, v, word);
    assert(alike(s, t, v));
    assert(s[0] == t[0]);
    lemma_same_place(s, t, p);
    let tline = t.skip(p);
    assert forall|k: int| 0 <= k < q implies #[trigger] line[k] == tline[k] by {
        assert(s[k + p] == t[k + p]);
    }
    assert(alike(line, tline, q));
    let ttail = tline.skip(q);
    assert forall|k: int| 0 <= k < o - q implies is_blank(#[trigger] ttail[k]) by {
        assert(s[k + q + p] == t[k + q + p]);
        assert(is_blank(line[k + q]));
    }
    assert(ttail[o - q] == word[0]);
    lemma_blanks_at(ttail, o - q);
    let tword = t.skip(v);
    assert forall|k: int| 0 <= k < word.len() implies is_letter(#[trigger] tword[k]) by {
        assert(tword[k] == word[k]);
    }
    if e < s.len() {
        assert(tword[word.len() as int] == s[e] && s.skip(v)[e - v] == s[e]);
    }
    lemma_letters_at(tword, word.len() as int);
}

/// A line that sets the key in one of two texts, and ends where they are still alike, sets
/// it in both.
proof fn lemma_setting_before(s: Seq<char>, t: Seq<char>, j: int, p: int)
    requires
        alike(s, t, p),
        text_start(s) == text_start(t),
        is_setting(t, j),
        j < p,
        s[p - 1] == '\n',
    ensures
        is_setting(s, j),
{
    lemma_same_place(s, t, j);
    let l = t.skip(j);
    let other = s.skip(j);
    lemma_equals(l);
    let m = equals_len(l)->0;
    if j + m > p - 1 {
        assert(s[p - 1] == t[p - 1]);
        assert(l[p - 1 - j] == t[p - 1]);
    }
    assert forall|k: int| 0 <= k < m implies #[trigger] l[k] == other[k] by {
        assert(s[k + j] == t[k + j]);
    }
    assert(alike(l, other, m));
}

/// A line that sets the key behind a value that was replaced set it before.
proof fn lemma_setting_after(s: Seq<char>, p: int, word: Seq<char>, j: int)
    requires
        is_setting(s, p),
        word.len() > 0,
        forall|k: int| 0 <= k < word.len() ==> is_letter(#[trigger] word[k]),
        p < j,
        is_setting(with_word(s, p + value_offset(s.skip(p)), word), j),
    ensures
        ({
            let v = p + value_offset(s.skip(p));
            let e = v + letters_len(s.skip(v));
            j > v + word.len() && is_setting(s, j - word.len() - v + e)
        }),
{
    lemma_line_kept(s, p, word);
    let line = s.skip(p);
    let v = p + value_offset(line);
    let e = v + letters_len(s.skip(v));
    let t = with_word(s, v, word);
    let w = v + word.len();
    lemma_equals(line);
    lemma_value(line);
    lemma_letters(s.skip(v));
    let tword = t.skip(v);
    lemma_letters(tword);
    lemma_line_start(t, j);
    assert(j > w) by {
        if j - 1 < v {
            assert(s[j - 1] == t[j - 1]);
            assert(line[j - 1 - p] == s[j - 1]);
        } else if j - 1 < w {
            assert(tword[j - 1 - v] == t[j - 1]);
        }
    }
    assert(place_at(s, e) == Place::Plain(0)) by {
        lemma_value_place(s, p);
        assert forall|k: int| v <= k < e implies is_letter(#[trigger] s[k]) by {
            assert(s.skip(v)[k - v] == s[k]);
        }
        lemma_plain_run(s, v, e);
    }
    assert(place_at(t, w) == Place::Plain(0)) by {
        lemma_value_place(t, p);
        assert forall|k: int| v <= k < w implies is_letter(#[trigger] t[k]) by {
            assert(tword[k - v] == t[k]);
        }
        lemma_plain_run(t, v, w);
    }
    let n = j - w;
    assert(s.subrange(e, e + n) =~= t.subrange(w, w + n));
    lemma_same_place_on(s, e, t, w, n);
    assert(s.skip(e + n) =~= t.skip(j));
}

/// Replacing the value of the key leaves its line the first that sets it.
proof fn lemma_value_replaced(s: Seq<char>, p: int, word: Seq<char>)
    requires
        first_setting(s, text_start(s)) == Some(p),
        word.len() > 0,
        forall|k: int| 0 <= k < word.len() ==> is_letter(#[trigger] word[k]),
    ensures
        ({
            let v = p + value_offset(s.skip(p));
            let e = v + letters_len(s.skip(v));
            let t = with_word(s, v, word);
            &&& text_start(s) <= p < v <= e <= s.len()
            &&& t.len() == s.len() + word.len() - (e - v)
            &&& text_start(t) == text_start(s)
            &&& first_setting(t, text_start(t)) == Some(p)
            &&& p + value_offset(t.skip(p)) == v
            &&& letters_len(t.skip(v)) == word.len()
        }),
{
    lemma_first_setting(s, text_start(s));
    lemma_line_kept(s, p, word);
    let t = with_word(s, p + value_offset(s.skip(p)), word);
    assert forall|j: int| text_start(t) <= j < p implies !is_setting(t, j) by {
        if is_setting(t, j) {
            lemma_line_start(s, p);
            lemma_setting_before(s, t, j, p);
        }
    }
    lemma_first_setting_at(t, text_start(t), p);
}

/// What the line that sets the key looks like to a reader, whatever follows it.
proof fn lemma_flag_line(line: Seq<char>, enabled: bool)
    requires
        flag_line(enabled).is_prefix_of(line),
    ensures
        equals_len(line) == Some(9int),
        value_offset(line) == 10,
        letters_len(line.skip(10)) == flag_word(enabled).len(),
        flag_line(enabled).len() == 11 + flag_word(enabled).len(),
        flag_line(enabled).last() == '\n',
        forall|k: int| 0 <= k < flag_line(enabled).len() - 1 ==> flag_line(enabled)[k] != '\n',
{
    reveal_strlit("enabled");
    reveal_strlit("enabled = ");
    reveal_strlit("\n");
    lemma_flag_word(enabled);
    let w = flag_word(enabled);
    let add = flag_line(enabled);
    let n = add.len() as int;
    assert(line.take(n) =~= add);
    assert forall|k: int| 0 <= k < n implies #[trigger] line[k] == add[k] by {
        assert(line.take(n)[k] == line[k]);
    }
    assert forall|k: int| 0 <= k < n - 1 implies add[k] != '\n' by {
        if k >= 10 {
            assert(add[k] == w[k - 10]);
        }
    }
    assert(line[0] == 'e' && line[7] == ' ' && line[8] == '=' && line[9] == ' ');
    assert(line[10] == add[10] && add[10] == w[0]);
    assert(line.take(7) =~= "enabled"@);
    lemma_blanks_at(line, 0);
    assert(line.skip(0) =~= line);
    let after_key = line.skip(7);
    assert(after_key[0] == line[7] && after_key[1] == line[8]);
    lemma_blanks_at(after_key, 1);
    let after_equals = line.skip(9);
    assert(after_equals[0] == line[9] && after_equals[1] == line[10]);
    lemma_blanks_at(after_equals, 1);
    let word = line.skip(10);
    assert forall|k: int| 0 <= k < w.len() implies is_letter(#[trigger] word[k]) by {
        assert(word[k] == line[k + 10] && line[k + 10] == add[k + 10] && add[k + 10] == w[k]);
    }
    assert(word[w.len() as int] == line[n - 1] && line[n - 1] == add[n - 1]);
    lemma_letters_at(word, w.len() as int);
}

/// A text with the line that sets the key put in front.
spec fn with_line(s: Seq<char>, enabled: bool) -> Seq<char> {
    s.take(text_start(s)) + flag_line(enabled) + s.skip(text_start(s))
}

/// The new line sets the key, and a reader behind it is at the start of a line.
proof fn lemma_line_read(s: Seq<char>, enabled: bool)
    ensures
        ({
            let b = text_start(s);
            let t = with_line(s, enabled);
            &&& 0 <= b <= s.len()
            &&& text_start(t) == b
            &&& is_setting(t, b)
            &&& value_offset(t.skip(b)) == 10
            &&& letters_len(t.skip(b + 10)) == flag_word(enabled).len()
            &&& flag_line(enabled).len() == 11 + flag_word(enabled).len()
            &&& place_at(t, b + flag_line(enabled).len()) is LineStart
        }),
{
    let b = text_start(s);
    let add = flag_line(enabled);
    let t = with_line(s, enabled);
    let n = add.len() as int;
    let line = t.skip(b);
    assert(line.take(n) =~= add);
    lemma_flag_line(line, enabled);
    assert(add[0] == 'e') by {
        reveal_strlit("enabled = ");
    }
    assert(b == 0 ==> t[0] == add[0]);
    assert(b == 1 ==> t[0] == s[0]);
    assert(line.skip(10) =~= t.skip(b + 10));
    assert(is_setting(t, b));
    lemma_value_place(t, b);
    let word = t.skip(b + 10);
    lemma_letters(word);
    assert forall|k: int| b + 10 <= k < b + n - 1 implies is_letter(#[trigger] t[k]) by {
        assert(word[k - b - 10] == t[k]);
    }
    lemma_plain_run(t, b + 10, b + n - 1);
    assert(t[b + n - 1] == add[n - 1]);
}

/// A line that sets the key behind the new one set it before.
proof fn lemma_setting_behind(s: Seq<char>, enabled: bool, j: int)
    requires
        text_start(s) < j,
        is_setting(with_line(s, enabled), j),
    ensures
        is_setting(s, j - flag_line(enabled).len()),
{
    let b = text_start(s);
    let add = flag_line(enabled);
    let n = add.len() as int;
    let t = with_line(s, enabled);
    lemma_line_read(s, enabled);
    lemma_line_start(t, j);
    assert(j >= b + n) by {
        if j < b + n {
            assert(t[j - 1] == add[j - 1 - b]);
            assert(add.is_prefix_of(add)) by {
                assert(add.take(n) =~= add);
            }
            lemma_flag_line(add, enabled);
        }
    }
    let m = j - b - n;
    assert(s.subrange(b, b + m) =~= t.subrange(b + n, b + n + m));
    lemma_same_place_on(s, b, t, b + n, m);
    assert(s.skip(b + m) =~= t.skip(j));
}

/// Setting a key that is not set: the new line is the only one that sets it.
proof fn lemma_line_added(s: Seq<char>, enabled: bool)
    requires
        first_setting(s, text_start(s)) is None,
    ensures
        first_setting(with_line(s, enabled), text_start(s)) == Some(text_start(s)),
        forall|j: int| #[trigger] is_setting(with_line(s, enabled), j) ==> j == text_start(s),
{
    lemma_first_setting(s, text_start(s));
    lemma_line_read(s, enabled);
    let b = text_start(s);
    let t = with_line(s, enabled);
    lemma_first_setting_at(t, b, b);
    assert forall|j: int| #[trigger] is_setting(t, j) implies j == b by {
        if j > b {
            lemma_setting_behind(s, enabled, j);
            assert(is_setting(s, j - flag_line(enabled).len()));
        }
    }
}

proof fn lemma_flag_word(enabled: bool)
    ensures
        flag_word(enabled).len() > 0,
        forall|k: int| 0 <= k < flag_word(enabled).len() ==> is_letter(#[trigger] flag_word(enabled)[k]),
{
    reveal_strlit("true");
    reveal_strlit("false");
}

/// A flag that was set is found in the file, with the word it was set to.
pub proof fn lemma_set_flag_reads_back(s: Seq<char>, enabled: bool)
    ensures
        find_flag(with_enabled(s, enabled)) matches Some(v) && word_at(with_enabled(s, enabled), v) == flag_word(
            enabled,
        ),
{
    lemma_flag_word(enabled);
    let w = flag_word(enabled);
    let t = with_enabled(s, enabled);
    match first_setting(s, text_start(s)) {
        Some(p) => {
            lemma_value_replaced(s, p, w);
            let v = p + value_offset(s.skip(p));
            assert(word_at(t, v) =~= w);
        },
        None => {
            lemma_line_added(s, enabled);
            lemma_line_read(s, enabled);
            let b = text_start(s);
            reveal_strlit("enabled = ");
            assert(t == with_line(s, enabled));
            assert(word_at(t, b + 10) =~= w);
        },
    }
}

/// Setting the flag leaves exactly one line that sets the key, in every file that had no
/// more than one.
pub proof fn lemma_one_setting(s: Seq<char>, enabled: bool)
    requires
        forall|i: int, j: int| #[trigger] is_setting(s, i) && #[trigger] is_setting(s, j) ==> i == j,
    ensures
        exists|i: int| is_setting(with_enabled(s, enabled), i),
        forall|i: int, j: int| #[trigger]
            is_setting(with_enabled(s, enabled), i) && #[trigger] is_setting(with_enabled(s, enabled), j) ==> i == j,
{
    lemma_flag_word(enabled);
    let t = with_enabled(s, enabled);
    lemma_first_setting(s, text_start(s));
    match first_setting(s, text_start(s)) {
        Some(p) => {
            lemma_value_replaced(s, p, flag_word(enabled));
            lemma_first_setting(t, text_start(t));
            assert forall|j: int| #[trigger] is_setting(t, j) implies j == p by {
                if j > p {
                    lemma_setting_after(s, p, flag_word(enabled), j);
                    assert(is_setting(s, p));
                }
            }
        },
        None => {
            lemma_line_added(s, enabled);
            lemma_line_read(s, enabled);
            assert(t == with_line(s, enabled));
            assert(is_setting(t, text_start(s)));
        },
    }
}

proof fn lemma_word_overrides(s: Seq<char>, p: int, first: bool, second: bool)
    requires
        first_setting(s, text_start(s)) == Some(p),
    ensures
        with_enabled(with_enabled(s, first), second) == with_enabled(s, second),
{
    lemma_flag_word(first);
    let w = flag_word(first);
    let v = p + value_offset(s.skip(p));
    let e = v + letters_len(s.skip(v));
    let t = with_word(s, v, w);
    lemma_value_replaced(s, p, w);
    assert(with_enabled(s, first) == t);
    assert(find_flag(t) == Some(v));
    assert(t.take(v) =~= s.take(v));
    assert(t.skip(v + w.len()) =~= s.skip(e));
}

proof fn lemma_line_overrides(s: Seq<char>, first: bool, second: bool)
    requires
        first_setting(s, text_start(s)) is None,
    ensures
        with_enabled(with_enabled(s, first), second) == with_enabled(s, second),
{
    lemma_line_added(s, first);
    lemma_line_read(s, first);
    let w = flag_word(first);
    let b = text_start(s);
    let t = with_line(s, first);
    assert(with_enabled(s, first) == t);
    assert(find_flag(t) == Some(b + 10));
    let head = "enabled = "@;
    let tail = "\n"@;
    assert(head.len() == 10) by {
        reveal_strlit("enabled = ");
    }
    assert(t.take(b + 10) =~= s.take(b) + head);
    assert(t.skip(b + 10 + w.len()) =~= tail + s.skip(b));
    let w2 = flag_word(second);
    assert((s.take(b) + head) + w2 + (tail + s.skip(b)) =~= s.take(b) + (head + w2 + tail) + s.skip(b));
}

/// Setting the flag of a file whose flag was set leaves no trace of the first setting.
pub proof fn lemma_set_enabled_overrides(s: Seq<char>, first: bool, second: bool)
    ensures
        with_enabled(with_enabled(s, first), second) == with_enabled(s, second),
{
    match first_setting(s, text_start(s)) {
        Some(p) => lemma_word_overrides(s, p, first, second),
        None => lemma_line_overrides(s, first, second),
    }
}

fn skip_blanks(v: &Vec<char>, i: usize) -> (j: usize)
    requires
        i <= v@.len(),
    ensures
        j == i + blanks_len(v@.skip(i as int)),
        i <= j <= v@.len(),
{
    let mut j: usize = i;
    while j < v.len() && (v[j] == ' ' || v[j] == '\t')
        invariant
            i <= j <= v@.len(),
            forall|k: int| i <= k < j ==> is_blank(#[trigger] v@[k]),
        decreases v@.len() - j,
    {
        j += 1;
    }
    proof {
        let s = v@.skip(i as int);
        assert forall|k: int| 0 <= k < j - i implies is_blank(#[trigger] s[k]) by {
            assert(s[k] == v@[k + i]);
        }
        lemma_blanks_at(s, j - i);
    }
    j
}

fn skip_letters(v: &Vec<char>, i: usize) -> (j: usize)
    requires
        i <= v@.len(),
    ensures
        j == i + letters_len(v@.skip(i as int)),
        i <= j <= v@.len(),
{
    let mut j: usize = i;
    while j < v.len() && (('a' <= v[j] && v[j] <= 'z') || ('A' <= v[j] && v[j] <= 'Z'))
        invariant
            i <= j <= v@.len(),
            forall|k: int| i <= k < j ==> is_letter(#[trigger] v@[k]),
        decreases v@.len() - j,
    {
        j += 1;
    }
    proof {
        let s = v@.skip(i as int);
        assert forall|k: int| 0 <= k < j - i implies is_letter(#[trigger] s[k]) by {
            assert(s[k] == v@[k + i]);
        }
        lemma_letters_at(s, j - i);
    }
    j
}

fn digit_of(c: char) -> (r: Option<u32>)
    ensures
        match hex_digit(c) {
            Some(d) => r is Some && r->0 == d && d < 16,
            None => r is None,
        },
{
    let n: u32 = c as u32;
    if '0' <= c && c <= '9' {
        Some(n - 48)
    } else if 'a' <= c && c <= 'f' {
        Some(n - 87)
    } else if 'A' <= c && c <= 'F' {
        Some(n - 55)
    } else {
        None
    }
}

fn hex_at(v: &Vec<char>, i: usize, n: usize) -> (r: Option<u64>)
    requires
        i <= v@.len(),
        n <= 8,
    ensures
        match hex_value(v@.skip(i as int), n as nat) {
            Some(h) => r is Some && r->0 == h,
            None => r is None,
        },
        r is Some ==> r->0 < 0x1_0000_0000,
{
    if v.len() - i < n {
        return None;
    }
    let ghost s = v@.skip(i as int);
    let mut value: u64 = 0;
    let mut bound: u64 = 1;
    let mut k: usize = 0;
    while k < n
        invariant
            k <= n <= 8,
            i + n <= v@.len(),
            s == v@.skip(i as int),
            v.len() == v@.len(),
            hex_value(s, k as nat) == Some(value as int),
            value < bound,
            bound == pow16(k as nat),
        decreases n - k,
    {
        proof {
            reveal_with_fuel(pow16, 9);
            assert(s[k as int] == v@[i + k]);
        }
        match digit_of(v[i + k]) {
            Some(d) => {
                value = value * 16 + d as u64;
                bound = bound * 16;
            },
            None => {
                proof {
                    lemma_hex_stops(s, (k + 1) as nat, n as nat);
                }
                return None;
            },
        }
        k += 1;
    }
    proof {
        reveal_with_fuel(pow16, 9);
    }
    Some(value)
}

spec fn pow16(k: nat) -> int
    decreases k,
{
    if k == 0 {
        1
    } else {
        16 * pow16((k - 1) as nat)
    }
}

proof fn lemma_hex_stops(s: Seq<char>, k: nat, n: nat)
    requires
        k <= n,
        hex_value(s, k) is None,
    ensures
        hex_value(s, n) is None,
    decreases n,
{
    if k < n {
        lemma_hex_stops(s, k, (n - 1) as nat);
    }
}

fn written_at(v: &Vec<char>, i: usize, c: char) -> (r: Option<usize>)
    requires
        i <= v@.len(),
        is_letter(c),
    ensures
        match written_len(v@.skip(i as int), c) {
            Some(n) => r is Some && r->0 == i + n && r->0 <= v@.len(),
            None => r is None,
        },
{
    let ghost s = v@.skip(i as int);
    proof {
        if written_len(s, c) is Some {
            lemma_written(s, c);
        }
    }
    if i < v.len() && v[i] == c {
        return Some(i + 1);
    }
    if v.len() - i > 1 && v[i] == '\\' {
        assert(s.skip(2) =~= v@.skip(i + 2));
        if v[i + 1] == 'u' {
            if let Some(h) = hex_at(v, i + 2, 4) {
                if h == c as u64 {
                    return Some(i + 6);
                }
            }
        } else if v[i + 1] == 'U' {
            if let Some(h) = hex_at(v, i + 2, 8) {
                if h == c as u64 {
                    return Some(i + 10);
                }
            }
        }
    }
    None
}

fn spelled_at(v: &Vec<char>, i: usize) -> (r: Option<usize>)
    requires
        i <= v@.len(),
    ensures
        match spelled_len(v@.skip(i as int), "enabled"@) {
            Some(n) => r is Some && r->0 == i + n && i <= r->0 <= v@.len(),
            None => r is None,
        },
{
    let word: Vec<char> = text::chars_of("enabled");
    proof {
        reveal_strlit("enabled");
    }
    let ghost all = spelled_len(v@.skip(i as int), word@);
    let mut p: usize = i;
    let mut k: usize = 0;
    assert(word@.skip(0) =~= word@);
    while k < word.len()
        invariant
            i <= p <= v@.len(),
            k <= word@.len(),
            forall|j: int| 0 <= j < word@.len() ==> is_letter(#[trigger] word@[j]),
            word@ == "enabled"@,
            all == spelled_len(v@.skip(i as int), word@),
            all == match spelled_len(v@.skip(p as int), word@.skip(k as int)) {
                Some(m) => Some(p - i + m),
                None => None,
            },
        decreases word@.len() - k,
    {
        let ghost rest = v@.skip(p as int);
        assert(word@.skip(k as int)[0] == word@[k as int]);
        assert(word@.skip(k as int).skip(1) =~= word@.skip(k + 1));
        match written_at(v, p, word[k]) {
            Some(n) => {
                assert(rest.skip(n - p) =~= v@.skip(n as int));
                p = n;
            },
            None => {
                return None;
            },
        }
        k += 1;
    }
    Some(p)
}

fn is_word_at(v: &Vec<char>, i: usize) -> (r: bool)
    requires
        i + 7 <= v@.len(),
    ensures
        r == (v@.subrange(i as int, i + 7) == "enabled"@),
{
    assert(v.len() == v@.len());
    let r: bool = v[i] == 'e' && v[i + 1] == 'n' && v[i + 2] == 'a' && v[i + 3] == 'b' && v[i + 4] == 'l'
        && v[i + 5] == 'e' && v[i + 6] == 'd';
    proof {
        reveal_strlit("enabled");
        let w = v@.subrange(i as int, i + 7);
        if r {
            assert(w =~= "enabled"@);
        } else if w == "enabled"@ {
            assert(w[0] == 'e' && w[1] == 'n' && w[2] == 'a' && w[3] == 'b' && w[4] == 'l' && w[5] == 'e'
                && w[6] == 'd');
        }
    }
    r
}

fn skip_key(v: &Vec<char>, i: usize) -> (r: Option<usize>)
    requires
        i <= v@.len(),
    ensures
        match key_len(v@.skip(i as int)) {
            Some(n) => r is Some && r->0 == i + n && i <= r->0 <= v@.len(),
            None => r is None,
        },
{
    let ghost s = v@.skip(i as int);
    if i == v.len() {
        return None;
    }
    if v[i] == '"' {
        assert(s.skip(1) =~= v@.skip(i + 1));
        match spelled_at(v, i + 1) {
            Some(p) => {
                if p < v.len() && v[p] == '"' {
                    assert(s[p - i] == v@[p as int]);
                    Some(p + 1)
                } else {
                    None
                }
            },
            None => None,
        }
    } else if v[i] == '\'' {
        if v.len() - i > 8 {
            assert(s.subrange(1, 8) =~= v@.subrange(i + 1, i + 8));
            let word: bool = is_word_at(v, i + 1);
            if word && v[i + 8] == '\'' {
                return Some(i + 9);
            }
        }
        None
    } else {
        if v.len() - i >= 7 {
            assert(s.take(7) =~= v@.subrange(i as int, i + 7));
            if is_word_at(v, i) {
                return Some(i + 7);
            }
        }
        None
    }
}

fn value_at(v: &Vec<char>, i: usize) -> (r: Option<usize>)
    requires
        i <= v@.len(),
    ensures
        match equals_len(v@.skip(i as int)) {
            Some(_) => r is Some && r->0 == i + value_offset(v@.skip(i as int)) && r->0 <= v@.len(),
            None => r is None,
        },
{
    let ghost line = v@.skip(i as int);
    let a: usize = skip_blanks(v, i);
    assert(line.skip(a - i) =~= v@.skip(a as int));
    let k: usize = skip_key(v, a)?;
    assert(line.skip(k - i) =~= v@.skip(k as int));
    let b: usize = skip_blanks(v, k);
    if b < v.len() && v[b] == '=' {
        assert(line[b - i] == v@[b as int]);
        assert(line.skip(b + 1 - i) =~= v@.skip(b + 1));
        Some(skip_blanks(v, b + 1))
    } else {
        None
    }
}

/// What a reader is in the middle of, with counts that a machine can hold.
enum Scan {
    LineStart,
    Indent,
    Plain(usize),
    Comment(usize),
    Opened(char, usize),
    OpenedTwice(char, usize),
    Line(char, usize),
    LineEscape(usize),
    Multi(char, usize, usize),
    MultiEscape(usize),
    Closed(char, usize, usize),
    Past,
}

impl Scan {
    spec fn place(self) -> Place {
        match self {
            Scan::LineStart => Place::LineStart,
            Scan::Indent => Place::Indent,
            Scan::Plain(d) => Place::Plain(d as nat),
            Scan::Comment(d) => Place::Comment(d as nat),
            Scan::Opened(q, d) => Place::Opened(q, d as nat),
            Scan::OpenedTwice(q, d) => Place::OpenedTwice(q, d as nat),
            Scan::Line(q, d) => Place::Line(q, d as nat),
            Scan::LineEscape(d) => Place::LineEscape(d as nat),
            Scan::Multi(q, k, d) => Place::Multi(q, k as nat, d as nat),
            Scan::MultiEscape(d) => Place::MultiEscape(d as nat),
            Scan::Closed(q, k, d) => Place::Closed(q, k as nat, d as nat),
            Scan::Past => Place::Past,
        }
    }

    /// How deep in brackets a reader is.
    spec fn depth(self) -> int {
        match self {
            Scan::Plain(d) => d as int,
            Scan::Comment(d) => d as int,
            Scan::Opened(_, d) => d as int,
            Scan::OpenedTwice(_, d) => d as int,
            Scan::Line(_, d) => d as int,
            Scan::LineEscape(d) => d as int,
            Scan::Multi(_, _, d) => d as int,
            Scan::MultiEscape(d) => d as int,
            Scan::Closed(_, _, d) => d as int,
            _ => 0,
        }
    }

    /// No more than two quotes are counted.
    spec fn counts(self) -> bool {
        match self {
            Scan::Multi(_, k, _) => k <= 2,
            Scan::Closed(_, k, _) => k <= 2,
            _ => true,
        }
    }

    fn line_end(depth: usize) -> (r: Scan)
        ensures
            r.place() == line_end(depth as nat),
            r.counts(),
            r.depth() <= depth,
    {
        if depth == 0 {
            Scan::LineStart
        } else {
            Scan::Plain(depth)
        }
    }

    fn plain(depth: usize, c: char) -> (r: Scan)
        requires
            depth < usize::MAX,
        ensures
            r.place() == plain_step(depth as nat, c),
            r.counts(),
            r.depth() <= depth + 1,
    {
        if c == '\n' {
            Scan::line_end(depth)
        } else if c == '#' {
            Scan::Comment(depth)
        } else if c == '"' || c == '\'' {
            Scan::Opened(c, depth)
        } else if c == '[' || c == '{' {
            Scan::Plain(depth + 1)
        } else if (c == ']' || c == '}') && depth > 0 {
            Scan::Plain(depth - 1)
        } else {
            Scan::Plain(depth)
        }
    }

    fn line(q: char, depth: usize, c: char) -> (r: Scan)
        ensures
            r.place() == line_step(q, depth as nat, c),
            r.counts(),
            r.depth() <= depth,
    {
        if c == '\n' {
            Scan::line_end(depth)
        } else if c == q {
            Scan::Plain(depth)
        } else if c == '\\' && q == '"' {
            Scan::LineEscape(depth)
        } else {
            Scan::Line(q, depth)
        }
    }

    fn next(self, c: char) -> (r: Scan)
        requires
            self.counts(),
            self.depth() < usize::MAX,
        ensures
            r.place() == step(self.place(), c),
            r.counts(),
            r.depth() <= self.depth() + 1,
    {
        match self {
            Scan::LineStart | Scan::Indent => if c == ' ' || c == '\t' {
                Scan::Indent
            } else if c == '[' {
                Scan::Past
            } else {
                Scan::plain(0, c)
            },
            Scan::Plain(depth) => Scan::plain(depth, c),
            Scan::Comment(depth) => if c == '\n' {
                Scan::line_end(depth)
            } else {
                Scan::Comment(depth)
            },
            Scan::Opened(q, depth) => if c == q {
                Scan::OpenedTwice(q, depth)
            } else {
                Scan::line(q, depth, c)
            },
            Scan::OpenedTwice(q, depth) => if c == q {
                Scan::Multi(q, 0, depth)
            } else {
                Scan::plain(depth, c)
            },
            Scan::Line(q, depth) => Scan::line(q, depth, c),
            Scan::LineEscape(depth) => if c == '\n' {
                Scan::line_end(depth)
            } else {
                Scan::Line('"', depth)
            },
            Scan::Multi(q, quotes, depth) => if c == q {
                if quotes == 2 {
                    Scan::Closed(q, 0, depth)
                } else {
                    Scan::Multi(q, quotes + 1, depth)
                }
            } else if c == '\\' && q == '"' {
                Scan::MultiEscape(depth)
            } else {
                Scan::Multi(q, 0, depth)
            },
            Scan::MultiEscape(depth) => Scan::Multi('"', 0, depth),
            Scan::Closed(q, more, depth) => if c == q && more < 2 {
                Scan::Closed(q, more + 1, depth)
            } else {
                Scan::plain(depth, c)
            },
            Scan::Past => Scan::Past,
        }
    }
}

fn start_of(v: &Vec<char>) -> (r: usize)
    ensures
        r == text_start(v@),
        r <= v@.len(),
{
    if v.len() > 0 && v[0] == '\u{feff}' {
        1
    } else {
        0
    }
}

fn locate_flag(v: &Vec<char>) -> (r: Option<usize>)
    ensures
        match find_flag(v@) {
            Some(p) => r is Some && r->0 == p && p <= v@.len(),
            None => r is None,
        },
{
    let start: usize = start_of(v);
    let mut i: usize = start;
    let mut scan = Scan::LineStart;
    while i < v.len()
        invariant
            start == text_start(v@),
            start <= i <= v@.len(),
            scan.place() == place_at(v@, i as int),
            scan.counts(),
            scan.depth() <= i,
            first_setting(v@, start as int) == first_setting(v@, i as int),
        decreases v@.len() - i,
    {
        if let Scan::LineStart = scan {
            let value: Option<usize> = value_at(v, i);
            if value.is_some() {
                assert(is_setting(v@, i as int));
                return value;
            }
        }
        assert(!is_setting(v@, i as int));
        scan = scan.next(v[i]);
        i += 1;
    }
    None
}

/// A rule file with its `enabled` key set, the rest of it as it was.
pub fn set_flag(contents: &str, enabled: bool) -> (r: String)
    ensures
        r@ == with_enabled(contents@, enabled),
{
    let v: Vec<char> = text::chars_of(contents);
    let word: &str = if enabled {
        "true"
    } else {
        "false"
    };
    let mut out = String::new();
    match locate_flag(&v) {
        Some(p) => {
            text::append_chars(&mut out, &v, 0, p);
            out.append(word);
            let e: usize = skip_letters(&v, p);
            text::append_chars(&mut out, &v, e, v.len());
        },
        None => {
            let start: usize = start_of(&v);
            text::append_chars(&mut out, &v, 0, start);
            out.append("enabled = ");
            out.append(word);
            out.append("\n");
            text::append_chars(&mut out, &v, start, v.len());
        },
    }
    assert(out@ =~= with_enabled(contents@, enabled));
    out
}

/// A character that a line which sets `enabled` may begin with.
pub open spec fn may_set_flag(c: char) -> bool {
    c == ' ' || c == '\t' || c == 'e' || c == '"' || c == '\'' || c == '\u{feff}'
}

/// No line of a text begins like one that sets `enabled`.
pub open spec fn sets_no_flag(s: Seq<char>) -> bool {
    forall|i: int| 0 <= i < s.len() && (i == 0 || s[i - 1] == '\n') ==> !may_set_flag(#[trigger] s[i])
}

/// A text none of whose lines begins like one that sets `enabled` does not set it, and
/// setting it puts a line in front.
pub proof fn lemma_no_line_sets_the_flag(s: Seq<char>, enabled: bool)
    requires
        sets_no_flag(s),
    ensures
        forall|i: int| !is_setting(s, i),
        find_flag(s) is None,
        with_enabled(s, enabled) == flag_line(enabled) + s,
{
    assert(text_start(s) == 0) by {
        if s.len() > 0 {
            assert(!may_set_flag(s[0]));
        }
    }
    assert forall|i: int| !is_setting(s, i) by {
        if is_setting(s, i) {
            if i > 0 {
                lemma_line_start(s, i);
            }
            let line = s.skip(i);
            assert(line[0] == s[i]);
            assert(!may_set_flag(s[i]));
            assert(blanks_len(line) == 0);
            assert(line.skip(0) =~= line);
            reveal_strlit("enabled");
            assert(line.take(7) == "enabled"@ ==> line.take(7)[0] == 'e');
        }
    }
    lemma_first_setting(s, 0);
    assert(s.take(0) =~= Seq::<char>::empty());
    assert(s.skip(0) =~= s);
    assert(s.take(0) + flag_line(enabled) + s.skip(0) =~= flag_line(enabled) + s);
}

/// Quoting goes character by character: a backslash in front of each backslash and each
/// double quote, and nothing else.
pub proof fn lemma_escaped_by_characters(a: Seq<char>, c: char, b: Seq<char>)
    ensures
        escaped(Seq::empty()) == Seq::<char>::empty(),
        escaped(a + b) == escaped(a) + escaped(b),
        c == '"' || c == '\\' ==> escaped(seq![c]) == seq!['\\', c],
        c != '"' && c != '\\' ==> escaped(seq![c]) == seq![c],
    decreases a.len(),
{
    assert(seq![c].skip(1) =~= Seq::<char>::empty());
    assert(escaped(Seq::<char>::empty()) =~= Seq::<char>::empty());
    assert(escaped(seq![c]) =~= escaped_char(c));
    if a.len() > 0 {
        lemma_escaped_by_characters(a.skip(1), c, b);
        assert((a + b).skip(1) =~= a.skip(1) + b);
        assert((a + b)[0] == a[0]);
        assert(escaped(a + b) =~= escaped(a) + escaped(b));
    } else {
        assert(a + b =~= b);
        assert(escaped(a) + escaped(b) =~= escaped(b));
    }
}

/// The words for the flag.
pub proof fn lemma_flag_words()
    ensures
        flag_word(true) == seq!['t', 'r', 'u', 'e'],
        flag_word(false) == seq!['f', 'a', 'l', 's', 'e'],
{
    reveal_strlit("true");
    reveal_strlit("false");
    assert(flag_word(true) =~= seq!['t', 'r', 'u', 'e']);
    assert(flag_word(false) =~= seq!['f', 'a', 'l', 's', 'e']);
}

/// Blanks and tabs.
pub open spec fn are_blanks(s: Seq<char>) -> bool {
    forall|i: int| 0 <= i < s.len() ==> #[trigger] s[i] == ' ' || s[i] == '\t'
}

/// The key that is switched: bare, in double quotes or in single quotes.
pub open spec fn is_flag_key(key: Seq<char>) -> bool {
    let word = seq!['e', 'n', 'a', 'b', 'l', 'e', 'd'];
    key == word || key == seq!['"'] + word + seq!['"'] || key == seq!['\''] + word + seq!['\'']
}

proof fn lemma_enabled_word()
    ensures
        "enabled"@ == seq!['e', 'n', 'a', 'b', 'l', 'e', 'd'],
{
    reveal_strlit("enabled");
    assert("enabled"@ =~= seq!['e', 'n', 'a', 'b', 'l', 'e', 'd']);
}

proof fn lemma_spelled_plainly(word: Seq<char>, rest: Seq<char>)
    ensures
        spelled_len(word + rest, word) == Some(word.len() as int),
    decreases word.len(),
{
    if word.len() > 0 {
        let s = word + rest;
        lemma_spelled_plainly(word.skip(1), rest);
        assert(s[0] == word[0]);
        assert(s.skip(1) =~= word.skip(1) + rest);
    }
}

proof fn lemma_key_is_read(key: Seq<char>, rest: Seq<char>)
    requires
        is_flag_key(key),
    ensures
        key.len() > 0,
        key_len(key + rest) == Some(key.len() as int),
        !is_blank(key[0]),
        key[0] != '\u{feff}',
{
    lemma_enabled_word();
    let word = "enabled"@;
    let s = key + rest;
    if key == word {
        assert(s[0] == 'e');
        assert(s.take(7) =~= word);
    } else if key == seq!['"'] + word + seq!['"'] {
        assert(s[0] == '"');
        lemma_spelled_plainly(word, seq!['"'] + rest);
        assert(s.skip(1) =~= word + (seq!['"'] + rest));
        assert(s[8] == '"');
    } else {
        assert(s[0] == '\'');
        assert(s.subrange(1, 8) =~= word);
        assert(s[8] == '\'');
    }
}

proof fn lemma_line_is_read(b1: Seq<char>, key: Seq<char>, b2: Seq<char>, b3: Seq<char>, rest: Seq<char>)
    requires
        are_blanks(b1),
        is_flag_key(key),
        are_blanks(b2),
        are_blanks(b3),
        rest.len() > 0 ==> rest[0] != ' ' && rest[0] != '\t',
    ensures
        ({
            let s = b1 + key + b2 + seq!['='] + b3 + rest;
            &&& equals_len(s) == Some((b1.len() + key.len() + b2.len() + 1) as int)
            &&& value_offset(s) == b1.len() + key.len() + b2.len() + 1 + b3.len()
        }),
{
    let s = b1 + key + b2 + seq!['='] + b3 + rest;
    let after_key = b2 + seq!['='] + b3 + rest;
    let after_equals = b3 + rest;
    lemma_key_is_read(key, after_key);
    let a = b1.len() as int;
    let k = key.len() as int;
    assert forall|i: int| 0 <= i < a implies is_blank(#[trigger] s[i]) by {
        assert(s[i] == b1[i]);
    }
    assert(s[a] == key[0]);
    lemma_blanks_at(s, a);
    assert(s.skip(a) =~= key + after_key);
    assert(s.skip(a + k) =~= after_key);
    assert forall|i: int| 0 <= i < b2.len() implies is_blank(#[trigger] after_key[i]) by {
        assert(after_key[i] == b2[i]);
    }
    assert(after_key[b2.len() as int] == '=');
    lemma_blanks_at(after_key, b2.len() as int);
    let e = a + k + b2.len();
    assert(s[e] == '=');
    assert(s.skip(e + 1) =~= after_equals);
    assert forall|i: int| 0 <= i < b3.len() implies is_blank(#[trigger] after_equals[i]) by {
        assert(after_equals[i] == b3[i]);
    }
    if rest.len() > 0 {
        assert(after_equals[b3.len() as int] == rest[0]);
    }
    lemma_blanks_at(after_equals, b3.len() as int);
}

/// A line that sets the flag has its word replaced, however the key is quoted and whatever
/// blanks stand around it; the rest of the file stays.
pub proof fn lemma_first_line_is_switched(
    b1: Seq<char>,
    key: Seq<char>,
    b2: Seq<char>,
    b3: Seq<char>,
    word: Seq<char>,
    rest: Seq<char>,
    enabled: bool,
)
    requires
        are_blanks(b1),
        is_flag_key(key),
        are_blanks(b2),
        are_blanks(b3),
        word == seq!['t', 'r', 'u', 'e'] || word == seq!['f', 'a', 'l', 's', 'e'],
        rest.len() > 0 ==> !('a' <= rest[0] <= 'z') && !('A' <= rest[0] <= 'Z'),
    ensures
        find_flag(b1 + key + b2 + seq!['='] + b3 + word + rest) is Some,
        with_enabled(b1 + key + b2 + seq!['='] + b3 + word + rest, enabled) == b1 + key + b2 + seq!['='] + b3
            + flag_word(enabled) + rest,
{
    let head = b1 + key + b2 + seq!['='] + b3;
    let s = head + word + rest;
    let v = head.len() as int;
    assert(s =~= head + (word + rest));
    lemma_first_line_sets(b1, key, b2, b3, word + rest);
    assert forall|i: int| 0 <= i < word.len() implies is_letter(#[trigger] word[i]) by {}
    lemma_letters_of(word, rest);
    assert(s.skip(v) =~= word + rest);
    assert(find_flag(s) == Some(v));
    assert(s.take(v) =~= head);
    assert(s.skip(v + word.len()) =~= rest);
}

proof fn lemma_letters_of(word: Seq<char>, rest: Seq<char>)
    requires
        forall|i: int| 0 <= i < word.len() ==> is_letter(#[trigger] word[i]),
        rest.len() > 0 ==> !is_letter(rest[0]),
    ensures
        letters_len(word + rest) == word.len(),
{
    let s = word + rest;
    assert forall|i: int| 0 <= i < word.len() implies is_letter(#[trigger] s[i]) by {
        assert(s[i] == word[i]);
    }
    if rest.len() > 0 {
        assert(s[word.len() as int] == rest[0]);
    }
    lemma_letters_at(s, word.len() as int);
}

proof fn lemma_first_line_sets(b1: Seq<char>, key: Seq<char>, b2: Seq<char>, b3: Seq<char>, rest: Seq<char>)
    requires
        are_blanks(b1),
        is_flag_key(key),
        are_blanks(b2),
        are_blanks(b3),
        rest.len() > 0 ==> rest[0] != ' ' && rest[0] != '\t',
    ensures
        find_flag(b1 + key + b2 + seq!['='] + b3 + rest) == Some((b1 + key + b2 + seq!['='] + b3).len() as int),
{
    let s = b1 + key + b2 + seq!['='] + b3 + rest;
    lemma_line_is_read(b1, key, b2, b3, rest);
    lemma_key_is_read(key, Seq::empty());
    if b1.len() > 0 {
        assert(s[0] == b1[0]);
    } else {
        assert(s[0] == key[0]);
    }
    assert(text_start(s) == 0);
    assert(s.skip(0) =~= s);
    assert(place_at(s, 0) is LineStart);
    assert(is_setting(s, 0));
    lemma_first_setting_at(s, 0, 0);
}

/// A file that begins with a table does not set the flag: the line is put in front.
pub proof fn lemma_tables_have_no_flag(rest: Seq<char>, enabled: bool)
    ensures
        find_flag(seq!['['] + rest) is None,
        with_enabled(seq!['['] + rest, enabled) == "enabled = "@ + flag_word(enabled) + seq!['\n'] + (seq!['['] + rest),
{
    let s = seq!['['] + rest;
    assert(s[0] == '[');
    assert forall|i: int| !is_setting(s, i) by {
        if is_setting(s, i) {
            if i == 0 {
                assert(s.skip(0) =~= s);
                assert(blanks_len(s) == 0);
                reveal_strlit("enabled");
                assert(s.take(7) == "enabled"@ ==> s.take(7)[0] == 'e');
            } else {
                assert(place_at(s, 0) is LineStart);
                assert(place_at(s, 1) is Past);
                lemma_past_run(s, i);
            }
        }
    }
    lemma_first_setting(s, 0);
    reveal_strlit("\n");
    assert("\n"@ =~= seq!['\n']);
    assert(s.take(0) + flag_line(enabled) + s.skip(0) =~= flag_line(enabled) + s);
}

proof fn lemma_past_run(s: Seq<char>, i: int)
    requires
        text_start(s) == 0,
        1 <= i <= s.len(),
        place_at(s, 1) is Past,
    ensures
        place_at(s, i) is Past,
    decreases i,
{
    if i > 1 {
        lemma_past_run(s, i - 1);
    }
}

/// A file that is empty gets the line.
pub proof fn lemma_empty_file_gets_the_flag(enabled: bool)
    ensures
        with_enabled(Seq::empty(), enabled) == "enabled = "@ + flag_word(enabled) + seq!['\n'],
{
    reveal_strlit("\n");
    assert("\n"@ =~= seq!['\n']);
    let s = Seq::<char>::empty();
    assert(with_enabled(s, enabled) =~= flag_line(enabled));
}

/// A block of lines after which a reader is at the start of a line again, and which sets
/// nothing, is passed over.
proof fn lemma_block_is_passed_over(block: Seq<char>, s: Seq<char>, enabled: bool)
    requires
        block.len() > 0,
        !may_set_flag(block[0]),
        place_at(block + s, block.len() as int) is LineStart,
        forall|j: int| 0 < j < block.len() ==> !(#[trigger] place_at(block + s, j) is LineStart),
        s.len() > 0 ==> s[0] != '\u{feff}',
        find_flag(s) is Some,
    ensures
        find_flag(block + s) is Some,
        with_enabled(block + s, enabled) == block + with_enabled(s, enabled),
{
    lemma_setting_behind_block(block, s);
    let t = block + s;
    let n = block.len() as int;
    let p = first_setting(s, 0)->0;
    lemma_first_setting(s, 0);
    lemma_equals(s.skip(p));
    lemma_value(s.skip(p));
    let v = p + value_offset(s.skip(p));
    lemma_letters(s.skip(v));
    let e = v + letters_len(s.skip(v));
    let w = flag_word(enabled);
    assert(t.skip(n + p) =~= s.skip(p));
    assert(t.skip(n + v) =~= s.skip(v));
    assert(find_flag(t) == Some(n + v));
    assert(with_enabled(t, enabled) == t.take(n + v) + w + t.skip(n + e));
    assert(t.take(n + v) =~= block + s.take(v));
    assert(t.skip(n + e) =~= s.skip(e));
    lemma_moved_block(block, s.take(v), w, s.skip(e));
}

proof fn lemma_moved_block(block: Seq<char>, a: Seq<char>, b: Seq<char>, c: Seq<char>)
    ensures
        (block + a) + b + c == block + (a + b + c),
{
    assert((block + a) + b + c =~= block + (a + b + c));
}

proof fn lemma_no_setting_in_block(block: Seq<char>, s: Seq<char>, j: int)
    requires
        block.len() > 0,
        !may_set_flag(block[0]),
        forall|k: int| 0 < k < block.len() ==> !(#[trigger] place_at(block + s, k) is LineStart),
        0 <= j < block.len(),
    ensures
        !is_setting(block + s, j),
{
    let t = block + s;
    if is_setting(t, j) && j == 0 {
        assert(t[0] == block[0]);
        assert(t.skip(0) =~= t);
        assert(blanks_len(t) == 0);
        reveal_strlit("enabled");
        assert(t.take(7) == "enabled"@ ==> t.take(7)[0] == 'e');
    }
}

proof fn lemma_setting_behind_block(block: Seq<char>, s: Seq<char>)
    requires
        block.len() > 0,
        !may_set_flag(block[0]),
        place_at(block + s, block.len() as int) is LineStart,
        forall|j: int| 0 < j < block.len() ==> !(#[trigger] place_at(block + s, j) is LineStart),
        s.len() > 0 ==> s[0] != '\u{feff}',
        find_flag(s) is Some,
    ensures
        text_start(block + s) == 0,
        text_start(s) == 0,
        first_setting(block + s, 0) == Some(block.len() + first_setting(s, 0)->0),
{
    let t = block + s;
    let n = block.len() as int;
    assert(t[0] == block[0]);
    lemma_first_setting(s, 0);
    let p = first_setting(s, 0)->0;
    assert forall|j: int| 0 <= j < s.len() implies (is_setting(t, n + j) <==> #[trigger] is_setting(s, j)) by {
        assert(s.subrange(0, j) =~= t.subrange(n, n + j));
        lemma_same_place_on(s, 0, t, n, j);
        assert(t.skip(n + j) =~= s.skip(j));
    }
    assert(is_setting(s, p));
    assert forall|j: int| 0 <= j < n + p implies !is_setting(t, j) by {
        if j < n {
            lemma_no_setting_in_block(block, s, j);
        } else {
            assert(!is_setting(s, j - n));
            assert(is_setting(t, n + (j - n)) <==> is_setting(s, j - n));
        }
    }
    lemma_first_setting_at(t, 0, n + p);
}

/// A character that opens and closes nothing, inside so many brackets.
pub open spec fn is_plain(c: char, depth: nat) -> bool {
    c != '#' && c != '"' && c != '\'' && c != '[' && c != ']' && c != '{' && c != '}' && (depth > 0 || c != '\n')
}

proof fn lemma_plain_stays(s: Seq<char>, i: int, j: int, depth: nat)
    requires
        text_start(s) <= i <= j <= s.len(),
        place_at(s, i) == Place::Plain(depth),
        forall|k: int| i <= k < j ==> is_plain(#[trigger] s[k], depth),
    ensures
        forall|m: int| i <= m <= j ==> #[trigger] place_at(s, m) == Place::Plain(depth),
    decreases j - i,
{
    if i < j {
        lemma_plain_stays(s, i, j - 1, depth);
        assert(is_plain(s[j - 1], depth));
        assert(place_at(s, j - 1) == Place::Plain(depth));
        assert(place_at(s, j) == Place::Plain(depth));
        assert forall|m: int| i <= m <= j implies #[trigger] place_at(s, m) == Place::Plain(depth) by {}
    }
}

/// The start of a statement: plain characters, of which the first is none that a line which
/// sets the flag may begin with.
pub open spec fn is_statement_start(k: Seq<char>) -> bool {
    k.len() > 0 && !may_set_flag(k[0]) && forall|i: int| 0 <= i < k.len() ==> is_plain(#[trigger] k[i], 0)
}

proof fn lemma_statement_start(k: Seq<char>, rest: Seq<char>)
    requires
        is_statement_start(k),
    ensures
        text_start(k + rest) == 0,
        forall|m: int| 0 < m <= k.len() ==> #[trigger] place_at(k + rest, m) == Place::Plain(0),
{
    let t = k + rest;
    assert(t[0] == k[0]);
    assert(is_plain(k[0], 0));
    assert(place_at(t, 0) is LineStart);
    assert(place_at(t, 1) == Place::Plain(0));
    assert forall|i: int| 1 <= i < k.len() implies is_plain(#[trigger] t[i], 0) by {
        assert(t[i] == k[i]);
    }
    lemma_plain_stays(t, 1, k.len() as int, 0);
}

/// A comment is passed over, whatever it says.
pub proof fn lemma_comments_are_passed_over(c: Seq<char>, s: Seq<char>, enabled: bool)
    requires
        forall|i: int| 0 <= i < c.len() ==> c[i] != '\n',
        s.len() > 0 ==> s[0] != '\u{feff}',
        find_flag(s) is Some,
    ensures
        with_enabled(seq!['#'] + c + seq!['\n'] + s, enabled) == seq!['#'] + c + seq!['\n'] + with_enabled(s, enabled),
{
    let block = seq!['#'] + c + seq!['\n'];
    let t = block + s;
    assert(t[0] == '#');
    assert(place_at(t, 0) is LineStart);
    assert(place_at(t, 1) == Place::Comment(0));
    assert forall|k: int| 1 <= k < 1 + c.len() implies t[k] != '\n' by {
        assert(t[k] == c[k - 1]);
    }
    lemma_comment_run(t, 1 + c.len() as int);
    assert(place_at(t, 1 + c.len() as int) == Place::Comment(0));
    assert(t[1 + c.len() as int] == '\n');
    assert(place_at(t, block.len() as int) is LineStart);
    assert forall|j: int| 0 < j < block.len() implies !(#[trigger] place_at(t, j) is LineStart) by {
        assert(place_at(t, j) == Place::Comment(0));
    }
    lemma_block_is_passed_over(block, s, enabled);
}

proof fn lemma_comment_run(t: Seq<char>, j: int)
    requires
        text_start(t) == 0,
        1 <= j <= t.len(),
        place_at(t, 1) == Place::Comment(0),
        forall|k: int| 1 <= k < j ==> t[k] != '\n',
    ensures
        forall|m: int| 1 <= m <= j ==> #[trigger] place_at(t, m) == Place::Comment(0),
    decreases j,
{
    if j > 1 {
        lemma_comment_run(t, j - 1);
        assert(place_at(t, j - 1) == Place::Comment(0));
        assert(t[j - 1] != '\n');
        assert(place_at(t, j) == Place::Comment(0));
        assert forall|m: int| 1 <= m <= j implies #[trigger] place_at(t, m) == Place::Comment(0) by {}
    }
}

/// A statement on another key is passed over.
pub proof fn lemma_statements_are_passed_over(k: Seq<char>, s: Seq<char>, enabled: bool)
    requires
        is_statement_start(k),
        s.len() > 0 ==> s[0] != '\u{feff}',
        find_flag(s) is Some,
    ensures
        with_enabled(k + seq!['\n'] + s, enabled) == k + seq!['\n'] + with_enabled(s, enabled),
{
    let block = k + seq!['\n'];
    let t = block + s;
    assert(t =~= k + (seq!['\n'] + s));
    lemma_statement_start(k, seq!['\n'] + s);
    assert(place_at(t, k.len() as int) == Place::Plain(0));
    assert(t[k.len() as int] == '\n');
    assert(place_at(t, block.len() as int) is LineStart);
    assert forall|j: int| 0 < j < block.len() implies !(#[trigger] place_at(t, j) is LineStart) by {
        assert(place_at(t, j) == Place::Plain(0));
    }
    assert(block[0] == k[0]);
    lemma_block_is_passed_over(block, s, enabled);
}

/// A statement with a string of many lines is passed over, whatever its lines say.
pub proof fn lemma_long_strings_are_passed_over(k: Seq<char>, q: char, inner: Seq<char>, s: Seq<char>, enabled: bool)
    requires
        is_statement_start(k),
        q == '"' || q == '\'',
        forall|i: int| 0 <= i < inner.len() ==> #[trigger] inner[i] != q && (inner[i] != '\\' || q == '\''),
        s.len() > 0 ==> s[0] != '\u{feff}',
        find_flag(s) is Some,
    ensures
        with_enabled(k + seq![q, q, q] + inner + seq![q, q, q] + seq!['\n'] + s, enabled) == k + seq![q, q, q] + inner
            + seq![q, q, q] + seq!['\n'] + with_enabled(s, enabled),
{
    let block = k + seq![q, q, q] + inner + seq![q, q, q] + seq!['\n'];
    let t = block + s;
    let rest = seq![q, q, q] + inner + seq![q, q, q] + seq!['\n'] + s;
    assert(t =~= k + rest);
    lemma_statement_start(k, rest);
    let n = k.len() as int;
    let m = n + 3 + inner.len();
    assert(t[n] == q && t[n + 1] == q && t[n + 2] == q);
    assert(place_at(t, n) == Place::Plain(0));
    assert(place_at(t, n + 1) == Place::Opened(q, 0));
    assert(place_at(t, n + 2) == Place::OpenedTwice(q, 0));
    assert(place_at(t, n + 3) == Place::Multi(q, 0, 0));
    assert forall|i: int| n + 3 <= i < m implies #[trigger] t[i] != q && (t[i] != '\\' || q == '\'') by {
        assert(t[i] == inner[i - n - 3]);
    }
    lemma_multi_run(t, n + 3, m, q);
    assert(place_at(t, m) == Place::Multi(q, 0, 0));
    assert(t[m] == q && t[m + 1] == q && t[m + 2] == q && t[m + 3] == '\n');
    assert(place_at(t, m + 1) == Place::Multi(q, 1, 0));
    assert(place_at(t, m + 2) == Place::Multi(q, 2, 0));
    assert(place_at(t, m + 3) == Place::Closed(q, 0, 0));
    assert(place_at(t, m + 4) is LineStart);
    assert(block.len() == m + 4);
    assert forall|j: int| 0 < j < block.len() implies !(#[trigger] place_at(t, j) is LineStart) by {
        if j <= n {
            assert(place_at(t, j) == Place::Plain(0));
        } else if n + 3 <= j <= m {
            assert(place_at(t, j) == Place::Multi(q, 0, 0));
        }
    }
    assert(block[0] == k[0]);
    lemma_block_is_passed_over(block, s, enabled);
}

proof fn lemma_multi_run(t: Seq<char>, i: int, j: int, q: char)
    requires
        text_start(t) <= i <= j <= t.len(),
        place_at(t, i) == Place::Multi(q, 0, 0),
        forall|k: int| i <= k < j ==> #[trigger] t[k] != q && (t[k] != '\\' || q == '\''),
    ensures
        forall|m: int| i <= m <= j ==> #[trigger] place_at(t, m) == Place::Multi(q, 0, 0),
    decreases j - i,
{
    if i < j {
        lemma_multi_run(t, i, j - 1, q);
        assert(place_at(t, j - 1) == Place::Multi(q, 0, 0));
        assert(t[j - 1] != q);
        assert(place_at(t, j) == Place::Multi(q, 0, 0));
        assert forall|m: int| i <= m <= j implies #[trigger] place_at(t, m) == Place::Multi(q, 0, 0) by {}
    }
}

/// A statement with a list is passed over, though its lines may begin with brackets.
pub proof fn lemma_lists_are_passed_over(
    k: Seq<char>,
    a: Seq<char>,
    b: Seq<char>,
    c: Seq<char>,
    s: Seq<char>,
    enabled: bool,
)
    requires
        is_statement_start(k),
        forall|i: int| 0 <= i < a.len() ==> is_plain(#[trigger] a[i], 1),
        forall|i: int| 0 <= i < b.len() ==> is_plain(#[trigger] b[i], 1),
        forall|i: int| 0 <= i < c.len() ==> is_plain(#[trigger] c[i], 1),
        s.len() > 0 ==> s[0] != '\u{feff}',
        find_flag(s) is Some,
    ensures
        with_enabled(
            k + seq!['['] + a + seq!['['] + b + seq![']'] + c + seq![']'] + seq!['\n'] + s,
            enabled,
        ) == k + seq!['['] + a + seq!['['] + b + seq![']'] + c + seq![']'] + seq!['\n'] + with_enabled(s, enabled),
{
    let block = k + seq!['['] + a + seq!['['] + b + seq![']'] + c + seq![']'] + seq!['\n'];
    let t = block + s;
    let rest = seq!['['] + a + seq!['['] + b + seq![']'] + c + seq![']'] + seq!['\n'] + s;
    assert(t =~= k + rest);
    lemma_statement_start(k, rest);
    let n = k.len() as int;
    let x = n + 1 + a.len();
    let y = x + 1 + b.len();
    let z = y + 1 + c.len();
    assert(t[n] == '[' && t[x] == '[' && t[y] == ']' && t[z] == ']' && t[z + 1] == '\n');
    assert(place_at(t, n) == Place::Plain(0));
    assert(place_at(t, n + 1) == Place::Plain(1));
    assert forall|i: int| n + 1 <= i < x implies is_plain(#[trigger] t[i], 1) by {
        assert(t[i] == a[i - n - 1]);
    }
    lemma_plain_stays(t, n + 1, x, 1);
    assert(place_at(t, x) == Place::Plain(1));
    assert(place_at(t, x + 1) == Place::Plain(2));
    assert forall|i: int| x + 1 <= i < y implies is_plain(#[trigger] t[i], 2) by {
        assert(t[i] == b[i - x - 1]);
    }
    lemma_plain_stays(t, x + 1, y, 2);
    assert(place_at(t, y) == Place::Plain(2));
    assert(place_at(t, y + 1) == Place::Plain(1));
    assert forall|i: int| y + 1 <= i < z implies is_plain(#[trigger] t[i], 1) by {
        assert(t[i] == c[i - y - 1]);
    }
    lemma_plain_stays(t, y + 1, z, 1);
    assert(place_at(t, z) == Place::Plain(1));
    assert(place_at(t, z + 1) == Place::Plain(0));
    assert(place_at(t, z + 2) is LineStart);
    assert(block.len() == z + 2);
    assert forall|j: int| 0 < j < block.len() implies !(#[trigger] place_at(t, j) is LineStart) by {
        if j <= n {
            assert(place_at(t, j) == Place::Plain(0));
        } else if j <= x {
            assert(place_at(t, j) == Place::Plain(1));
        } else if j <= y {
            assert(place_at(t, j) == Place::Plain(2));
        } else if j <= z {
            assert(place_at(t, j) == Place::Plain(1));
        }
    }
    assert(block[0] == k[0]);
    lemma_block_is_passed_over(block, s, enabled);
}

/// A statement with a string on one line is passed over, whatever the string says.
pub proof fn lemma_short_strings_are_passed_over(k: Seq<char>, q: char, inner: Seq<char>, s: Seq<char>, enabled: bool)
    requires
        is_statement_start(k),
        q == '"' || q == '\'',
        inner.len() > 0,
        forall|i: int| 0 <= i < inner.len() ==> #[trigger] inner[i] != q && inner[i] != '\\' && inner[i] != '\n',
        s.len() > 0 ==> s[0] != '\u{feff}',
        find_flag(s) is Some,
    ensures
        with_enabled(k + seq![q] + inner + seq![q] + seq!['\n'] + s, enabled) == k + seq![q] + inner + seq![q] + seq![
            '\n',
        ] + with_enabled(s, enabled),
{
    let block = k + seq![q] + inner + seq![q] + seq!['\n'];
    let t = block + s;
    let rest = seq![q] + inner + seq![q] + seq!['\n'] + s;
    assert(t =~= k + rest);
    lemma_statement_start(k, rest);
    let n = k.len() as int;
    let m = n + 1 + inner.len();
    assert(t[n] == q);
    assert(place_at(t, n) == Place::Plain(0));
    assert(place_at(t, n + 1) == Place::Opened(q, 0));
    assert forall|i: int| n + 1 <= i < m implies #[trigger] t[i] != q && t[i] != '\\' && t[i] != '\n' by {
        assert(t[i] == inner[i - n - 1]);
    }
    assert(t[n + 1] != q);
    assert(place_at(t, n + 2) == Place::Line(q, 0));
    lemma_line_run(t, n + 2, m, q);
    assert(place_at(t, m) == Place::Line(q, 0));
    assert(t[m] == q && t[m + 1] == '\n');
    assert(place_at(t, m + 1) == Place::Plain(0));
    assert(place_at(t, m + 2) is LineStart);
    assert(block.len() == m + 2);
    assert forall|j: int| 0 < j < block.len() implies !(#[trigger] place_at(t, j) is LineStart) by {
        if j <= n {
            assert(place_at(t, j) == Place::Plain(0));
        } else if n + 2 <= j <= m {
            assert(place_at(t, j) == Place::Line(q, 0));
        }
    }
    assert(block[0] == k[0]);
    lemma_block_is_passed_over(block, s, enabled);
}

proof fn lemma_line_run(t: Seq<char>, i: int, j: int, q: char)
    requires
        text_start(t) <= i <= j <= t.len(),
        place_at(t, i) == Place::Line(q, 0),
        forall|k: int| i <= k < j ==> #[trigger] t[k] != q && t[k] != '\\' && t[k] != '\n',
    ensures
        forall|m: int| i <= m <= j ==> #[trigger] place_at(t, m) == Place::Line(q, 0),
    decreases j - i,
{
    if i < j {
        lemma_line_run(t, i, j - 1, q);
        assert(place_at(t, j - 1) == Place::Line(q, 0));
        assert(t[j - 1] != q);
        assert(place_at(t, j) == Place::Line(q, 0));
        assert forall|m: int| i <= m <= j implies #[trigger] place_at(t, m) == Place::Line(q, 0) by {}
    }
}

/// A byte order mark stays in front, whatever is set behind it.
pub proof fn lemma_mark_stays_in_front(s: Seq<char>, enabled: bool)
    requires
        s.len() > 0 ==> s[0] != '\u{feff}',
    ensures
        with_enabled(seq!['\u{feff}'] + s, enabled) == seq!['\u{feff}'] + with_enabled(s, enabled),
{
    let mark = seq!['\u{feff}'];
    let t = mark + s;
    assert(t[0] == '\u{feff}');
    assert(text_start(t) == 1 && text_start(s) == 0);
    assert forall|j: int| 0 <= j <= s.len() implies place_at(t, 1 + j) == #[trigger] place_at(s, j) by {
        assert(s.subrange(0, j) =~= t.subrange(1, 1 + j));
        lemma_same_place_on(s, 0, t, 1, j);
    }
    assert forall|j: int| 0 <= j implies (#[trigger] is_setting(s, j) <==> is_setting(t, 1 + j)) by {
        if j < s.len() {
            assert(place_at(t, 1 + j) == place_at(s, j));
            assert(t.skip(1 + j) =~= s.skip(j));
        }
    }
    lemma_first_setting(s, 0);
    lemma_first_setting(t, 1);
    let w = flag_word(enabled);
    match first_setting(s, 0) {
        Some(p) => {
            assert(is_setting(t, 1 + p));
            assert forall|j: int| 1 <= j < 1 + p implies !is_setting(t, j) by {
                assert(!is_setting(s, j - 1));
                assert(is_setting(s, j - 1) <==> is_setting(t, 1 + (j - 1)));
            }
            lemma_first_setting_at(t, 1, 1 + p);
            lemma_equals(s.skip(p));
            lemma_value(s.skip(p));
            let v = p + value_offset(s.skip(p));
            assert(t.skip(1 + p) =~= s.skip(p));
            assert(t.skip(1 + v) =~= s.skip(v));
            lemma_letters(s.skip(v));
            let e = v + letters_len(s.skip(v));
            assert(t.take(1 + v) =~= mark + s.take(v));
            assert(t.skip(1 + e) =~= s.skip(e));
            assert((mark + s.take(v)) + w + s.skip(e) =~= mark + (s.take(v) + w + s.skip(e)));
        },
        None => {
            if let Some(q) = first_setting(t, 1) {
                assert(!is_setting(s, q - 1));
                assert(is_setting(s, q - 1) <==> is_setting(t, 1 + (q - 1)));
            }
            assert(t.take(1) =~= mark);
            assert(t.skip(1) =~= s);
            assert(s.take(0) + flag_line(enabled) + s.skip(0) =~= flag_line(enabled) + s);
            assert(mark + flag_line(enabled) + s =~= mark + (flag_line(enabled) + s));
        },
    }
}

} // verus!
