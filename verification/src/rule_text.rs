//! What the text of a rule file says, line by line: its settings, and its clauses.

use vstd::prelude::*;
use vstd::string::*;

use crate::rule_files;
use crate::rules::{Duration, Match, MatchValue, Rule};
use crate::text;
use crate::toml_text;

verus! {

/// How many characters come before the first line feed.
pub open spec fn line_len(s: Seq<char>) -> int
    decreases s.len(),
{
    if s.len() == 0 || s[0] == '\n' {
        0
    } else {
        1 + line_len(s.skip(1))
    }
}

/// The lines of a text.
pub open spec fn lines(s: Seq<char>) -> Seq<Seq<char>>
    decreases s.len(),
{
    if s.len() == 0 {
        Seq::empty()
    } else {
        let n = line_len(s);
        seq![s.take(n)] + if 0 <= n < s.len() {
            lines(s.skip(n + 1))
        } else {
            Seq::empty()
        }
    }
}

/// Lines, each with its line feed.
pub open spec fn unlines(ls: Seq<Seq<char>>) -> Seq<char>
    decreases ls.len(),
{
    if ls.len() == 0 {
        Seq::empty()
    } else {
        ls[0] + seq!['\n'] + unlines(ls.skip(1))
    }
}

/// A line without a line feed in it.
pub open spec fn is_line(l: Seq<char>) -> bool {
    forall|i: int| 0 <= i < l.len() ==> l[i] != '\n'
}

pub open spec fn are_lines(ls: Seq<Seq<char>>) -> bool {
    forall|i: int| 0 <= i < ls.len() ==> is_line(#[trigger] ls[i])
}

/// The line begins a table.
pub open spec fn is_header(l: Seq<char>) -> bool {
    l.len() > 0 && l[0] == '['
}

/// How many lines come before the first that begins a table.
pub open spec fn header_at(ls: Seq<Seq<char>>) -> int
    decreases ls.len(),
{
    if ls.len() == 0 || is_header(ls[0]) {
        0
    } else {
        1 + header_at(ls.skip(1))
    }
}

/// The lines of each table, without the line that begins it. `ls` begins with a table.
pub open spec fn tables(ls: Seq<Seq<char>>) -> Seq<Seq<Seq<char>>>
    decreases ls.len(),
{
    if ls.len() == 0 {
        Seq::empty()
    } else {
        let body = ls.skip(1);
        let n = header_at(body);
        seq![body.take(n)] + if 0 <= n <= body.len() {
            tables(body.skip(n))
        } else {
            Seq::empty()
        }
    }
}

/// One of the lines sets a key to a value.
pub open spec fn says(ls: Seq<Seq<char>>, key: Seq<char>, value: Seq<char>) -> bool {
    exists|i: int| 0 <= i < ls.len() && #[trigger] ls[i] == key + " = "@ + value
}

/// None of the lines sets a key.
pub open spec fn is_silent(ls: Seq<Seq<char>>, key: Seq<char>) -> bool {
    forall|i: int| 0 <= i < ls.len() ==> !(key + " = "@).is_prefix_of(#[trigger] ls[i])
}

/// A text in double quotes.
pub open spec fn quoted(s: Seq<char>) -> Seq<char> {
    seq!['"'] + toml_text::escaped(s) + seq!['"']
}

/// The lines of a table say a clause on a text.
pub open spec fn states_clause(ls: Seq<Seq<char>>, m: Match) -> bool {
    &&& says(ls, "type"@, quoted(rule_files::field_word(m.field)))
    &&& says(ls, "op"@, quoted(rule_files::op_word(m.op)))
    &&& m.value matches MatchValue::Str(s)
    &&& says(ls, "value"@, quoted(s@))
}

/// A rule file with clauses on texts says a rule: what its first lines set, what holds where
/// they set nothing, and a clause for each table.
pub open spec fn states_rule(file: Seq<char>, r: Rule) -> bool {
    let ls = lines(file);
    let top = ls.take(header_at(ls));
    let ts = tables(ls.skip(header_at(ls)));
    &&& match r.id {
        Some(id) => says(top, "id"@, quoted(id@)),
        None => is_silent(top, "id"@),
    }
    &&& says(top, "priority"@, text::decimal(r.priority as nat)) || (is_silent(top, "priority"@) && r.priority == 100)
    &&& says(
        top,
        "enabled"@,
        if r.enabled {
            "true"@
        } else {
            "false"@
        },
    ) || (is_silent(top, "enabled"@) && r.enabled)
    &&& says(top, "action"@, quoted(r.action.word()))
    &&& says(top, "duration"@, quoted(r.duration.word())) || (is_silent(top, "duration"@) && r.duration
        == Duration::Persistent)
    &&& ts.len() == r.matches@.len()
    &&& forall|i: int| 0 <= i < ts.len() ==> states_clause(#[trigger] ts[i], r.matches@[i])
}

/// A line ends at its line feed.
pub proof fn lemma_line_len(l: Seq<char>, rest: Seq<char>)
    requires
        is_line(l),
    ensures
        line_len(l + seq!['\n'] + rest) == l.len(),
    decreases l.len(),
{
    let s = l + seq!['\n'] + rest;
    if l.len() > 0 {
        assert(s[0] == l[0]);
        assert forall|i: int| 0 <= i < l.skip(1).len() implies l.skip(1)[i] != '\n' by {
            assert(l.skip(1)[i] == l[i + 1]);
        }
        lemma_line_len(l.skip(1), rest);
        assert(s.skip(1) =~= l.skip(1) + seq!['\n'] + rest);
    } else {
        assert(s[0] == '\n');
    }
}

/// Lines that are put together are the lines of what they make up.
pub proof fn lemma_lines_read_back(ls: Seq<Seq<char>>)
    requires
        are_lines(ls),
    ensures
        lines(unlines(ls)) == ls,
    decreases ls.len(),
{
    if ls.len() == 0 {
        assert(lines(unlines(ls)) =~= ls);
    } else {
        let rest = ls.skip(1);
        let s = unlines(ls);
        let n = ls[0].len() as int;
        assert(is_line(ls[0]));
        lemma_line_len(ls[0], unlines(rest));
        assert forall|i: int| 0 <= i < rest.len() implies is_line(#[trigger] rest[i]) by {
            assert(rest[i] == ls[i + 1]);
        }
        lemma_lines_read_back(rest);
        assert(s.take(n) =~= ls[0]);
        assert(s.skip(n + 1) =~= unlines(rest));
        assert(seq![ls[0]] + rest =~= ls);
    }
}

/// Lines put together in two parts.
pub proof fn lemma_unlines_joined(a: Seq<Seq<char>>, b: Seq<Seq<char>>)
    ensures
        unlines(a + b) == unlines(a) + unlines(b),
    decreases a.len(),
{
    if a.len() == 0 {
        assert(a + b =~= b);
        assert(unlines(a) + unlines(b) =~= unlines(b));
    } else {
        lemma_unlines_joined(a.skip(1), b);
        assert((a + b).skip(1) =~= a.skip(1) + b);
        assert((a + b)[0] == a[0]);
        assert(unlines(a + b) =~= unlines(a) + unlines(b));
    }
}

/// Lines none of which begins like one that sets `enabled` make up a text that does not set
/// it.
pub proof fn lemma_lines_set_no_flag(ls: Seq<Seq<char>>)
    requires
        are_lines(ls),
        forall|i: int|
            0 <= i < ls.len() && (#[trigger] ls[i]).len() > 0 ==> !toml_text::may_set_flag(ls[i][0]),
    ensures
        toml_text::sets_no_flag(unlines(ls)),
    decreases ls.len(),
{
    if ls.len() > 0 {
        let rest = ls.skip(1);
        let s = unlines(ls);
        let l = ls[0];
        assert forall|i: int| 0 <= i < rest.len() implies is_line(#[trigger] rest[i]) by {
            assert(rest[i] == ls[i + 1]);
        }
        assert forall|i: int| 0 <= i < rest.len() && (#[trigger] rest[i]).len() > 0 implies !toml_text::may_set_flag(
            rest[i][0],
        ) by {
            assert(rest[i] == ls[i + 1]);
        }
        lemma_lines_set_no_flag(rest);
        let t = unlines(rest);
        let n = l.len() as int;
        assert(is_line(l));
        assert forall|i: int| 0 <= i < s.len() && (i == 0 || s[i - 1] == '\n') implies !toml_text::may_set_flag(
            #[trigger] s[i],
        ) by {
            if i <= n {
                if i > 0 {
                    assert(s[i - 1] == l[i - 1]);
                }
            } else {
                let k = i - n - 1;
                assert(s[i] == t[k]);
                if k > 0 {
                    assert(s[i - 1] == t[k - 1]);
                }
            }
        }
    }
}

/// Quoted texts are the same only if the texts are.
pub proof fn lemma_quoted_tells_apart(a: Seq<char>, b: Seq<char>)
    requires
        quoted(a) == quoted(b),
    ensures
        a == b,
{
    let none = Seq::<char>::empty();
    toml_text::lemma_quoted_value_reads_back(a, none);
    toml_text::lemma_quoted_value_reads_back(b, none);
    assert(quoted(a).skip(1) =~= toml_text::escaped(a) + seq!['"'] + none);
    assert(quoted(b).skip(1) =~= toml_text::escaped(b) + seq!['"'] + none);
}

/// A line that sets a key begins with it, and the rest of it is the value.
pub proof fn lemma_line_of_key(key: Seq<char>, value: Seq<char>)
    requires
        key.len() > 0,
    ensures
        (key + " = "@ + value)[0] == key[0],
        (key + " = "@ + value).skip(key.len() as int + 3) == value,
        (key + " = "@).is_prefix_of(key + " = "@ + value),
{
    reveal_strlit(" = ");
    let l = key + " = "@ + value;
    assert(l.skip(key.len() as int + 3) =~= value);
    assert(l.take((key + " = "@).len() as int) =~= key + " = "@);
}

} // verus!
