//! The lines of a text.

use crate::text::{chars_of, string_of_range, texts};
use vstd::prelude::*;

verus! {

/// The position of the first line feed of `s` at or after `from`, or the
/// length of `s` where there is none.
pub open spec fn line_end(s: Seq<char>, from: int) -> int
    decreases s.len() - from,
{
    if from < 0 || from >= s.len() {
        s.len() as int
    } else if s[from] == '\n' {
        from
    } else {
        line_end(s, from + 1)
    }
}

/// A line without the carriage return at its end, if it has one.
pub open spec fn without_cr(line: Seq<char>) -> Seq<char> {
    if line.len() > 0 && line.last() == '\r' {
        line.drop_last()
    } else {
        line
    }
}

/// The lines of `s` from position `from` on. A line ends at a line feed; the
/// line feed, and a carriage return just before it, belong to no line. What
/// follows the last line feed is a line of its own unless it is empty, and is
/// kept as it stands.
pub open spec fn lines_from(s: Seq<char>, from: int) -> Seq<Seq<char>>
    decreases s.len() - from,
{
    if from < 0 || from >= s.len() {
        Seq::empty()
    } else {
        let end = line_end(s, from);
        if from <= end < s.len() {
            seq![without_cr(s.subrange(from, end))] + lines_from(s, end + 1)
        } else {
            seq![s.subrange(from, s.len() as int)]
        }
    }
}

/// The lines of a text, in order.
pub open spec fn lines_of(s: Seq<char>) -> Seq<Seq<char>> {
    lines_from(s, 0)
}

/// The end of a line is not before its start nor behind the text, a line
/// feed stands there unless the text ends, and none stands before it.
pub proof fn lemma_line_end(s: Seq<char>, from: int)
    requires
        0 <= from <= s.len(),
    ensures
        from <= line_end(s, from) <= s.len(),
        line_end(s, from) < s.len() ==> s[line_end(s, from)] == '\n',
        forall|i: int| from <= i < line_end(s, from) ==> s[i] != '\n',
    decreases s.len() - from,
{
    if from < s.len() && s[from] != '\n' {
        lemma_line_end(s, from + 1);
    }
}

/// No line holds a line feed.
pub proof fn lemma_lines_hold_no_line_feed(s: Seq<char>, from: int)
    requires
        0 <= from,
    ensures
        forall|i: int, j: int|
            0 <= i < lines_from(s, from).len() && 0 <= j < lines_from(s, from)[i].len()
                ==> #[trigger] lines_from(s, from)[i][j] != '\n',
    decreases s.len() - from,
{
    if from < s.len() {
        lemma_line_end(s, from);
        let end = line_end(s, from);
        let lines = lines_from(s, from);
        if end < s.len() {
            lemma_lines_hold_no_line_feed(s, end + 1);
            let rest = lines_from(s, end + 1);
            let line = without_cr(s.subrange(from, end));
            assert(lines == seq![line] + rest);
            assert forall|i: int, j: int|
                0 <= i < lines.len() && 0 <= j < lines[i].len() implies #[trigger] lines[i][j]
                != '\n' by {
                if i == 0 {
                    assert(lines[0][j] == s[from + j]);
                } else {
                    assert(lines[i] == rest[i - 1]);
                }
            }
        } else {
            assert forall|i: int, j: int|
                0 <= i < lines.len() && 0 <= j < lines[i].len() implies #[trigger] lines[i][j]
                != '\n' by {
                assert(lines[0][j] == s[from + j]);
            }
        }
    }
}

/// The lines put together again, each followed by a line feed.
pub open spec fn joined(lines: Seq<Seq<char>>) -> Seq<char> {
    lines.map_values(|line: Seq<char>| line.push('\n')).flatten()
}

/// Nothing is lost between the lines: the lines of a text without carriage
/// returns, put together again, are the text, with a line feed at the end
/// where the text had none.
pub proof fn lemma_lines_rejoin(s: Seq<char>, from: int)
    requires
        0 <= from <= s.len(),
        forall|i: int| 0 <= i < s.len() ==> s[i] != '\r',
    ensures
        joined(lines_from(s, from)) == if from == s.len() {
            Seq::<char>::empty()
        } else if s.last() == '\n' {
            s.subrange(from, s.len() as int)
        } else {
            s.subrange(from, s.len() as int).push('\n')
        },
    decreases s.len() - from,
{
    let lines = lines_from(s, from);
    let ended = |line: Seq<char>| line.push('\n');
    if from == s.len() {
        assert(lines.map_values(ended) =~= Seq::<Seq<char>>::empty());
    } else {
        lemma_line_end(s, from);
        let end = line_end(s, from);
        if end < s.len() {
            let line = s.subrange(from, end);
            let rest = lines_from(s, end + 1);
            assert(without_cr(line) == line) by {
                if line.len() > 0 {
                    assert(line.last() == s[end - 1]);
                }
            }
            assert(lines == seq![line] + rest);
            assert(lines.map_values(ended).first() == line.push('\n'));
            assert(lines.map_values(ended).drop_first() =~= rest.map_values(ended));
            lemma_lines_rejoin(s, end + 1);
            assert(joined(lines) == line.push('\n') + joined(rest));
            assert(line.push('\n') =~= s.subrange(from, end + 1));
            if end + 1 == s.len() {
                assert(line.push('\n') + Seq::<char>::empty() =~= s.subrange(from, s.len() as int));
            } else if s.last() == '\n' {
                assert(s.subrange(from, end + 1) + s.subrange(end + 1, s.len() as int)
                    =~= s.subrange(from, s.len() as int));
            } else {
                assert(s.subrange(from, end + 1) + s.subrange(end + 1, s.len() as int).push('\n')
                    =~= s.subrange(from, s.len() as int).push('\n'));
            }
        } else {
            let line = s.subrange(from, s.len() as int);
            assert(lines == seq![line]);
            assert(lines.map_values(ended).first() == line.push('\n'));
            assert(lines.map_values(ended).drop_first() =~= Seq::<Seq<char>>::empty());
            assert(Seq::<Seq<char>>::empty().flatten() =~= Seq::<char>::empty());
            assert(joined(lines) =~= line.push('\n'));
            assert(s.last() != '\n');
        }
    }
}

/// Splits a text into its lines.
pub fn split_lines(text: &str) -> (lines: Vec<String>)
    ensures
        texts(lines@) == lines_of(text@),
{
    let chars = chars_of(text);
    let mut lines: Vec<String> = Vec::new();
    let mut from: usize = 0;
    while from < chars.len()
        invariant
            from <= chars.len(),
            chars@ == text@,
            texts(lines@) + lines_from(text@, from as int) == lines_of(text@),
        decreases chars.len() - from,
    {
        let mut end: usize = from;
        while end < chars.len() && chars[end] != '\n'
            invariant
                from <= end <= chars.len(),
                chars@ == text@,
                line_end(text@, from as int) == line_end(text@, end as int),
            decreases chars.len() - end,
        {
            end += 1;
        }
        let ghost before = texts(lines@);
        if end < chars.len() {
            let stop = if end > from && chars[end - 1] == '\r' {
                end - 1
            } else {
                end
            };
            let line = string_of_range(&chars, from, stop);
            assert(line@ == without_cr(text@.subrange(from as int, end as int)));
            lines.push(line);
            assert(texts(lines@) == before.push(line@));
            assert(before.push(line@) + lines_from(text@, end + 1) == before + (seq![line@]
                + lines_from(text@, end + 1)));
            from = end + 1;
        } else {
            let line = string_of_range(&chars, from, end);
            lines.push(line);
            assert(texts(lines@) == before.push(line@));
            assert(before.push(line@) + lines_from(text@, end as int) == before + seq![line@]);
            from = end;
        }
    }
    assert(texts(lines@) + Seq::<Seq<char>>::empty() == texts(lines@));
    lines
}

} // verus!
