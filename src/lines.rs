use vstd::prelude::*;

use crate::entries::{
    connoted_text, entry_text, is_connoted_line, is_entry_line, Connotation, Entry, EntryId,
};
use crate::parsing::{parse_connoted_chars, parse_entry_chars};
use crate::text::chars_of;

verus! {

/// The text without the one line ending (`"\n"` or `"\r\n"`) that may close it.
pub open spec fn body_of(t: Seq<char>) -> Seq<char> {
    if t.len() >= 2 && t[t.len() - 2] == '\r' && t[t.len() - 1] == '\n' {
        t.take(t.len() - 2)
    } else if t.len() >= 1 && t[t.len() - 1] == '\n' {
        t.take(t.len() - 1)
    } else {
        t
    }
}

/// A line that a `'\n'` closed loses the `'\r'` of a `"\r\n"` ending.
pub open spec fn strip_cr(l: Seq<char>) -> Seq<char> {
    if l.len() > 0 && l.last() == '\r' {
        l.drop_last()
    } else {
        l
    }
}

/// Reading `t` left to right: the lines closed by a `'\n'` so far, and the open line.
pub open spec fn split_state(t: Seq<char>) -> (Seq<Seq<char>>, Seq<char>)
    decreases t.len(),
{
    if t.len() == 0 {
        (Seq::empty(), Seq::empty())
    } else {
        let (done, open) = split_state(t.drop_last());
        if t.last() == '\n' {
            (done.push(strip_cr(open)), Seq::empty())
        } else {
            (done, open.push(t.last()))
        }
    }
}

/// The lines of a file: none for an empty file, else the lines separated by line endings,
/// with at most one line ending after the last. A file that is a line ending alone holds one
/// empty line.
pub open spec fn file_lines(t: Seq<char>) -> Seq<Seq<char>> {
    let b = body_of(t);
    if t.len() == 0 {
        Seq::empty()
    } else {
        split_state(b).0.push(split_state(b).1)
    }
}

/// The line (counted from 0) that made a whole-file parse fail.
#[derive(Clone, Copy, Debug, PartialEq, Eq, Structural)]
pub struct ParseError {
    pub line: usize,
}

/// Splits a file into its lines, as `file_lines` describes.
pub fn split_lines(text: &str) -> (r: Vec<Vec<char>>)
    ensures
        r.len() == file_lines(text@).len(),
        forall|i: int| 0 <= i < r.len() ==> #[trigger] r[i]@ == file_lines(text@)[i],
{
    let chars = chars_of(text);
    let n = chars.len();
    let end: usize = if n >= 2 && chars[n - 2] == '\r' && chars[n - 1] == '\n' {
        n - 2
    } else if n >= 1 && chars[n - 1] == '\n' {
        n - 1
    } else {
        n
    };
    let ghost b = body_of(text@);
    assert(b =~= chars@.take(end as int));
    let mut done: Vec<Vec<char>> = Vec::new();
    if n == 0 {
        return done;
    }
    let mut open: Vec<char> = Vec::new();
    let mut i: usize = 0;
    while i < end
        invariant
            i <= end <= chars@.len(),
            b == chars@.take(end as int),
            done@.len() == split_state(b.take(i as int)).0.len(),
            forall|k: int| 0 <= k < done@.len() ==> #[trigger] done@[k]@ == split_state(b.take(i as int)).0[k],
            open@ == split_state(b.take(i as int)).1,
        decreases end - i,
    {
        let c = chars[i];
        assert(b.take(i + 1).drop_last() =~= b.take(i as int));
        assert(b.take(i + 1).last() == c);
        if c == '\n' {
            if open.len() > 0 && open[open.len() - 1] == '\r' {
                open.pop();
                assert(open@ =~= strip_cr(split_state(b.take(i as int)).1));
            }
            done.push(open);
            open = Vec::new();
        } else {
            open.push(c);
        }
        i = i + 1;
    }
    assert(b.take(end as int) =~= b);
    done.push(open);
    done
}

/// The text's last line has no line ending, so a line appended to the text must be preceded
/// by one.
pub fn needs_line_ending(text: &str) -> (r: bool)
    ensures
        r == (text@.len() > 0 && text@.last() != '\n'),
{
    let chars = chars_of(text);
    chars.len() > 0 && chars[chars.len() - 1] != '\n'
}

/// Parses a vocabulary file, one entry per line. Fails, with no entries, exactly when some
/// line is not an entry line, and then names the first such line.
pub fn parse_lines(input: &str) -> (r: Result<Vec<Entry>, ParseError>)
    ensures
        match r {
            Ok(v) => v.len() == file_lines(input@).len() && forall|i: int|
                0 <= i < v.len() ==> (#[trigger] v[i]).wf() && file_lines(input@)[i]
                    == entry_text(v[i].word@, v[i].form, v[i].definition@),
            Err(e) => e.line < file_lines(input@).len() && !is_entry_line(
                file_lines(input@)[e.line as int],
            ) && forall|j: int|
                0 <= j < e.line ==> is_entry_line(#[trigger] file_lines(input@)[j]),
        },
        r is Ok <==> forall|i: int|
            0 <= i < file_lines(input@).len() ==> is_entry_line(#[trigger] file_lines(input@)[i]),
{
    let lines = split_lines(input);
    let ghost ls = file_lines(input@);
    let mut out: Vec<Entry> = Vec::new();
    let mut i: usize = 0;
    while i < lines.len()
        invariant
            ls == file_lines(input@),
            i <= lines.len() == ls.len(),
            forall|k: int| 0 <= k < lines.len() ==> #[trigger] lines[k]@ == ls[k],
            out.len() == i,
            forall|k: int|
                0 <= k < i ==> (#[trigger] out[k]).wf() && ls[k] == entry_text(
                    out[k].word@,
                    out[k].form,
                    out[k].definition@,
                ),
        decreases lines.len() - i,
    {
        match parse_entry_chars(&lines[i]) {
            Some(e) => out.push(e),
            None => {
                proof {
                    assert(lines[i as int]@ == ls[i as int]);
                    assert forall|j: int| 0 <= j < i implies is_entry_line(#[trigger] ls[j]) by {
                        assert(ls[j] == entry_text(out[j].word@, out[j].form, out[j].definition@));
                    }
                }
                return Err(ParseError { line: i });
            },
        }
        i = i + 1;
    }
    proof {
        assert forall|j: int| 0 <= j < ls.len() implies is_entry_line(#[trigger] ls[j]) by {
            assert(ls[j] == entry_text(out[j].word@, out[j].form, out[j].definition@));
        }
    }
    Ok(out)
}

/// Parses a connotation file, one record per line. Fails, with no records, exactly when some
/// line is not a connoted line, and then names the first such line.
pub fn parse_connoted_lines(input: &str) -> (r: Result<Vec<(EntryId, Connotation)>, ParseError>)
    ensures
        match r {
            Ok(v) => v.len() == file_lines(input@).len() && forall|i: int|
                0 <= i < v.len() ==> (#[trigger] v[i]).0.wf() && file_lines(input@)[i]
                    == connoted_text(v[i].0.word@, v[i].0.form, v[i].1),
            Err(e) => e.line < file_lines(input@).len() && !is_connoted_line(
                file_lines(input@)[e.line as int],
            ) && forall|j: int|
                0 <= j < e.line ==> is_connoted_line(#[trigger] file_lines(input@)[j]),
        },
        r is Ok <==> forall|i: int|
            0 <= i < file_lines(input@).len() ==> is_connoted_line(
                #[trigger] file_lines(input@)[i],
            ),
{
    let lines = split_lines(input);
    let ghost ls = file_lines(input@);
    let mut out: Vec<(EntryId, Connotation)> = Vec::new();
    let mut i: usize = 0;
    while i < lines.len()
        invariant
            ls == file_lines(input@),
            i <= lines.len() == ls.len(),
            forall|k: int| 0 <= k < lines.len() ==> #[trigger] lines[k]@ == ls[k],
            out.len() == i,
            forall|k: int|
                0 <= k < i ==> (#[trigger] out[k]).0.wf() && ls[k] == connoted_text(
                    out[k].0.word@,
                    out[k].0.form,
                    out[k].1,
                ),
        decreases lines.len() - i,
    {
        match parse_connoted_chars(&lines[i]) {
            Some(rec) => out.push(rec),
            None => {
                proof {
                    assert(lines[i as int]@ == ls[i as int]);
                    assert forall|j: int| 0 <= j < i implies is_connoted_line(#[trigger] ls[j]) by {
                        assert(ls[j] == connoted_text(out[j].0.word@, out[j].0.form, out[j].1));
                    }
                }
                return Err(ParseError { line: i });
            },
        }
        i = i + 1;
    }
    proof {
        assert forall|j: int| 0 <= j < ls.len() implies is_connoted_line(#[trigger] ls[j]) by {
            assert(ls[j] == connoted_text(out[j].0.word@, out[j].0.form, out[j].1));
        }
    }
    Ok(out)
}


/// Reading characters that hold no `'\n'` only extends the open line.
proof fn lemma_split_extend(t: Seq<char>, x: Seq<char>)
    requires
        forall|i: int| 0 <= i < x.len() ==> x[i] != '\n',
    ensures
        split_state(t + x) == (split_state(t).0, split_state(t).1 + x),
    decreases x.len(),
{
    if x.len() == 0 {
        assert(t + x =~= t);
        assert(split_state(t).1 + x =~= split_state(t).1);
    } else {
        let y = x.drop_last();
        lemma_split_extend(t, y);
        assert((t + x).drop_last() =~= t + y);
        assert((t + x).last() == x.last());
        assert((split_state(t).1 + y).push(x.last()) =~= split_state(t).1 + x);
    }
}

/// A text that a line ending closes has read all of its lines and has no open line.
proof fn lemma_split_closed(t: Seq<char>)
    requires
        t.len() > 0,
        t.last() == '\n',
    ensures
        split_state(t) == (file_lines(t), Seq::<char>::empty()),
{
    let b = body_of(t);
    if t.len() >= 2 && t[t.len() - 2] == '\r' {
        let br = t.drop_last();
        assert(br.drop_last() =~= b);
        assert(br.last() == '\r');
        assert(split_state(br) == (split_state(b).0, split_state(b).1.push('\r')));
        assert(strip_cr(split_state(b).1.push('\r')) =~= split_state(b).1);
    } else {
        assert(t.drop_last() =~= b);
        let o = split_state(b).1;
        if b.len() > 0 && b.last() != '\n' {
            assert(o.last() == b.last());
        }
        assert(strip_cr(o) == o);
    }
}

/// Appending a line that holds no line break and does not end in `'\r'`, followed by `'\n'`,
/// to a text that is empty or closes its last line with a line ending, keeps the text's lines
/// and adds that one.
pub(crate) proof fn lemma_append_line(t: Seq<char>, line: Seq<char>)
    requires
        line.len() > 0,
        forall|i: int| 0 <= i < line.len() ==> line[i] != '\n',
        line.last() != '\r',
        t.len() == 0 || t.last() == '\n',
    ensures
        file_lines(t + line.push('\n')) == file_lines(t).push(line),
{
    let u = t + line.push('\n');
    assert(u.len() >= 2 && u[u.len() - 2] == line.last() && u[u.len() - 1] == '\n');
    assert(body_of(u) =~= t + line);
    lemma_split_extend(t, line);
    if t.len() == 0 {
        assert(t + line =~= line);
        assert(Seq::<char>::empty() + line =~= line);
        assert(file_lines(t) =~= Seq::<Seq<char>>::empty());
    } else {
        lemma_split_closed(t);
        assert(Seq::<char>::empty() + line =~= line);
    }
}

} // verus!
