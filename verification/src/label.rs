//! Text inside the quoted strings of the DOT language: how it is escaped, and
//! how node labels are broken into lines.
use vstd::prelude::*;

verus! {

/// What stands for the character `c` inside a quoted string.
pub open spec fn escaped_char(c: char) -> Seq<char> {
    if c == '"' {
        seq!['\\', '"']
    } else if c == '\\' {
        seq!['\\', '\\']
    } else if c == '\n' {
        seq!['\\', 'n']
    } else if c == '\r' {
        seq![]
    } else {
        seq![c]
    }
}

/// What stands for the text `s` inside a quoted string.
pub open spec fn escaped(s: Seq<char>) -> Seq<char>
    decreases s.len(),
{
    if s.len() == 0 {
        seq![]
    } else {
        escaped(s.drop_last()) + escaped_char(s.last())
    }
}

/// Escapes quotes, backslashes and line breaks, and drops carriage returns.
pub fn escape_label(s: &str) -> (out: String)
    ensures
        out@ == escaped(s@),
{
    let mut out = String::new();
    for ch in it: s.chars()
        invariant
            it.seq() == s@,
            out@ == escaped(s@.take(it.index())),
    {
        proof {
            reveal_strlit("\\\"");
            reveal_strlit("\\\\");
            reveal_strlit("\\n");
            assert(s@.take(it.index() + 1).drop_last() == s@.take(it.index()));
        }
        match ch {
            '"' => out.push_str("\\\""),
            '\\' => out.push_str("\\\\"),
            '\n' => out.push_str("\\n"),
            '\r' => {},
            _ => out.push(ch),
        }
    }
    proof {
        assert(s@.take(s@.len() as int) == s@);
    }
    out
}

/// The most characters that a line of a label may have. A line always has
/// room for one.
pub open spec fn room(width: nat) -> nat {
    if width == 0 {
        1
    } else {
        width
    }
}

/// Where the first paragraph of `x` ends: at its first line break, or at its
/// end.
pub open spec fn paragraph_end(x: Seq<char>) -> nat
    decreases x.len(),
{
    if x.len() == 0 || x[0] == '\n' {
        0
    } else {
        1 + paragraph_end(x.drop_first())
    }
}

/// Where the last space of `x` stands, `-1` if it has none.
pub open spec fn last_space(x: Seq<char>) -> int
    decreases x.len(),
{
    if x.len() == 0 {
        -1
    } else if x.last() == ' ' {
        x.len() - 1
    } else {
        last_space(x.drop_last())
    }
}

/// The lines that the text `x` is broken into.
///
/// A paragraph that leaves room on its line is a line. Of a longer one, as
/// much is taken as there is room for. If there is a space in it, the line
/// goes up to the last one, which is dropped; if not, the line is all that was
/// taken.
pub open spec fn wrapped_lines(x: Seq<char>, width: nat) -> Seq<Seq<char>>
    decreases x.len(),
{
    let end = paragraph_end(x);
    proof {
        lemma_paragraph_end(x);
    }
    if end < room(width) {
        if end == x.len() {
            seq![x]
        } else {
            seq![x.take(end as int)] + wrapped_lines(x.skip(end as int + 1), width)
        }
    } else {
        let taken = x.take(room(width) as int);
        let space = last_space(taken);
        proof {
            lemma_last_space(taken);
        }
        if space >= 0 {
            seq![taken.take(space)] + wrapped_lines(x.skip(space + 1), width)
        } else {
            seq![taken] + wrapped_lines(x.skip(room(width) as int), width)
        }
    }
}

/// The lines, escaped, with DOT's mark for a centered line break between them.
pub open spec fn joined(lines: Seq<Seq<char>>) -> Seq<char>
    decreases lines.len(),
{
    if lines.len() == 0 {
        seq![]
    } else if lines.len() == 1 {
        escaped(lines[0])
    } else {
        escaped(lines[0]) + seq!['\\', 'n'] + joined(lines.drop_first())
    }
}

/// Whether a character is kept when text is broken into lines.
pub open spec fn no_return() -> spec_fn(char) -> bool {
    |c: char| c != '\r'
}

/// What stands for the text `s` in a label of the given width.
pub open spec fn wrapped(s: Seq<char>, width: nat) -> Seq<char> {
    joined(wrapped_lines(s.filter(no_return()), width))
}

/// Whether `x` is a line: no line break, no carriage return.
pub open spec fn is_line(x: Seq<char>) -> bool {
    forall|i: int| 0 <= i < x.len() ==> #[trigger] x[i] != '\n' && x[i] != '\r'
}

/// A paragraph has no line break, and one follows it unless the text ends there.
pub proof fn lemma_paragraph_end(x: Seq<char>)
    ensures
        paragraph_end(x) <= x.len(),
        paragraph_end(x) < x.len() ==> x[paragraph_end(x) as int] == '\n',
        forall|i: int| 0 <= i < paragraph_end(x) ==> #[trigger] x[i] != '\n',
    decreases x.len(),
{
    if x.len() > 0 && x[0] != '\n' {
        lemma_paragraph_end(x.drop_first());
        let rest = x.drop_first();
        assert forall|i: int| 0 <= i < paragraph_end(x) implies #[trigger] x[i] != '\n' by {
            if i > 0 {
                assert(rest[i - 1] != '\n');
            }
        }
    }
}

/// No space follows the last one.
pub proof fn lemma_last_space(x: Seq<char>)
    ensures
        -1 <= last_space(x) < x.len(),
        last_space(x) >= 0 ==> x[last_space(x)] == ' ',
        forall|i: int| last_space(x) < i < x.len() ==> #[trigger] x[i] != ' ',
    decreases x.len(),
{
    if x.len() > 0 && x.last() != ' ' {
        lemma_last_space(x.drop_last());
        assert forall|i: int| last_space(x) < i < x.len() implies #[trigger] x[i] != ' ' by {
            if i < x.len() - 1 {
                assert(x.drop_last()[i] != ' ');
            }
        }
    }
}

pub(crate) proof fn lemma_some_line(x: Seq<char>, width: nat)
    ensures
        wrapped_lines(x, width).len() > 0,
{
}

pub(crate) proof fn lemma_joined_push_front(line: Seq<char>, rest: Seq<Seq<char>>)
    requires
        rest.len() > 0,
    ensures
        joined(seq![line] + rest) == escaped(line) + seq!['\\', 'n'] + joined(rest),
{
    assert((seq![line] + rest).drop_first() =~= rest);
}

/// The last line of a text.
pub(crate) proof fn lemma_wrap_end(line: Seq<char>, width: nat)
    requires
        is_line(line),
        line.len() < room(width),
    ensures
        joined(wrapped_lines(line, width)) == escaped(line),
{
    lemma_paragraph_end(line);
}

/// A line that a line break ends.
proof fn lemma_wrap_paragraph(line: Seq<char>, rest: Seq<char>, width: nat)
    requires
        is_line(line),
        line.len() < room(width),
    ensures
        joined(wrapped_lines(line + (seq!['\n'] + rest), width)) == escaped(line) + seq!['\\', 'n']
            + joined(wrapped_lines(rest, width)),
{
    let x = line + (seq!['\n'] + rest);
    lemma_paragraph_end(x);
    assert(x[line.len() as int] == '\n');
    if paragraph_end(x) < line.len() {
        assert(x[paragraph_end(x) as int] == line[paragraph_end(x) as int]);
    }
    assert(paragraph_end(x) == line.len());
    assert(x.take(line.len() as int) =~= line);
    assert(x.skip(line.len() as int + 1) =~= rest);
    lemma_some_line(rest, width);
    lemma_joined_push_front(line, wrapped_lines(rest, width));
}

/// A line that is full.
pub(crate) proof fn lemma_wrap_full(line: Seq<char>, rest: Seq<char>, width: nat)
    requires
        is_line(line),
        line.len() == room(width),
    ensures
        last_space(line) >= 0 ==> joined(wrapped_lines(line + rest, width)) == escaped(
            line.take(last_space(line)),
        ) + seq!['\\', 'n'] + joined(
            wrapped_lines(line.skip(last_space(line) + 1) + rest, width),
        ),
        last_space(line) < 0 ==> joined(wrapped_lines(line + rest, width)) == escaped(line)
            + seq!['\\', 'n'] + joined(wrapped_lines(rest, width)),
{
    let x = line + rest;
    lemma_paragraph_end(x);
    lemma_last_space(line);
    if paragraph_end(x) < line.len() {
        assert(x[paragraph_end(x) as int] == line[paragraph_end(x) as int]);
    }
    assert(x.take(line.len() as int) =~= line);
    let space = last_space(line);
    if space >= 0 {
        assert(x.skip(space + 1) =~= line.skip(space + 1) + rest);
        lemma_some_line(x.skip(space + 1), width);
        lemma_joined_push_front(line.take(space), wrapped_lines(x.skip(space + 1), width));
    } else {
        assert(x.skip(line.len() as int) =~= rest);
        lemma_some_line(rest, width);
        lemma_joined_push_front(line, wrapped_lines(rest, width));
    }
}

/// Appends the line, with quotes and backslashes escaped.
fn flush_line(out: &mut String, line: &Vec<char>)
    requires
        is_line(line@),
    ensures
        final(out)@ == old(out)@ + escaped(line@),
{
    let ghost before = out@;
    let mut i: usize = 0;
    while i < line.len()
        invariant
            i <= line.len(),
            is_line(line@),
            out@ == before + escaped(line@.take(i as int)),
        decreases line.len() - i,
    {
        let ch: char = line[i];
        proof {
            reveal_strlit("\\\"");
            reveal_strlit("\\\\");
            assert(line@.take(i + 1).drop_last() =~= line@.take(i as int));
            assert(line@[i as int] == ch);
        }
        match ch {
            '"' => out.push_str("\\\""),
            '\\' => out.push_str("\\\\"),
            _ => out.push(ch),
        }
        assert(out@ =~= before + escaped(line@.take(i + 1)));
        i += 1;
    }
    proof {
        assert(line@.take(line.len() as int) =~= line@);
    }
}

fn find_last_space(line: &Vec<char>) -> (res: Option<usize>)
    ensures
        match res {
            Some(i) => i == last_space(line@),
            None => last_space(line@) == -1,
        },
{
    let mut i: usize = line.len();
    assert(line@.take(i as int) =~= line@);
    while i > 0
        invariant
            i <= line.len(),
            last_space(line@) == last_space(line@.take(i as int)),
        decreases i,
    {
        if line[i - 1] == ' ' {
            return Some(i - 1);
        }
        assert(line@.take(i as int).drop_last() =~= line@.take(i - 1));
        i -= 1;
    }
    None
}

/// Breaks the text into lines of at most `width` characters, a CJK character
/// counting as one, and escapes quotes and backslashes.
///
/// A full line is broken at the last space in it, the character `' '`: a tab
/// or another kind of white space does not count. If there is none, as in
/// Chinese text or in a long word, it is broken where it is full.
pub fn wrap_label(s: &str, width: usize) -> (out: String)
    ensures
        out@ == wrapped(s@, width as nat),
{
    let ghost w = width as nat;
    let ghost keep = no_return();
    let mut out = String::new();
    let mut current: Vec<char> = Vec::new();
    proof {
        assert(s@.skip(0) =~= s@);
        assert(current@ + s@.filter(keep) =~= s@.filter(keep));
        assert(out@ + wrapped(s@, w) =~= wrapped(s@, w));
    }
    for ch in it: s.chars()
        invariant
            it.seq() == s@,
            w == width,
            keep == no_return(),
            is_line(current@),
            current@.len() < room(w),
            wrapped(s@, w) == out@ + joined(
                wrapped_lines(current@ + s@.skip(it.index()).filter(keep), w),
            ),
    {
        let ghost i = it.index();
        let ghost rest = s@.skip(i + 1).filter(keep);
        proof {
            reveal_strlit("\\n");
            assert(s@.skip(i) =~= seq![ch] + s@.skip(i + 1));
            s@.skip(i + 1).lemma_filter_prepend(ch, keep);
        }
        if ch == '\n' {
            proof {
                assert("\\n"@ =~= seq!['\\', 'n']);
                lemma_wrap_paragraph(current@, rest, w);
            }
            flush_line(&mut out, &current);
            out.push_str("\\n");
            current.clear();
            proof {
                assert(current@ + rest =~= rest);
                assert(wrapped(s@, w) =~= out@ + joined(wrapped_lines(rest, w)));
            }
        } else if ch != '\r' {
            let ghost before = current@;
            current.push(ch);
            assert(before + (seq![ch] + rest) =~= current@ + rest);
            if current.len() >= width {
                let ghost line = current@;
                proof {
                    assert("\\n"@ =~= seq!['\\', 'n']);
                    lemma_wrap_full(line, rest, w);
                    lemma_last_space(line);
                }
                match find_last_space(&current) {
                    Some(idx) => {
                        let tail = current.split_off(idx + 1);
                        current.truncate(idx);
                        proof {
                            assert(current@ =~= line.take(idx as int));
                            assert(tail@ =~= line.skip(idx + 1));
                        }
                        flush_line(&mut out, &current);
                        out.push_str("\\n");
                        current = tail;
                    },
                    None => {
                        flush_line(&mut out, &current);
                        out.push_str("\\n");
                        current.clear();
                        assert(current@ + rest =~= rest);
                    },
                }
                assert(wrapped(s@, w) =~= out@ + joined(wrapped_lines(current@ + rest, w)));
            }
        }
    }
    proof {
        assert(s@.skip(s@.len() as int) =~= Seq::<char>::empty());
        s@.skip(s@.len() as int).lemma_filter_len(keep);
        assert(current@ + s@.skip(s@.len() as int).filter(keep) =~= current@);
        lemma_wrap_end(current@, w);
    }
    flush_line(&mut out, &current);
    out
}

} // verus!
