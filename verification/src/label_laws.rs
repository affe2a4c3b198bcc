//! What holds of escaped text and of labels: they stay inside the quotes that
//! they are put in, and they keep what they say.
use vstd::prelude::*;

use crate::label::{
    escaped, escaped_char, is_line, joined, last_space, lemma_joined_push_front, lemma_last_space,
    lemma_paragraph_end, lemma_some_line, lemma_wrap_end, lemma_wrap_full, no_return,
    paragraph_end, room, wrapped, wrapped_lines,
};

verus! {

/// Whether `t` can stand between quotes: none of its quotes ends the string,
/// no backslash is left over to take the closing quote with it, and no line
/// ends inside.
pub open spec fn is_quotable(t: Seq<char>) -> bool
    decreases t.len(),
{
    if t.len() == 0 {
        true
    } else if t[0] == '\\' {
        t.len() >= 2 && t[1] != '\n' && t[1] != '\r' && is_quotable(t.skip(2))
    } else {
        t[0] != '"' && t[0] != '\n' && t[0] != '\r' && is_quotable(t.skip(1))
    }
}

/// The text that `t` stands for between quotes.
pub open spec fn unescaped(t: Seq<char>) -> Seq<char>
    decreases t.len(),
{
    if t.len() == 0 {
        seq![]
    } else if t[0] == '\\' && t.len() >= 2 {
        seq![
            if t[1] == 'n' {
                '\n'
            } else {
                t[1]
            },
        ] + unescaped(t.skip(2))
    } else {
        seq![t[0]] + unescaped(t.skip(1))
    }
}

pub(crate) proof fn lemma_quotable_add(a: Seq<char>, b: Seq<char>)
    requires
        is_quotable(a),
    ensures
        is_quotable(b) ==> is_quotable(a + b),
        unescaped(a + b) == unescaped(a) + unescaped(b),
    decreases a.len(),
{
    if a.len() == 0 {
        assert(a + b =~= b);
        assert(unescaped(a) + unescaped(b) =~= unescaped(b));
    } else if a[0] == '\\' {
        lemma_quotable_add(a.skip(2), b);
        assert((a + b).skip(2) =~= a.skip(2) + b);
        assert(unescaped(a + b) =~= unescaped(a) + unescaped(b));
    } else {
        lemma_quotable_add(a.skip(1), b);
        assert((a + b).skip(1) =~= a.skip(1) + b);
        assert(unescaped(a + b) =~= unescaped(a) + unescaped(b));
    }
}

proof fn lemma_escaped_char(c: char)
    ensures
        is_quotable(escaped_char(c)),
        unescaped(escaped_char(c)) == if c == '\r' {
            seq![]
        } else {
            seq![c]
        },
{
    reveal_with_fuel(is_quotable, 3);
    reveal_with_fuel(unescaped, 3);
    let e = escaped_char(c);
    assert(e.len() == 2 ==> e.skip(2) =~= seq![]);
    assert(e.len() == 1 ==> e.skip(1) =~= seq![]);
    assert(unescaped(e) =~= if c == '\r' {
        seq![]
    } else {
        seq![c]
    });
}

/// Escaped text can stand between quotes, whatever the text.
pub proof fn law_escaped_text_is_quotable(s: Seq<char>)
    ensures
        is_quotable(escaped(s)),
    decreases s.len(),
{
    if s.len() > 0 {
        law_escaped_text_is_quotable(s.drop_last());
        lemma_escaped_char(s.last());
        lemma_quotable_add(escaped(s.drop_last()), escaped_char(s.last()));
    }
}

/// Escaped text stands for the text itself, without its carriage returns.
pub proof fn law_escaping_loses_only_returns(s: Seq<char>)
    ensures
        unescaped(escaped(s)) == s.filter(no_return()),
    decreases s.len(),
{
    let keep = no_return();
    if s.len() == 0 {
        s.lemma_filter_len(keep);
        assert(s.filter(keep) =~= unescaped(escaped(s)));
    } else {
        let init = s.drop_last();
        law_escaping_loses_only_returns(init);
        law_escaped_text_is_quotable(init);
        lemma_escaped_char(s.last());
        lemma_quotable_add(escaped(init), escaped_char(s.last()));
        init.lemma_filter_push(s.last(), keep);
        assert(init.push(s.last()) =~= s);
        assert(unescaped(escaped(s)) =~= s.filter(keep));
    }
}

/// Text can be escaped piece by piece.
pub proof fn law_escaping_goes_piece_by_piece(a: Seq<char>, b: Seq<char>)
    ensures
        escaped(a + b) == escaped(a) + escaped(b),
    decreases b.len(),
{
    if b.len() == 0 {
        assert(a + b =~= a);
        assert(escaped(a) + escaped(b) =~= escaped(a));
    } else {
        law_escaping_goes_piece_by_piece(a, b.drop_last());
        assert((a + b).drop_last() =~= a + b.drop_last());
        assert(escaped(a + b) =~= escaped(a) + escaped(b));
    }
}

proof fn lemma_joined_is_quotable(lines: Seq<Seq<char>>)
    ensures
        is_quotable(joined(lines)),
    decreases lines.len(),
{
    if lines.len() == 1 {
        law_escaped_text_is_quotable(lines[0]);
    } else if lines.len() > 1 {
        let mark = seq!['\\', 'n'];
        law_escaped_text_is_quotable(lines[0]);
        lemma_escaped_char('\n');
        assert(escaped_char('\n') =~= mark);
        lemma_quotable_add(escaped(lines[0]), mark);
        lemma_joined_is_quotable(lines.drop_first());
        lemma_quotable_add(escaped(lines[0]) + mark, joined(lines.drop_first()));
    }
}

/// A label can stand between quotes, whatever its text and width.
pub proof fn law_labels_are_quotable(s: Seq<char>, width: nat)
    ensures
        is_quotable(wrapped(s, width)),
{
    lemma_joined_is_quotable(wrapped_lines(s.filter(no_return()), width));
}

/// No line of a label is longer than its width, except that a line of a label
/// without width has room for one character.
pub proof fn law_lines_fit(x: Seq<char>, width: nat, i: int)
    requires
        0 <= i < wrapped_lines(x, width).len(),
    ensures
        wrapped_lines(x, width)[i].len() <= room(width),
        !wrapped_lines(x, width)[i].contains('\n'),
    decreases x.len(),
{
    let end = paragraph_end(x);
    lemma_paragraph_end(x);
    if end < room(width) {
        if end < x.len() && i > 0 {
            law_lines_fit(x.skip(end as int + 1), width, i - 1);
        }
    } else {
        let taken = x.take(room(width) as int);
        let space = last_space(taken);
        lemma_last_space(taken);
        if i > 0 {
            if space >= 0 {
                law_lines_fit(x.skip(space + 1), width, i - 1);
            } else {
                law_lines_fit(x.skip(room(width) as int), width, i - 1);
            }
        }
    }
}

/// A line is broken inside a word only if the word leaves no other choice: a
/// line that is full has no space in it.
pub proof fn law_full_lines_have_no_space(x: Seq<char>, width: nat, i: int)
    requires
        0 <= i < wrapped_lines(x, width).len(),
        wrapped_lines(x, width)[i].len() == room(width),
    ensures
        !wrapped_lines(x, width)[i].contains(' '),
    decreases x.len(),
{
    let end = paragraph_end(x);
    lemma_paragraph_end(x);
    if end < room(width) {
        if end < x.len() && i > 0 {
            law_full_lines_have_no_space(x.skip(end as int + 1), width, i - 1);
        }
    } else {
        let taken = x.take(room(width) as int);
        let space = last_space(taken);
        lemma_last_space(taken);
        if i > 0 {
            if space >= 0 {
                law_full_lines_have_no_space(x.skip(space + 1), width, i - 1);
            } else {
                law_full_lines_have_no_space(x.skip(room(width) as int), width, i - 1);
            }
        }
    }
}

/// Whether every paragraph of `x` is shorter than `width`: among any `width`
/// characters in a row there is a line break.
pub open spec fn has_short_paragraphs(x: Seq<char>, width: nat) -> bool {
    forall|i: int|
        0 <= i && i + width <= x.len() ==> (#[trigger] x.subrange(i, i + width)).contains('\n')
}

proof fn lemma_short_paragraphs(x: Seq<char>, width: nat)
    requires
        has_short_paragraphs(x, width),
    ensures
        joined(wrapped_lines(x, width)) == escaped(x),
    decreases x.len(),
{
    let end = paragraph_end(x);
    lemma_paragraph_end(x);
    assert(width > 0) by {
        assert(width == 0 ==> x.subrange(0int, 0int + width).len() == 0);
    }
    if end >= width {
        let w = x.subrange(0int, 0int + width);
        assert(w.contains('\n'));
        let k = choose|k: int| 0 <= k < w.len() && w[k] == '\n';
        assert(x[k] == '\n');
        assert(false);
    }
    if end < x.len() {
        let line = x.take(end as int);
        let rest = x.skip(end as int + 1);
        assert forall|i: int| 0 <= i && i + width <= rest.len() implies (#[trigger] rest.subrange(
            i,
            i + width,
        )).contains('\n') by {
            let j = i + end + 1;
            assert(x.subrange(j, j + width).contains('\n'));
            assert(x.subrange(j, j + width) =~= rest.subrange(i, i + width));
        }
        lemma_short_paragraphs(rest, width);
        let lines = wrapped_lines(rest, width);
        assert(lines.len() > 0);
        assert((seq![line] + lines).drop_first() =~= lines);
        assert(x =~= line + (seq!['\n'] + rest));
        law_escaping_goes_piece_by_piece(line, seq!['\n'] + rest);
        law_escaping_goes_piece_by_piece(seq!['\n'], rest);
        reveal_with_fuel(escaped, 2);
        assert(escaped(seq!['\n']) =~= seq!['\\', 'n']);
        assert(joined(wrapped_lines(x, width)) =~= escaped(x));
    }
}

proof fn lemma_escaped_without_returns(s: Seq<char>)
    ensures
        escaped(s.filter(no_return())) == escaped(s),
    decreases s.len(),
{
    let keep = no_return();
    if s.len() == 0 {
        s.lemma_filter_len(keep);
        assert(s.filter(keep) =~= s);
    } else {
        let init = s.drop_last();
        lemma_escaped_without_returns(init);
        init.lemma_filter_push(s.last(), keep);
        assert(init.push(s.last()) =~= s);
        if s.last() != '\r' {
            assert(s.filter(keep).drop_last() =~= init.filter(keep));
        }
        assert(escaped(s.filter(keep)) =~= escaped(s));
    }
}

/// A label whose paragraphs are all shorter than its width is not broken: it
/// is the escaped text.
pub proof fn law_short_text_is_not_broken(s: Seq<char>, width: nat)
    requires
        has_short_paragraphs(s.filter(no_return()), width),
    ensures
        wrapped(s, width) == escaped(s),
{
    lemma_short_paragraphs(s.filter(no_return()), width);
    lemma_escaped_without_returns(s);
}

/// The characters other than spaces and line breaks.
pub open spec fn is_visible() -> spec_fn(char) -> bool {
    |c: char| c != ' ' && c != '\n'
}

proof fn lemma_visible_after(x: Seq<char>, line: Seq<char>, k: int, lines: Seq<Seq<char>>)
    requires
        0 <= line.len() <= k <= x.len(),
        line == x.take(line.len() as int),
        forall|i: int| line.len() <= i < k ==> !is_visible()(#[trigger] x[i]),
        lines.flatten().filter(is_visible()) == x.skip(k).filter(is_visible()),
    ensures
        (seq![line] + lines).flatten().filter(is_visible()) == x.filter(is_visible()),
{
    let vis = is_visible();
    let gap = x.subrange(line.len() as int, k);
    assert((seq![line] + lines).drop_first() =~= lines);
    assert((seq![line] + lines).flatten() =~= line + lines.flatten());
    Seq::filter_distributes_over_add(line, lines.flatten(), vis);
    assert(x =~= line + (gap + x.skip(k)));
    Seq::filter_distributes_over_add(line, gap + x.skip(k), vis);
    Seq::filter_distributes_over_add(gap, x.skip(k), vis);
    if gap.filter(vis).len() > 0 {
        let c = gap.filter(vis)[0];
        gap.lemma_filter_pred(vis, 0);
        gap.lemma_filter_contains_rev(vis, c);
        let i = choose|i: int| 0 <= i < gap.len() && gap[i] == c;
        assert(!vis(x[line.len() + i]));
        assert(false);
    }
    assert(gap.filter(vis) + x.skip(k).filter(vis) =~= x.skip(k).filter(vis));
}

/// Breaking text into lines loses no character but spaces and line breaks,
/// adds none, and changes no order.
pub proof fn law_breaking_keeps_visible_text(x: Seq<char>, width: nat)
    ensures
        wrapped_lines(x, width).flatten().filter(is_visible()) == x.filter(is_visible()),
    decreases x.len(),
{
    let end = paragraph_end(x);
    lemma_paragraph_end(x);
    if end < room(width) {
        if end == x.len() {
            wrapped_lines(x, width).lemma_flatten_one_element();
        } else {
            let rest = x.skip(end as int + 1);
            law_breaking_keeps_visible_text(rest, width);
            lemma_visible_after(x, x.take(end as int), end as int + 1, wrapped_lines(rest, width));
        }
    } else {
        let taken = x.take(room(width) as int);
        let space = last_space(taken);
        lemma_last_space(taken);
        if space >= 0 {
            let rest = x.skip(space + 1);
            law_breaking_keeps_visible_text(rest, width);
            assert(taken.take(space) =~= x.take(space));
            assert(x[space] == ' ');
            lemma_visible_after(x, x.take(space), space + 1, wrapped_lines(rest, width));
        } else {
            let rest = x.skip(room(width) as int);
            law_breaking_keeps_visible_text(rest, width);
            lemma_visible_after(x, taken, room(width) as int, wrapped_lines(rest, width));
        }
    }
}

/// What Graphviz reads between quotes: a quote or a backslash where it stands
/// behind a backslash, a line break for `\n`. Nothing is read where a quote
/// ends the string, where a line ends, or where any other character stands
/// behind a backslash, which would not be shown as it is.
pub open spec fn reading(t: Seq<char>) -> Option<Seq<char>>
    decreases t.len(),
{
    if t.len() == 0 {
        Some(seq![])
    } else if t[0] == '\\' {
        if t.len() >= 2 && (t[1] == '"' || t[1] == '\\' || t[1] == 'n') {
            match reading(t.skip(2)) {
                Some(rest) => Some(
                    seq![
                        if t[1] == 'n' {
                            '\n'
                        } else {
                            t[1]
                        },
                    ] + rest,
                ),
                None => None,
            }
        } else {
            None
        }
    } else if t[0] == '"' || t[0] == '\n' || t[0] == '\r' {
        None
    } else {
        match reading(t.skip(1)) {
            Some(rest) => Some(seq![t[0]] + rest),
            None => None,
        }
    }
}

proof fn lemma_reading_add(a: Seq<char>, b: Seq<char>)
    requires
        reading(a) is Some,
        reading(b) is Some,
    ensures
        reading(a + b) == Some(reading(a)->0 + reading(b)->0),
    decreases a.len(),
{
    if a.len() == 0 {
        assert(a + b =~= b);
        assert(reading(a)->0 + reading(b)->0 =~= reading(b)->0);
    } else {
        let k: int = if a[0] == '\\' {
            2
        } else {
            1
        };
        lemma_reading_add(a.skip(k), b);
        assert((a + b).skip(k) =~= a.skip(k) + b);
        assert(reading(a + b)->0 =~= reading(a)->0 + reading(b)->0);
    }
}

proof fn lemma_reading_char(c: char)
    ensures
        reading(escaped_char(c)) == Some(
            if c == '\r' {
                seq![]
            } else {
                seq![c]
            },
        ),
{
    reveal_with_fuel(reading, 3);
    let e = escaped_char(c);
    assert(e.len() == 2 ==> e.skip(2) =~= seq![]);
    assert(e.len() == 1 ==> e.skip(1) =~= seq![]);
    assert(reading(e)->0 =~= if c == '\r' {
        seq![]
    } else {
        seq![c]
    });
}

/// Escaped text is read as the text itself, without its carriage returns.
pub proof fn law_escaped_text_is_read_as_it_is(s: Seq<char>)
    ensures
        reading(escaped(s)) == Some(s.filter(|c: char| c != '\r')),
    decreases s.len(),
{
    let keep = |c: char| c != '\r';
    if s.len() == 0 {
        s.lemma_filter_len(keep);
        assert(s.filter(keep) =~= seq![]);
    } else {
        let init = s.drop_last();
        law_escaped_text_is_read_as_it_is(init);
        lemma_reading_char(s.last());
        lemma_reading_add(escaped(init), escaped_char(s.last()));
        init.lemma_filter_push(s.last(), keep);
        assert(init.push(s.last()) =~= s);
        assert(reading(escaped(s))->0 =~= s.filter(keep));
    }
}

/// Text without quotes, backslashes, line breaks and carriage returns is left
/// as it is.
pub proof fn law_plain_text_is_left_as_it_is(s: Seq<char>)
    requires
        forall|i: int|
            0 <= i < s.len() ==> #[trigger] s[i] != '"' && s[i] != '\\' && s[i] != '\n' && s[i]
                != '\r',
    ensures
        escaped(s) == s,
    decreases s.len(),
{
    if s.len() > 0 {
        let init = s.drop_last();
        assert forall|i: int| 0 <= i < init.len() implies #[trigger] init[i] != '"' && init[i]
            != '\\' && init[i] != '\n' && init[i] != '\r' by {
            assert(init[i] == s[i]);
        }
        law_plain_text_is_left_as_it_is(init);
        assert(s[s.len() - 1] == s.last());
        assert(escaped(s) =~= s);
    }
}

proof fn lemma_lines_apart(x: Seq<char>, y: Seq<char>, width: nat)
    ensures
        joined(wrapped_lines(x + seq!['\n'] + y, width)) == joined(wrapped_lines(x, width)) + seq![
            '\\',
            'n',
        ] + joined(wrapped_lines(y, width)),
    decreases x.len(),
{
    let z = x + seq!['\n'] + y;
    let end = paragraph_end(x);
    let mark = seq!['\\', 'n'];
    lemma_paragraph_end(x);
    lemma_paragraph_end(z);
    assert(z[x.len() as int] == '\n');
    assert(end < x.len() ==> z[end as int] == x[end as int]);
    assert(paragraph_end(z) == end) by {
        if paragraph_end(z) < end {
            assert(x[paragraph_end(z) as int] == z[paragraph_end(z) as int]);
        }
        if end < paragraph_end(z) {
            assert(z[end as int] == '\n');
        }
    }
    lemma_some_line(y, width);
    if end < room(width) {
        assert(z.take(end as int) =~= x.take(end as int));
        if end == x.len() {
            assert(x.take(end as int) =~= x);
            assert(z.skip(end as int + 1) =~= y);
            lemma_joined_push_front(x, wrapped_lines(y, width));
        } else {
            let k = end as int + 1;
            let rest = x.skip(k);
            assert(z.skip(k) =~= rest + seq!['\n'] + y);
            lemma_lines_apart(rest, y, width);
            lemma_some_line(rest, width);
            lemma_some_line(z.skip(k), width);
            lemma_joined_push_front(x.take(end as int), wrapped_lines(rest, width));
            lemma_joined_push_front(x.take(end as int), wrapped_lines(z.skip(k), width));
            assert(joined(wrapped_lines(z, width)) =~= joined(wrapped_lines(x, width)) + mark
                + joined(wrapped_lines(y, width)));
        }
    } else {
        let taken = x.take(room(width) as int);
        let space = last_space(taken);
        lemma_last_space(taken);
        assert(z.take(room(width) as int) =~= taken);
        let line = if space >= 0 {
            taken.take(space)
        } else {
            taken
        };
        let k = if space >= 0 {
            space + 1
        } else {
            room(width) as int
        };
        let rest = x.skip(k);
        assert(z.skip(k) =~= rest + seq!['\n'] + y);
        lemma_lines_apart(rest, y, width);
        lemma_some_line(rest, width);
        lemma_some_line(z.skip(k), width);
        lemma_joined_push_front(line, wrapped_lines(rest, width));
        lemma_joined_push_front(line, wrapped_lines(z.skip(k), width));
        assert(joined(wrapped_lines(z, width)) =~= joined(wrapped_lines(x, width)) + mark + joined(
            wrapped_lines(y, width),
        ));
    }
}

/// A line break of the text is a line break of its label, and what stands
/// before and after it is broken into lines apart.
pub proof fn law_line_breaks_are_kept(a: Seq<char>, b: Seq<char>, width: nat)
    ensures
        wrapped(a + seq!['\n'] + b, width) == wrapped(a, width) + seq!['\\', 'n'] + wrapped(
            b,
            width,
        ),
{
    let keep = no_return();
    let nl = seq!['\n'];
    Seq::filter_distributes_over_add(a + nl, b, keep);
    Seq::filter_distributes_over_add(a, nl, keep);
    lemma_line_without_returns(nl);
    lemma_lines_apart(a.filter(keep), b.filter(keep), width);
}

proof fn lemma_line_without_returns(x: Seq<char>)
    requires
        forall|i: int| 0 <= i < x.len() ==> #[trigger] x[i] != '\r',
    ensures
        x.filter(no_return()) == x,
    decreases x.len(),
{
    let keep = no_return();
    if x.len() == 0 {
        x.lemma_filter_len(keep);
        assert(x.filter(keep) =~= x);
    } else {
        let init = x.drop_last();
        assert forall|i: int| 0 <= i < init.len() implies #[trigger] init[i] != '\r' by {
            assert(init[i] == x[i]);
        }
        lemma_line_without_returns(init);
        init.lemma_filter_push(x.last(), keep);
        assert(init.push(x.last()) =~= x);
        assert(x[x.len() - 1] == x.last());
    }
}

/// Carriage returns make no difference to a label.
pub proof fn law_returns_make_no_difference(a: Seq<char>, b: Seq<char>, width: nat)
    ensures
        wrapped(a + seq!['\r'] + b, width) == wrapped(a + b, width),
        escaped(a + seq!['\r'] + b) == escaped(a + b),
{
    let keep = no_return();
    let cr = seq!['\r'];
    Seq::filter_distributes_over_add(a + cr, b, keep);
    Seq::filter_distributes_over_add(a, cr, keep);
    Seq::filter_distributes_over_add(a, b, keep);
    Seq::<char>::empty().lemma_filter_push('\r', keep);
    Seq::<char>::empty().lemma_filter_len(keep);
    assert(Seq::<char>::empty().push('\r') =~= cr);
    assert(cr.filter(keep) =~= seq![]);
    assert(a.filter(keep) + cr.filter(keep) =~= a.filter(keep));
    law_escaping_goes_piece_by_piece(a + cr, b);
    law_escaping_goes_piece_by_piece(a, cr);
    law_escaping_goes_piece_by_piece(a, b);
    reveal_with_fuel(escaped, 2);
    assert(escaped(cr) =~= seq![]);
    assert(escaped(a) + escaped(cr) =~= escaped(a));
}

/// A line that leaves room is not broken.
pub proof fn law_short_line_is_not_broken(line: Seq<char>, width: nat)
    requires
        forall|i: int| 0 <= i < line.len() ==> #[trigger] line[i] != '\n' && line[i] != '\r',
        line.len() < width || line.len() == 0,
    ensures
        wrapped(line, width) == escaped(line),
{
    lemma_line_without_returns(line);
    assert(is_line(line));
    lemma_wrap_end(line, width);
}

/// A line that is full is broken at its last space, which is dropped. What
/// stands behind the space goes on the next line.
pub proof fn law_full_line_is_broken_at_its_last_space(
    line: Seq<char>,
    rest: Seq<char>,
    width: nat,
    space: int,
)
    requires
        forall|i: int| 0 <= i < line.len() ==> #[trigger] line[i] != '\n' && line[i] != '\r',
        line.len() == width || width == 0 && line.len() == 1,
        0 <= space < line.len(),
        line[space] == ' ',
        forall|i: int| space < i < line.len() ==> #[trigger] line[i] != ' ',
    ensures
        wrapped(line + rest, width) == escaped(line.take(space)) + seq!['\\', 'n'] + wrapped(
            line.skip(space + 1) + rest,
            width,
        ),
{
    let keep = no_return();
    let tail = line.skip(space + 1);
    lemma_line_without_returns(line);
    lemma_line_without_returns(tail);
    Seq::filter_distributes_over_add(line, rest, keep);
    Seq::filter_distributes_over_add(tail, rest, keep);
    assert(is_line(line));
    lemma_last_space(line);
    assert(last_space(line) == space) by {
        if last_space(line) < space {
            assert(line[space] != ' ');
        }
        if last_space(line) > space {
            assert(line[last_space(line)] != ' ');
        }
    }
    lemma_wrap_full(line, rest.filter(keep), width);
}

/// A line that is full and has no space is broken behind its last character.
pub proof fn law_full_line_without_space_is_broken_at_its_end(
    line: Seq<char>,
    rest: Seq<char>,
    width: nat,
)
    requires
        forall|i: int|
            0 <= i < line.len() ==> #[trigger] line[i] != '\n' && line[i] != '\r' && line[i] != ' ',
        line.len() == width && width > 0 || width == 0 && line.len() == 1,
    ensures
        wrapped(line + rest, width) == escaped(line) + seq!['\\', 'n'] + wrapped(rest, width),
{
    let keep = no_return();
    lemma_line_without_returns(line);
    Seq::filter_distributes_over_add(line, rest, keep);
    assert(is_line(line));
    lemma_last_space(line);
    lemma_wrap_full(line, rest.filter(keep), width);
}

/// The lines with line breaks between them.
spec fn as_text(lines: Seq<Seq<char>>) -> Seq<char>
    decreases lines.len(),
{
    if lines.len() == 0 {
        seq![]
    } else if lines.len() == 1 {
        lines[0]
    } else {
        lines[0] + seq!['\n'] + as_text(lines.drop_first())
    }
}

proof fn lemma_reading_joined(lines: Seq<Seq<char>>)
    requires
        forall|i: int| 0 <= i < lines.len() ==> is_line(#[trigger] lines[i]),
    ensures
        reading(joined(lines)) == Some(as_text(lines)),
    decreases lines.len(),
{
    if lines.len() > 0 {
        let line = lines[0];
        assert(is_line(line));
        law_escaped_text_is_read_as_it_is(line);
        lemma_line_without_returns(line);
        assert((|c: char| c != '\r') =~= no_return());
        if lines.len() > 1 {
            let rest = lines.drop_first();
            let mark = seq!['\\', 'n'];
            assert forall|i: int| 0 <= i < rest.len() implies is_line(#[trigger] rest[i]) by {
                assert(rest[i] == lines[i + 1]);
            }
            lemma_reading_joined(rest);
            lemma_reading_char('\n');
            assert(escaped_char('\n') =~= mark);
            lemma_reading_add(escaped(line), mark);
            lemma_reading_add(escaped(line) + mark, joined(rest));
        }
    }
}

proof fn lemma_lines_are_lines(x: Seq<char>, width: nat, i: int)
    requires
        forall|k: int| 0 <= k < x.len() ==> #[trigger] x[k] != '\r',
        0 <= i < wrapped_lines(x, width).len(),
    ensures
        is_line(wrapped_lines(x, width)[i]),
    decreases x.len(),
{
    let end = paragraph_end(x);
    lemma_paragraph_end(x);
    if end < room(width) {
        if end < x.len() && i > 0 {
            lemma_lines_are_lines(x.skip(end as int + 1), width, i - 1);
        }
    } else {
        let taken = x.take(room(width) as int);
        let space = last_space(taken);
        lemma_last_space(taken);
        if i > 0 {
            if space >= 0 {
                lemma_lines_are_lines(x.skip(space + 1), width, i - 1);
            } else {
                lemma_lines_are_lines(x.skip(room(width) as int), width, i - 1);
            }
        }
    }
}

proof fn lemma_label_text(s: Seq<char>, width: nat)
    ensures
        reading(wrapped(s, width)) == Some(
            as_text(wrapped_lines(s.filter(no_return()), width)),
        ),
{
    let x = s.filter(no_return());
    assert forall|k: int| 0 <= k < x.len() implies #[trigger] x[k] != '\r' by {
        s.lemma_filter_pred(no_return(), k);
    }
    let lines = wrapped_lines(x, width);
    assert forall|i: int| 0 <= i < lines.len() implies is_line(#[trigger] lines[i]) by {
        lemma_lines_are_lines(x, width, i);
    }
    lemma_reading_joined(lines);
}

proof fn lemma_text_fits(lines: Seq<Seq<char>>, most: nat, i: int)
    requires
        forall|k: int| 0 <= k < lines.len() ==> (#[trigger] lines[k]).len() <= most,
        0 <= i,
        i + most + 1 <= as_text(lines).len(),
    ensures
        as_text(lines).subrange(i, i + most + 1).contains('\n'),
    decreases lines.len(),
{
    if lines.len() > 0 {
        let line = lines[0];
        assert(line.len() <= most);
        if lines.len() > 1 {
            let rest = lines.drop_first();
            let text = as_text(lines);
            let window = text.subrange(i, i + most + 1);
            assert forall|k: int| 0 <= k < rest.len() implies (#[trigger] rest[k]).len() <= most by {
                assert(rest[k] == lines[k + 1]);
            }
            if i <= line.len() {
                assert(window[line.len() - i] == '\n');
            } else {
                let j = i - line.len() - 1;
                lemma_text_fits(rest, most, j);
                assert(window =~= as_text(rest).subrange(j, j + most + 1));
            }
        }
    }
}

/// A label is read as text of which no line is longer than its width, except
/// that a line of a label without width has room for one character.
pub proof fn law_lines_of_a_label_fit(s: Seq<char>, width: nat, i: int)
    ensures
        reading(wrapped(s, width)) is Some,
        width > 0 && 0 <= i && i + width + 1 <= reading(wrapped(s, width))->0.len() ==> reading(
            wrapped(s, width),
        )->0.subrange(i, i + width + 1).contains('\n'),
        width == 0 && 0 <= i && i + 2 <= reading(wrapped(s, width))->0.len() ==> reading(
            wrapped(s, width),
        )->0.subrange(i, i + 2).contains('\n'),
{
    let x = s.filter(no_return());
    let lines = wrapped_lines(x, width);
    lemma_label_text(s, width);
    assert forall|k: int| 0 <= k < lines.len() implies (#[trigger] lines[k]).len() <= room(
        width,
    ) by {
        law_lines_fit(x, width, k);
    }
    if 0 <= i && i + room(width) + 1 <= as_text(lines).len() {
        lemma_text_fits(lines, room(width), i);
    }
}

proof fn lemma_text_keeps(lines: Seq<Seq<char>>, vis: spec_fn(char) -> bool)
    requires
        !vis('\n'),
    ensures
        as_text(lines).filter(vis) == lines.flatten().filter(vis),
    decreases lines.len(),
{
    if lines.len() == 0 {
        assert(lines.flatten() =~= as_text(lines));
    } else if lines.len() == 1 {
        lines.lemma_flatten_one_element();
    } else {
        let line = lines[0];
        let rest = lines.drop_first();
        let nl = seq!['\n'];
        lemma_text_keeps(rest, vis);
        assert(lines.flatten() =~= line + rest.flatten());
        Seq::filter_distributes_over_add(line, rest.flatten(), vis);
        Seq::filter_distributes_over_add(line + nl, as_text(rest), vis);
        Seq::filter_distributes_over_add(line, nl, vis);
        Seq::<char>::empty().lemma_filter_push('\n', vis);
        Seq::<char>::empty().lemma_filter_len(vis);
        assert(Seq::<char>::empty().push('\n') =~= nl);
        assert(nl.filter(vis) =~= seq![]);
        assert(line.filter(vis) + nl.filter(vis) =~= line.filter(vis));
    }
}

proof fn lemma_visible_without_returns(s: Seq<char>, vis: spec_fn(char) -> bool, shown: spec_fn(char) -> bool)
    requires
        forall|c: char| #[trigger] shown(c) == (vis(c) && c != '\r'),
    ensures
        s.filter(no_return()).filter(vis) == s.filter(shown),
    decreases s.len(),
{
    let keep = no_return();
    if s.len() == 0 {
        s.lemma_filter_len(keep);
        s.lemma_filter_len(shown);
        s.filter(keep).lemma_filter_len(vis);
        assert(s.filter(keep).filter(vis) =~= s.filter(shown));
    } else {
        let init = s.drop_last();
        let c = s.last();
        lemma_visible_without_returns(init, vis, shown);
        init.lemma_filter_push(c, keep);
        init.lemma_filter_push(c, shown);
        init.filter(keep).lemma_filter_push(c, vis);
        assert(init.push(c) =~= s);
        assert(shown(c) == (vis(c) && c != '\r'));
    }
}

/// A label is read as its text, but for spaces, line breaks and carriage
/// returns: no other character is lost, added or moved.
pub proof fn law_labels_keep_visible_text(s: Seq<char>, width: nat)
    ensures
        reading(wrapped(s, width)) is Some,
        reading(wrapped(s, width))->0.filter(|c: char| c != ' ' && c != '\n') == s.filter(
            |c: char| c != ' ' && c != '\n' && c != '\r',
        ),
{
    let x = s.filter(no_return());
    let lines = wrapped_lines(x, width);
    let vis = |c: char| c != ' ' && c != '\n';
    let shown = |c: char| c != ' ' && c != '\n' && c != '\r';
    assert(vis =~= is_visible());
    lemma_label_text(s, width);
    lemma_text_keeps(lines, vis);
    law_breaking_keeps_visible_text(x, width);
    lemma_visible_without_returns(s, vis, shown);
}

} // verus!
