//! The text of a single-line widget: line breaks and tabs become spaces, and the line is cut to
//! the widget's width.
use vstd::prelude::*;

verus! {

/// The text that `cli_truncate::truncate` makes of `text` for `max_width` terminal columns.
pub uninterp spec fn truncated(text: Seq<char>, max_width: usize) -> Seq<char>;

/// Calls `cli_truncate::truncate`, which cuts `text` to `max_width` display columns (wide
/// characters count two, ANSI escape sequences none) and ends a cut text with `…`.
/// Trusted: its result is `truncated(text, max_width)`, and it is empty for a zero width, as the
/// crate's source returns early there. That the result fits in `max_width` columns, and that a
/// text that fits comes back unchanged, is left unsaid here: both speak of the crate's display
/// width, which nothing here names.
#[verifier::external_body]
fn truncate(text: &str, max_width: usize) -> (r: String)
    ensures
        r@ == truncated(text@, max_width),
        max_width == 0 ==> r@ == Seq::<char>::empty(),
{
    cli_truncate::truncate(text, max_width)
}

/// Calls `String::push`, which appends `c`.
#[verifier::external_body]
fn push_char(s: &mut String, c: char)
    ensures
        final(s)@ == old(s)@.push(c),
{
    s.push(c);
}

/// `s` on one line: each `"\r\n"`, and each other newline, carriage return or tab, becomes one
/// space.
pub open spec fn single_line(s: Seq<char>) -> Seq<char>
    decreases s.len(),
{
    if s.len() == 0 {
        seq![]
    } else {
        let p = single_line(s.drop_last());
        let c = s.last();
        if c == '\n' && s.len() >= 2 && s[s.len() - 2] == '\r' {
            p
        } else if c == '\n' || c == '\r' || c == '\t' {
            p.push(' ')
        } else {
            p.push(c)
        }
    }
}

/// A text on one line holds no newline, carriage return or tab, and is no longer than the text.
pub proof fn lemma_single_line_has_no_breaks(s: Seq<char>)
    ensures
        single_line(s).len() <= s.len(),
        forall|k: int|
            0 <= k < single_line(s).len() ==> {
                let c = #[trigger] single_line(s)[k];
                c != '\n' && c != '\r' && c != '\t'
            },
    decreases s.len(),
{
    if s.len() > 0 {
        lemma_single_line_has_no_breaks(s.drop_last());
    }
}

/// A text without newlines, carriage returns or tabs is already on one line.
pub proof fn lemma_single_line_keeps_plain_text(s: Seq<char>)
    requires
        forall|k: int| 0 <= k < s.len() ==> s[k] != '\n' && s[k] != '\r' && s[k] != '\t',
    ensures
        single_line(s) == s,
    decreases s.len(),
{
    if s.len() > 0 {
        lemma_single_line_keeps_plain_text(s.drop_last());
        assert(s.drop_last().push(s.last()) =~= s);
    }
}

/// Putting text on one line works piece by piece, as long as the cut does not split a
/// `"\r\n"`.
pub proof fn lemma_single_line_concat(a: Seq<char>, b: Seq<char>)
    requires
        !(a.len() > 0 && b.len() > 0 && a.last() == '\r' && b[0] == '\n'),
    ensures
        single_line(a + b) == single_line(a) + single_line(b),
    decreases b.len(),
{
    if b.len() == 0 {
        assert(a + b =~= a);
        assert(single_line(a) + single_line(b) =~= single_line(a));
    } else {
        let d = b.drop_last();
        assert((a + b).drop_last() =~= a + d);
        if d.len() == 0 {
            assert(a + d =~= a);
            assert(single_line(a) + single_line(d) =~= single_line(a));
        } else {
            assert(d[0] == b[0]);
        }
        lemma_single_line_concat(a, d);
        let ab = a + b;
        assert(ab.last() == b.last());
        if b.len() >= 2 {
            assert(ab[ab.len() - 2] == b[b.len() - 2]);
        } else if a.len() > 0 {
            assert(ab[ab.len() - 2] == a.last());
        }
        assert(single_line(a) + single_line(d).push(' ') =~= (single_line(a) + single_line(d)).push(
            ' ',
        ));
        assert(single_line(a) + single_line(d).push(b.last()) =~= (single_line(a) + single_line(
            d,
        )).push(b.last()));
    }
}

/// On one line, `"\r\n"` is one space, each newline, carriage return or tab alone is one space,
/// and any other character stays as it is.
pub proof fn lemma_single_line_pieces(c: char)
    ensures
        single_line(seq!['\r', '\n']) == seq![' '],
        (c == '\n' || c == '\r' || c == '\t') ==> single_line(seq![c]) == seq![' '],
        !(c == '\n' || c == '\r' || c == '\t') ==> single_line(seq![c]) == seq![c],
{
    reveal_with_fuel(single_line, 3);
    let crlf = seq!['\r', '\n'];
    assert(crlf.drop_last() =~= seq!['\r']);
    assert(crlf[0] == '\r' && crlf.last() == '\n');
    assert(seq!['\r'].drop_last() =~= Seq::<char>::empty());
    assert(seq![c].drop_last() =~= Seq::<char>::empty());
    assert(Seq::<char>::empty().push(' ') =~= seq![' ']);
    assert(Seq::<char>::empty().push(c) =~= seq![c]);
}

fn to_single_line(text: &str) -> (line: String)
    ensures
        line@ == single_line(text@),
{
    broadcast use vstd::string::group_string_axioms;

    let mut line = String::new();
    let mut after_cr = false;
    for c in it: text.chars()
        invariant
            it.seq() == text@,
            line@ == single_line(text@.take(it.index() as int)),
            after_cr == (it.index() > 0 && text@[it.index() - 1] == '\r'),
    {
        proof {
            assert(text@.take(it.index() + 1).drop_last() =~= text@.take(it.index() as int));
        }
        if c == '\n' && after_cr {
        } else if c == '\n' || c == '\r' || c == '\t' {
            push_char(&mut line, ' ');
        } else {
            push_char(&mut line, c);
        }
        after_cr = c == '\r';
    }
    assert(text@.take(text@.len() as int) =~= text@);
    line
}

/// The text that a single-line widget of `width` columns shows for `text`.
///
/// Newlines, carriage returns, and tabs are replaced with spaces. Text is truncated to the
/// width with an ellipsis, accounting for wide characters and ANSI sequences.
pub fn line_text(text: &str, width: u16) -> (shown: String)
    ensures
        shown@ == truncated(single_line(text@), width as usize),
        width == 0 ==> shown@ == Seq::<char>::empty(),
{
    let line = to_single_line(text);
    truncate(line.as_str(), width as usize)
}

} // verus!
