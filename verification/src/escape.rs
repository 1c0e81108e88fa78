//! Escaping of content lines that would otherwise read as block headers.
//!
//! A block of the store file opens with a line whose first character after
//! any indentation is `#`. A content line of that shape is written with a
//! backslash in front of it, and read back without it.

use crate::text::{
    copy_range, in_class, is_space, join, join_range, lemma_run, lemma_run_is, lines, run, scan,
    split_lines, strip_cr, views, CharClass,
};
use vstd::prelude::*;

verus! {

/// Whether the first character of `line` after its indentation is `#`.
pub open spec fn marks_header(line: Seq<char>) -> bool {
    let k = run(line, CharClass::Space) as int;
    k < line.len() && line[k] == '#'
}

/// Whether the first characters of `line` after its indentation are `\#`.
pub open spec fn is_escaped(line: Seq<char>) -> bool {
    let k = run(line, CharClass::Space) as int;
    k + 1 < line.len() && line[k] == '\\' && line[k + 1] == '#'
}

/// A line as it is written: with a backslash in front where it would read
/// as a header, unchanged otherwise.
pub open spec fn escape_line(line: Seq<char>) -> Seq<char> {
    if marks_header(line) {
        seq!['\\'] + line
    } else {
        line
    }
}

/// A line as it is read: without the backslash of a leading `\#`, unchanged
/// otherwise. The indentation stays.
pub open spec fn unescape_line(line: Seq<char>) -> Seq<char> {
    if is_escaped(line) {
        let k = run(line, CharClass::Space) as int;
        line.take(k) + line.skip(k + 1)
    } else {
        line
    }
}

/// The text whose lines are the escaped lines of `s`.
pub open spec fn escape_text(s: Seq<char>) -> Seq<char> {
    join(lines(s).map_values(|l: Seq<char>| escape_line(l)), '\n')
}

/// The text whose lines are the unescaped lines of `s`.
pub open spec fn unescape_text(s: Seq<char>) -> Seq<char> {
    join(lines(s).map_values(|l: Seq<char>| unescape_line(l)), '\n')
}

/// Tests whether a line would read as a header.
pub fn line_marks_header(line: &Vec<char>) -> (r: bool)
    ensures
        r == marks_header(line@),
{
    let k = scan(line, 0, CharClass::Space);
    assert(line@.skip(0) == line@);
    k < line.len() && line[k] == '#'
}

/// Escapes one line.
pub fn escape_one(line: &Vec<char>) -> (out: Vec<char>)
    ensures
        out@ == escape_line(line@),
{
    let mut out: Vec<char> = Vec::new();
    if line_marks_header(line) {
        out.push('\\');
    }
    let ghost head = out@;
    let mut i: usize = 0;
    while i < line.len()
        invariant
            i <= line.len(),
            out@ == head + line@.take(i as int),
        decreases line.len() - i,
    {
        out.push(line[i]);
        i += 1;
    }
    assert(line@.take(line.len() as int) == line@);
    out
}

/// Unescapes one line.
pub fn unescape_one(line: &Vec<char>) -> (out: Vec<char>)
    ensures
        out@ == unescape_line(line@),
{
    let k = scan(line, 0, CharClass::Space);
    assert(line@.skip(0) == line@);
    let n = line.len();
    if k < n && n - k > 1 && line[k] == '\\' && line[k + 1] == '#' {
        let mut out = copy_range(line, 0, k);
        let mut i: usize = k + 1;
        while i < n
            invariant
                k + 1 <= i <= n,
                n == line.len(),
                out@ == line@.take(k as int) + line@.subrange(k + 1, i as int),
            decreases n - i,
        {
            out.push(line[i]);
            i += 1;
        }
        assert(line@.subrange(k + 1, n as int) == line@.skip(k + 1));
        out
    } else {
        let out = copy_range(line, 0, n);
        assert(line@.subrange(0, n as int) == line@);
        out
    }
}

/// The text whose lines are the escaped lines of `text`.
pub fn escape_chars(text: &Vec<char>) -> (out: Vec<char>)
    ensures
        out@ == escape_text(text@),
{
    let ls = split_lines(text);
    let mut mapped: Vec<Vec<char>> = Vec::new();
    let mut i: usize = 0;
    while i < ls.len()
        invariant
            i <= ls.len(),
            mapped.len() == i,
            forall|j: int| 0 <= j < i ==> (#[trigger] mapped@[j])@ == escape_line(ls@[j]@),
        decreases ls.len() - i,
    {
        mapped.push(escape_one(&ls[i]));
        i += 1;
    }
    proof {
        let want = lines(text@).map_values(|l: Seq<char>| escape_line(l));
        assert(views(mapped@) =~= want) by {
            assert forall|j: int| 0 <= j < want.len() implies views(mapped@)[j] == want[j] by {
                assert(views(ls@)[j] == ls@[j]@);
            }
        }
        assert(views(mapped@).subrange(0, mapped.len() as int) == views(mapped@));
    }
    join_range(&mapped, 0, mapped.len(), '\n')
}

/// The text whose lines are the unescaped lines of `text`.
pub fn unescape_chars(text: &Vec<char>) -> (out: Vec<char>)
    ensures
        out@ == unescape_text(text@),
{
    let ls = split_lines(text);
    let mut mapped: Vec<Vec<char>> = Vec::new();
    let mut i: usize = 0;
    while i < ls.len()
        invariant
            i <= ls.len(),
            mapped.len() == i,
            forall|j: int| 0 <= j < i ==> (#[trigger] mapped@[j])@ == unescape_line(ls@[j]@),
        decreases ls.len() - i,
    {
        mapped.push(unescape_one(&ls[i]));
        i += 1;
    }
    proof {
        let want = lines(text@).map_values(|l: Seq<char>| unescape_line(l));
        assert(views(mapped@) =~= want) by {
            assert forall|j: int| 0 <= j < want.len() implies views(mapped@)[j] == want[j] by {
                assert(views(ls@)[j] == ls@[j]@);
            }
        }
        assert(views(mapped@).subrange(0, mapped.len() as int) == views(mapped@));
    }
    join_range(&mapped, 0, mapped.len(), '\n')
}

/// Whether no character of `l` is a line feed.
pub open spec fn no_newline(l: Seq<char>) -> bool {
    forall|j: int| 0 <= j < l.len() ==> #[trigger] l[j] != '\n'
}

/// Whether splitting the joined parts gives the parts back: no part holds a
/// line feed, none but the last ends in a carriage return, and the last is
/// not empty.
pub open spec fn splits_back(parts: Seq<Seq<char>>) -> bool {
    &&& forall|i: int| 0 <= i < parts.len() ==> no_newline(#[trigger] parts[i])
    &&& forall|i: int|
        0 <= i < parts.len() - 1 ==> !((#[trigger] parts[i]).len() > 0 && parts[i].last() == '\r')
    &&& parts.len() > 0 ==> parts.last().len() > 0
}

/// Joining with line feeds and splitting into lines are inverse on the
/// lists of `splits_back`.
pub proof fn lemma_lines_of_join(parts: Seq<Seq<char>>)
    requires
        splits_back(parts),
    ensures
        lines(join(parts, '\n')) == parts,
    decreases parts.len(),
{
    if parts.len() == 0 {
    } else if parts.len() == 1 {
        let p = parts[0];
        assert(parts.last() == p);
        assert forall|i: int| 0 <= i < p.len() implies in_class(
            CharClass::Until('\n'),
            #[trigger] p[i],
        ) by {}
        lemma_run_is(p, CharClass::Until('\n'), p.len() as int);
        assert(lines(p) == seq![p]);
        assert(parts == seq![p]);
    } else {
        let p = parts[0];
        let rest = parts.skip(1);
        let s = join(parts, '\n');
        let k = p.len() as int;
        assert(s == p + seq!['\n'] + join(rest, '\n'));
        assert forall|i: int| 0 <= i < k implies in_class(
            CharClass::Until('\n'),
            #[trigger] s[i],
        ) by {
            assert(s[i] == p[i]);
        }
        assert(s[k] == '\n');
        lemma_run_is(s, CharClass::Until('\n'), k);
        assert(s.take(k) == p);
        assert(strip_cr(p) == p);
        assert(s.skip(k + 1) == join(rest, '\n'));
        assert(splits_back(rest)) by {
            assert forall|i: int| 0 <= i < rest.len() implies no_newline(#[trigger] rest[i]) by {
                assert(rest[i] == parts[i + 1]);
            }
            assert forall|i: int| 0 <= i < rest.len() - 1 implies !((#[trigger] rest[i]).len() > 0
                && rest[i].last() == '\r') by {
                assert(rest[i] == parts[i + 1]);
            }
            assert(rest.last() == parts.last());
        }
        lemma_lines_of_join(rest);
        assert(lines(s) == seq![p] + rest);
        assert(seq![p] + rest == parts);
    }
}

/// Whether `s` is the text that its own lines join to: it does not end in a
/// line feed, and no carriage return stands right before a line feed.
pub open spec fn is_canonical(s: Seq<char>) -> bool {
    &&& s.len() > 0 ==> s.last() != '\n'
    &&& forall|i: int| 0 < i < s.len() && #[trigger] s[i] == '\n' ==> s[i - 1] != '\r'
}

/// The lines of a canonical text join back to it, and split back.
pub proof fn lemma_lines_of_canonical(s: Seq<char>)
    requires
        is_canonical(s),
    ensures
        join(lines(s), '\n') == s,
        splits_back(lines(s)),
        s.len() > 0 ==> lines(s).len() > 0,
    decreases s.len(),
{
    let k = run(s, CharClass::Until('\n')) as int;
    lemma_run(s, CharClass::Until('\n'));
    if s.len() == 0 {
    } else if k >= s.len() {
        assert(lines(s) == seq![s]);
        assert(lines(s).last() == s);
    } else {
        let head = s.take(k);
        let rest = s.skip(k + 1);
        assert(s[k] == '\n');
        assert(k + 1 < s.len());
        if k > 0 {
            assert(head.last() == s[k - 1]);
        }
        assert(strip_cr(head) == head);
        assert(is_canonical(rest)) by {
            assert(rest.last() == s.last());
            assert forall|i: int| 0 < i < rest.len() && #[trigger] rest[i] == '\n' implies rest[i
                - 1] != '\r' by {
                assert(rest[i] == s[i + k + 1]);
                assert(rest[i - 1] == s[i + k]);
            }
        }
        lemma_lines_of_canonical(rest);
        let tail = lines(rest);
        let all = seq![head] + tail;
        assert(lines(s) == all);
        assert(all.skip(1) == tail);
        assert(all[0] == head);
        assert(join(all, '\n') == head + seq!['\n'] + join(tail, '\n'));
        assert(head + seq!['\n'] + rest == s);
        assert(splits_back(all)) by {
            assert forall|i: int| 0 <= i < all.len() implies no_newline(#[trigger] all[i]) by {
                if i > 0 {
                    assert(all[i] == tail[i - 1]);
                } else {
                    assert forall|j: int| 0 <= j < head.len() implies #[trigger] head[j]
                        != '\n' by {
                        assert(in_class(CharClass::Until('\n'), s[j]));
                    }
                }
            }
            assert forall|i: int| 0 <= i < all.len() - 1 implies !((#[trigger] all[i]).len() > 0
                && all[i].last() == '\r') by {
                if i > 0 {
                    assert(all[i] == tail[i - 1]);
                }
            }
            assert(all.last() == tail.last());
        }
    }
}

/// Whether a line comes back from escaping and unescaping: it is not an
/// indented header-like line, and does not itself open with `\#`.
pub open spec fn line_survives(line: Seq<char>) -> bool {
    &&& marks_header(line) ==> line[0] == '#'
    &&& !is_escaped(line)
}

/// Unescaping undoes escaping on the lines of `line_survives`.
pub proof fn lemma_unescape_escape_line(line: Seq<char>)
    requires
        line_survives(line),
    ensures
        unescape_line(escape_line(line)) == line,
{
    if marks_header(line) {
        let e = escape_line(line);
        assert(e[0] == '\\');
        assert(!is_space('\\'));
        assert(run(e, CharClass::Space) == 0);
        assert(e[1] == line[0]);
        assert(is_escaped(e));
        assert(e.take(0) + e.skip(1) == line);
    }
}

/// Unescaping undoes escaping on every canonical text whose lines all
/// satisfy `line_survives`.
///
/// A text outside that set does not come back: escaping joins the lines
/// with bare line feeds, puts the backslash before the indentation, and
/// leaves a line that already opens with `\#` as it is.
pub proof fn lemma_unescape_escape(x: Seq<char>)
    requires
        is_canonical(x),
        forall|i: int| 0 <= i < lines(x).len() ==> line_survives(#[trigger] lines(x)[i]),
    ensures
        unescape_text(escape_text(x)) == x,
{
    let l = lines(x);
    let e = l.map_values(|l: Seq<char>| escape_line(l));
    lemma_lines_of_canonical(x);
    assert(splits_back(e)) by {
        assert forall|i: int| 0 <= i < e.len() implies no_newline(#[trigger] e[i]) by {
            assert(no_newline(l[i]));
            assert forall|j: int| 0 <= j < e[i].len() implies #[trigger] e[i][j] != '\n' by {
                if marks_header(l[i]) && j > 0 {
                    assert(e[i][j] == l[i][j - 1]);
                }
            }
        }
        assert forall|i: int| 0 <= i < e.len() - 1 implies !((#[trigger] e[i]).len() > 0
            && e[i].last() == '\r') by {
            assert(!(l[i].len() > 0 && l[i].last() == '\r'));
            if marks_header(l[i]) {
                assert(e[i].last() == l[i].last());
            }
        }
        if e.len() > 0 {
            assert(l.last().len() > 0);
            assert(e.last() == escape_line(l.last()));
        }
    }
    lemma_lines_of_join(e);
    let back = e.map_values(|l: Seq<char>| unescape_line(l));
    assert(back =~= l) by {
        assert forall|i: int| 0 <= i < l.len() implies back[i] == l[i] by {
            lemma_unescape_escape_line(l[i]);
        }
    }
}

} // verus!
