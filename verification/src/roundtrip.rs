//! What is written is read back.
//!
//! The text that `blocks_text` gives for a list of blocks holds these
//! blocks and no others, provided each can be stored: see `storable`.

use crate::escape::{
    escape_line, escape_text, is_canonical, lemma_lines_of_canonical,
    lemma_lines_of_join, lemma_unescape_escape_line, line_survives, marks_header, no_newline,
    splits_back, unescape_line, unescape_text,
};
use crate::parser::{
    block_text, blocks_of, blocks_text, body_content, body_len, dated, header_date, header_id,
    header_line, lemma_body_len_is, opens_block, parse_blocks, BlockView,
};
use crate::text::{
    in_class, is_space, join, lemma_join_push, lemma_run_is, lemma_trim_end, lines, run,
    strip_cr, tokens, trim, trim_start, CharClass,
};
use vstd::prelude::*;

verus! {

/// Whether the file keeps a content as it is: the content is not empty,
/// neither begins nor ends with whitespace, is canonical, and each of its
/// lines survives escaping.
pub open spec fn stores_content(c: Seq<char>) -> bool {
    &&& c.len() > 0
    &&& trim(c) == c
    &&& is_canonical(c)
    &&& forall|i: int| 0 <= i < lines(c).len() ==> line_survives(#[trigger] lines(c)[i])
}

/// Whether a block comes back from the file as it was written: its
/// identifier holds no whitespace, its date is not empty and holds none,
/// and its content is one that the file keeps.
pub open spec fn storable(b: BlockView) -> bool {
    &&& forall|i: int| 0 <= i < b.id.len() ==> !is_space(#[trigger] b.id[i])
    &&& dated(b)
    &&& stores_content(b.content)
}

/// Whether a line can stand in a file as it is: it holds no line feed and
/// does not end in a carriage return.
pub open spec fn plain_line(l: Seq<char>) -> bool {
    no_newline(l) && !(l.len() > 0 && l.last() == '\r')
}

/// The text of the lines `ls`, each closed by a line feed.
pub open spec fn unlines(ls: Seq<Seq<char>>) -> Seq<char>
    decreases ls.len(),
{
    if ls.len() == 0 {
        Seq::empty()
    } else {
        ls[0] + seq!['\n'] + unlines(ls.skip(1))
    }
}

/// The lines of the content of `b` as they are written.
pub open spec fn escaped_lines(b: BlockView) -> Seq<Seq<char>> {
    lines(b.content).map_values(|l: Seq<char>| escape_line(l))
}

/// The lines that one block is written as.
pub open spec fn block_lines(b: BlockView) -> Seq<Seq<char>> {
    seq![header_line(b)] + escaped_lines(b)
}

/// The lines of the file that holds the blocks `bs`.
pub open spec fn file_lines(bs: Seq<BlockView>) -> Seq<Seq<char>>
    decreases bs.len(),
{
    if bs.len() == 0 {
        Seq::empty()
    } else if bs.len() == 1 {
        block_lines(bs[0])
    } else {
        block_lines(bs[0]) + seq![Seq::<char>::empty()] + file_lines(bs.skip(1))
    }
}

/// Splitting the text of plain lines gives the lines back.
proof fn lemma_unlines_lines(ls: Seq<Seq<char>>)
    requires
        forall|i: int| 0 <= i < ls.len() ==> plain_line(#[trigger] ls[i]),
    ensures
        lines(unlines(ls)) == ls,
    decreases ls.len(),
{
    if ls.len() > 0 {
        let l = ls[0];
        let rest = ls.skip(1);
        let s = unlines(ls);
        let k = l.len() as int;
        assert(plain_line(l));
        assert forall|i: int| 0 <= i < k implies in_class(
            CharClass::Until('\n'),
            #[trigger] s[i],
        ) by {
            assert(s[i] == l[i]);
        }
        assert(s[k] == '\n');
        lemma_run_is(s, CharClass::Until('\n'), k);
        assert(s.take(k) == l);
        assert(strip_cr(l) == l);
        assert(s.skip(k + 1) == unlines(rest));
        assert forall|i: int| 0 <= i < rest.len() implies plain_line(#[trigger] rest[i]) by {
            assert(rest[i] == ls[i + 1]);
        }
        lemma_unlines_lines(rest);
        assert(seq![l] + rest == ls);
    }
}

/// The text of two lists of lines is the text of the first, then that of
/// the second.
proof fn lemma_unlines_concat(a: Seq<Seq<char>>, b: Seq<Seq<char>>)
    ensures
        unlines(a + b) == unlines(a) + unlines(b),
    decreases a.len(),
{
    if a.len() == 0 {
        assert(a + b == b);
    } else {
        assert((a + b).skip(1) == a.skip(1) + b);
        assert((a + b)[0] == a[0]);
        lemma_unlines_concat(a.skip(1), b);
        assert(unlines(a + b) == a[0] + seq!['\n'] + (unlines(a.skip(1)) + unlines(b)));
    }
}

/// The text of lines is the lines joined, and one line feed more.
proof fn lemma_unlines_join(ls: Seq<Seq<char>>)
    requires
        ls.len() > 0,
    ensures
        unlines(ls) == join(ls, '\n') + seq!['\n'],
    decreases ls.len(),
{
    if ls.len() == 1 {
        assert(unlines(ls.skip(1)) == Seq::<char>::empty());
        assert(unlines(ls) == ls[0] + seq!['\n']);
    } else {
        lemma_unlines_join(ls.skip(1));
        assert(unlines(ls) == ls[0] + seq!['\n'] + (join(ls.skip(1), '\n') + seq!['\n']));
    }
}

/// Joined lines end as the last line ends.
proof fn lemma_join_last(ls: Seq<Seq<char>>)
    requires
        ls.len() > 0,
        ls.last().len() > 0,
    ensures
        join(ls, '\n').len() > 0,
        join(ls, '\n').last() == ls.last().last(),
    decreases ls.len(),
{
    if ls.len() > 1 {
        assert(ls.skip(1).last() == ls.last());
        lemma_join_last(ls.skip(1));
    }
}

/// The text of blocks is that of the first, an empty line, and that of
/// the others.
proof fn lemma_blocks_text_front(bs: Seq<BlockView>)
    requires
        bs.len() >= 2,
    ensures
        blocks_text(bs) == block_text(bs[0]) + seq!['\n'] + blocks_text(bs.skip(1)),
    decreases bs.len(),
{
    let head = bs.drop_last();
    let tail = bs.skip(1);
    let sep = seq!['\n'];
    assert(blocks_text(bs) == blocks_text(head) + sep + block_text(bs.last()));
    if bs.len() == 2 {
        assert(head.len() == 1 && tail.len() == 1);
        assert(head[0] == bs[0]);
        assert(tail[0] == bs[1]);
        assert(blocks_text(head) == block_text(head[0]));
        assert(blocks_text(tail) == block_text(tail[0]));
    } else {
        lemma_blocks_text_front(head);
        assert(head[0] == bs[0]);
        assert(head.skip(1) == tail.drop_last());
        assert(tail.last() == bs.last());
        assert(blocks_text(tail) == blocks_text(tail.drop_last()) + sep + block_text(tail.last()));
        assert(blocks_text(head) == block_text(bs[0]) + sep + blocks_text(tail.drop_last()));
        assert(blocks_text(bs) =~= block_text(bs[0]) + sep + (blocks_text(tail.drop_last()) + sep
            + block_text(bs.last())));
    }
}

/// The words of a header line are the identifier behind its `#`, and the
/// date.
proof fn lemma_header_line(b: BlockView)
    requires
        forall|i: int| 0 <= i < b.id.len() ==> !is_space(#[trigger] b.id[i]),
        dated(b),
    ensures
        opens_block(header_line(b)),
        header_id(header_line(b)) == b.id,
        header_date(header_line(b)) == b.date,
        plain_line(header_line(b)),
{
    let h = header_line(b);
    let w = seq!['#'] + b.id;
    let n = w.len() as int;
    assert(h == w + seq![' '] + b.date);
    assert(!is_space('#'));
    assert(is_space(' '));
    assert(is_space('\n') && is_space('\r'));
    assert forall|i: int| 0 <= i < h.len() && i != n implies !is_space(#[trigger] h[i]) by {
        if i == 0 {
        } else if i < n {
            assert(h[i] == b.id[i - 1]);
        } else {
            assert(h[i] == b.date[i - n - 1]);
        }
    }
    assert(h[n] == ' ');
    // The line opens with `#`.
    lemma_run_is(h, CharClass::Space, 0);
    assert(h[0] == '#');
    assert(marks_header(h));
    // Its first word.
    assert(h.skip(0) == h);
    assert forall|i: int| 0 <= i < n implies in_class(CharClass::Word, #[trigger] h[i]) by {}
    lemma_run_is(h, CharClass::Word, n);
    assert(h.take(n) == w);
    // Its second word.
    let r1 = h.skip(n);
    assert(r1 == seq![' '] + b.date);
    assert(r1[0] == ' ');
    assert(r1[1] == b.date[0]);
    assert forall|i: int| 0 <= i < 1 implies in_class(CharClass::Space, #[trigger] r1[i]) by {}
    lemma_run_is(r1, CharClass::Space, 1);
    let r2 = r1.skip(1);
    assert(r2 == b.date);
    assert forall|i: int| 0 <= i < r2.len() implies in_class(
        CharClass::Word,
        #[trigger] r2[i],
    ) by {}
    lemma_run_is(r2, CharClass::Word, r2.len() as int);
    assert(r2.take(r2.len() as int) == r2);
    // Nothing after it.
    let r3 = r2.skip(r2.len() as int);
    assert(r3.len() == 0);
    assert(run(r3, CharClass::Space) == 0);
    assert(r3.skip(0) == r3);
    assert(run(r3, CharClass::Word) == 0);
    assert(tokens(r3) == Seq::<Seq<char>>::empty());
    assert(tokens(r1) == seq![b.date] + tokens(r3));
    assert(tokens(r1) == seq![b.date]);
    assert(tokens(h) == seq![w] + tokens(r1));
    let t = tokens(h);
    assert(t == seq![w, b.date]);
    assert(t[0] == w);
    assert(w.skip(1) == b.id);
    assert(t.skip(1) == seq![b.date]);
    assert(join(seq![b.date], ' ') == b.date);
    // It can stand in a file.
    assert forall|j: int| 0 <= j < h.len() implies #[trigger] h[j] != '\n' by {
        if j != n {
            assert(!is_space(h[j]));
        }
    }
    assert(h.last() == b.date.last());
}

/// The written lines of a content that can be stored stand in a file as
/// they are, none reads as a header, and unescaping gives the lines of
/// the content back.
proof fn lemma_escaped_lines(b: BlockView)
    requires
        storable(b),
    ensures
        escaped_lines(b).len() > 0,
        forall|i: int|
            0 <= i < escaped_lines(b).len() ==> plain_line(#[trigger] escaped_lines(b)[i]),
        forall|i: int|
            0 <= i < escaped_lines(b).len() ==> !marks_header(#[trigger] escaped_lines(b)[i]),
        splits_back(escaped_lines(b)),
        join(escaped_lines(b).map_values(|l: Seq<char>| unescape_line(l)), '\n') == b.content,
{
    let c = b.content;
    let l = lines(c);
    let e = escaped_lines(b);
    lemma_lines_of_canonical(c);
    // The content ends in something that is no whitespace.
    lemma_trim_end(trim_start(c));
    assert(!is_space(c.last()));
    assert(is_space('\r'));
    lemma_join_last(l);
    assert(l.last().last() == c.last());
    assert(!is_space('\\'));
    assert forall|i: int| 0 <= i < e.len() implies plain_line(#[trigger] e[i]) && !marks_header(
        e[i],
    ) by {
        assert(e[i] == escape_line(l[i]));
        assert(no_newline(l[i]));
        if marks_header(l[i]) {
            assert(e[i][0] == '\\');
            lemma_run_is(e[i], CharClass::Space, 0);
            assert forall|j: int| 0 <= j < e[i].len() implies #[trigger] e[i][j] != '\n' by {
                if j > 0 {
                    assert(e[i][j] == l[i][j - 1]);
                }
            }
            assert(e[i].last() == l[i].last());
        }
        if i == l.len() - 1 {
            assert(l[i] == l.last());
        }
    }
    assert(splits_back(e)) by {
        assert(e.last() == escape_line(l.last()));
        assert forall|i: int| 0 <= i < e.len() implies no_newline(#[trigger] e[i]) by {
            assert(plain_line(e[i]));
        }
        assert forall|i: int| 0 <= i < e.len() - 1 implies !((#[trigger] e[i]).len() > 0
            && e[i].last() == '\r') by {
            assert(plain_line(e[i]));
        }
    }
    let back = e.map_values(|l: Seq<char>| unescape_line(l));
    assert(back =~= l) by {
        assert forall|i: int| 0 <= i < l.len() implies back[i] == l[i] by {
            lemma_unescape_escape_line(l[i]);
        }
    }
}

/// The text of a block is the text of its lines.
proof fn lemma_block_text(b: BlockView)
    requires
        storable(b),
    ensures
        block_text(b) == unlines(block_lines(b)),
{
    let e = escaped_lines(b);
    lemma_escaped_lines(b);
    lemma_unlines_join(e);
    let h = seq![header_line(b)];
    lemma_unlines_concat(h, e);
    assert(unlines(h.skip(1)) == Seq::<char>::empty());
    assert(unlines(h) == header_line(b) + seq!['\n']);
    assert(escape_text(b.content) == join(e, '\n'));
    assert(block_text(b) == (header_line(b) + seq!['\n']) + (join(e, '\n') + seq!['\n']));
}

/// The text of blocks is the text of the lines of the file, and each of
/// these is plain.
proof fn lemma_file_text(bs: Seq<BlockView>)
    requires
        forall|i: int| 0 <= i < bs.len() ==> storable(#[trigger] bs[i]),
    ensures
        blocks_text(bs) == unlines(file_lines(bs)),
        forall|i: int| 0 <= i < file_lines(bs).len() ==> plain_line(#[trigger] file_lines(bs)[i]),
    decreases bs.len(),
{
    if bs.len() == 0 {
    } else {
        let b = bs[0];
        assert(storable(b));
        lemma_block_text(b);
        lemma_escaped_lines(b);
        lemma_header_line(b);
        let bl = block_lines(b);
        assert forall|i: int| 0 <= i < bl.len() implies plain_line(#[trigger] bl[i]) by {
            if i > 0 {
                assert(bl[i] == escaped_lines(b)[i - 1]);
            }
        }
        if bs.len() == 1 {
        } else {
            let rest = bs.skip(1);
            assert forall|i: int| 0 <= i < rest.len() implies storable(#[trigger] rest[i]) by {
                assert(rest[i] == bs[i + 1]);
            }
            lemma_file_text(rest);
            lemma_blocks_text_front(bs);
            let gap = seq![Seq::<char>::empty()];
            assert(unlines(gap.skip(1)) == Seq::<char>::empty());
            assert(unlines(gap) == seq!['\n']);
            lemma_unlines_concat(bl, gap);
            lemma_unlines_concat(bl + gap, file_lines(rest));
            let fl = file_lines(bs);
            assert(fl == bl + gap + file_lines(rest));
            assert forall|i: int| 0 <= i < fl.len() implies plain_line(#[trigger] fl[i]) by {
                if i < bl.len() {
                    assert(fl[i] == bl[i]);
                } else if i == bl.len() {
                    assert(fl[i] == Seq::<char>::empty());
                } else {
                    assert(fl[i] == file_lines(rest)[i - bl.len() - 1]);
                }
            }
        }
    }
}

/// The lines of the file hold the blocks they were written for.
proof fn lemma_blocks_of_file_lines(bs: Seq<BlockView>)
    requires
        forall|i: int| 0 <= i < bs.len() ==> storable(#[trigger] bs[i]),
    ensures
        blocks_of(file_lines(bs)) == bs,
    decreases bs.len(),
{
    if bs.len() == 0 {
        assert(bs =~= Seq::<BlockView>::empty());
    } else {
        let b = bs[0];
        assert(storable(b));
        let h = header_line(b);
        let e = escaped_lines(b);
        let fl = file_lines(bs);
        let after = fl.skip(1);
        lemma_header_line(b);
        lemma_escaped_lines(b);
        assert(fl[0] == h);
        let gap = seq![Seq::<char>::empty()];
        let empty_line = Seq::<char>::empty();
        assert(!marks_header(empty_line));
        let n: int = if bs.len() == 1 {
            e.len() as int
        } else {
            (e.len() + 1) as int
        };
        let rest = bs.skip(1);
        if bs.len() == 1 {
            assert(after == e);
            assert(rest =~= Seq::<BlockView>::empty());
            assert(after.skip(n) == file_lines(rest));
            assert(after.take(n) == e);
            // The lines of the joined body are the written lines.
            lemma_lines_of_join(e);
            assert(lines(join(after.take(n), '\n')) == e);
        } else {
            assert forall|i: int| 0 <= i < rest.len() implies storable(#[trigger] rest[i]) by {
                assert(rest[i] == bs[i + 1]);
            }
            assert(fl == block_lines(b) + gap + file_lines(rest));
            assert(after == e + gap + file_lines(rest));
            assert(after.skip(n) == file_lines(rest));
            assert(after.take(n) == e + gap);
            assert(e + gap == e.push(empty_line));
            // The next line after the body is the next header.
            assert(storable(rest[0]));
            lemma_header_line(rest[0]);
            assert(file_lines(rest)[0] == header_line(rest[0])) by {
                assert(block_lines(rest[0])[0] == header_line(rest[0]));
            }
            assert(after[n] == file_lines(rest)[0]);
            // The lines of the joined body are the written lines.
            lemma_join_push(e, empty_line, '\n');
            assert(join(e.push(empty_line), '\n') == join(e, '\n') + seq!['\n'] + empty_line);
            assert(join(e, '\n') + seq!['\n'] + empty_line == join(e, '\n') + seq!['\n']);
            lemma_unlines_join(e);
            lemma_unlines_lines(e);
            assert(lines(join(after.take(n), '\n')) == e);
        }
        assert forall|i: int| 0 <= i < n implies !marks_header(#[trigger] after[i]) by {
            if i < e.len() {
                assert(after[i] == e[i]);
            } else {
                assert(after[i] == empty_line);
            }
        }
        lemma_body_len_is(after, n);
        assert(body_len(after) == n);
        let body = after.take(n);
        assert(unescape_text(join(body, '\n')) == b.content);
        assert(body_content(body) == b.content);
        lemma_blocks_of_file_lines(rest);
        let first = BlockView { id: header_id(h), date: header_date(h), content: b.content };
        assert(first == b);
        assert(blocks_of(fl) == seq![first] + blocks_of(after.skip(n)));
        assert(seq![b] + rest == bs);
    }
}

/// Reading the text of blocks that can be stored gives these blocks back,
/// in their order.
pub proof fn lemma_parse_of_blocks_text(bs: Seq<BlockView>)
    requires
        forall|i: int| 0 <= i < bs.len() ==> storable(#[trigger] bs[i]),
    ensures
        parse_blocks(blocks_text(bs)) == bs,
{
    lemma_file_text(bs);
    lemma_unlines_lines(file_lines(bs));
    lemma_blocks_of_file_lines(bs);
}

/// Whether every character of `s` is whitespace.
pub open spec fn is_blank(s: Seq<char>) -> bool {
    forall|i: int| 0 <= i < s.len() ==> is_space(#[trigger] s[i])
}

/// The lines of a blank text are blank.
proof fn lemma_blank_lines(s: Seq<char>)
    requires
        is_blank(s),
    ensures
        forall|i: int| 0 <= i < lines(s).len() ==> is_blank(#[trigger] lines(s)[i]),
    decreases s.len(),
{
    let k = run(s, CharClass::Until('\n')) as int;
    crate::text::lemma_run(s, CharClass::Until('\n'));
    if s.len() == 0 {
    } else if k >= s.len() {
    } else {
        let head = strip_cr(s.take(k));
        let rest = s.skip(k + 1);
        assert(is_blank(head)) by {
            assert forall|i: int| 0 <= i < head.len() implies is_space(#[trigger] head[i]) by {
                assert(head[i] == s[i]);
            }
        }
        assert(is_blank(rest)) by {
            assert forall|i: int| 0 <= i < rest.len() implies is_space(#[trigger] rest[i]) by {
                assert(rest[i] == s[i + k + 1]);
            }
        }
        lemma_blank_lines(rest);
        let all = lines(s);
        assert forall|i: int| 0 <= i < all.len() implies is_blank(#[trigger] all[i]) by {
            if i > 0 {
                assert(all[i] == lines(rest)[i - 1]);
            }
        }
    }
}

/// Lines without a header hold no block.
proof fn lemma_no_header_no_blocks(ls: Seq<Seq<char>>)
    requires
        forall|i: int| 0 <= i < ls.len() ==> !marks_header(#[trigger] ls[i]),
    ensures
        blocks_of(ls) == Seq::<BlockView>::empty(),
    decreases ls.len(),
{
    if ls.len() > 0 {
        let rest = ls.skip(1);
        assert(!marks_header(ls[0]));
        assert forall|i: int| 0 <= i < rest.len() implies !marks_header(#[trigger] rest[i]) by {
            assert(rest[i] == ls[i + 1]);
        }
        lemma_no_header_no_blocks(rest);
    }
}

/// A text that is empty once trimmed holds no block: neither does a text
/// without characters.
pub proof fn lemma_blank_text_has_no_blocks(s: Seq<char>)
    requires
        trim(s).len() == 0,
    ensures
        parse_blocks(s) == Seq::<BlockView>::empty(),
{
    let r = run(s, CharClass::Space) as int;
    let t = trim_start(s);
    crate::text::lemma_run(s, CharClass::Space);
    lemma_trim_end(t);
    if r < s.len() {
        assert(t[0] == s[r]);
        assert(is_space(t[0]));
    }
    assert(is_blank(s));
    lemma_blank_lines(s);
    let ls = lines(s);
    assert forall|i: int| 0 <= i < ls.len() implies !marks_header(#[trigger] ls[i]) by {
        let l = ls[i];
        assert(is_blank(l));
        assert forall|j: int| 0 <= j < l.len() implies in_class(
            CharClass::Space,
            #[trigger] l[j],
        ) by {}
        lemma_run_is(l, CharClass::Space, l.len() as int);
    }
    lemma_no_header_no_blocks(ls);
}

} // verus!
