//! The reader of the store file.
//!
//! The file is a run of blocks. A block opens with a header line, `#`, an
//! identifier, whitespace and a date, and holds the lines up to the next
//! header as its content.

use crate::dates::{date_reading, read_date};
use crate::escape::{
    escape_chars, escape_text, line_marks_header, marks_header, unescape_chars, unescape_text,
};
use crate::note::Note;
use crate::text::{
    copy_range, from_chars, is_space, join, join_range, lemma_run, lines, run, split_lines,
    split_tokens,
    to_chars, tokens, trim, trimmed, views, CharClass,
};
use vstd::prelude::*;
use vstd::string::StringExecFns;

verus! {

/// A block as it stands in the file: the identifier and the date of its
/// header, and its content, unescaped and trimmed.
#[derive(Debug)]
pub struct Block {
    pub id: String,
    pub date: String,
    pub content: String,
}

/// A block as contracts speak of it.
pub struct BlockView {
    pub id: Seq<char>,
    pub date: Seq<char>,
    pub content: Seq<char>,
}

impl View for Block {
    type V = BlockView;

    open spec fn view(&self) -> BlockView {
        BlockView { id: self.id@, date: self.date@, content: self.content@ }
    }
}

/// The views of the blocks of `blocks`, in order.
pub open spec fn block_views(blocks: Seq<Block>) -> Seq<BlockView> {
    Seq::new(blocks.len(), |i: int| blocks[i]@)
}

/// Whether a line opens a block: it reads as a header and holds two words
/// at least.
pub open spec fn opens_block(line: Seq<char>) -> bool {
    marks_header(line) && tokens(line).len() >= 2
}

/// The number of lines at the head of `ls` that do not read as headers.
pub open spec fn body_len(ls: Seq<Seq<char>>) -> nat
    decreases ls.len(),
{
    if ls.len() > 0 && !marks_header(ls[0]) {
        1 + body_len(ls.skip(1))
    } else {
        0
    }
}

/// The identifier of a header: its first word without the `#`.
pub open spec fn header_id(line: Seq<char>) -> Seq<char> {
    tokens(line)[0].skip(1)
}

/// The date of a header: its words after the first, a space between each
/// two.
pub open spec fn header_date(line: Seq<char>) -> Seq<char> {
    join(tokens(line).skip(1), ' ')
}

/// The content of a block: its lines joined, unescaped, then trimmed.
pub open spec fn body_content(body: Seq<Seq<char>>) -> Seq<char> {
    trim(unescape_text(join(body, '\n')))
}

/// The blocks that the lines `ls` hold. Lines before the first header are
/// passed over, and so is a header of one word; the lines after it are
/// then looked at one by one. A block whose content is empty is dropped.
pub open spec fn blocks_of(ls: Seq<Seq<char>>) -> Seq<BlockView>
    decreases ls.len(),
{
    if ls.len() == 0 {
        Seq::empty()
    } else if opens_block(ls[0]) {
        let after = ls.skip(1);
        let n = body_len(after) as int;
        if n < 0 || n > after.len() {
            Seq::empty()
        } else {
            let content = body_content(after.take(n));
            let rest = blocks_of(after.skip(n));
            if content.len() > 0 {
                seq![BlockView { id: header_id(ls[0]), date: header_date(ls[0]), content }] + rest
            } else {
                rest
            }
        }
    } else {
        blocks_of(ls.skip(1))
    }
}

/// The blocks that the text `s` holds.
pub open spec fn parse_blocks(s: Seq<char>) -> Seq<BlockView> {
    blocks_of(lines(s))
}

/// Whether the date of a block is not empty and holds no whitespace.
pub open spec fn dated(b: BlockView) -> bool {
    &&& b.date.len() > 0
    &&& forall|i: int| 0 <= i < b.date.len() ==> !is_space(#[trigger] b.date[i])
}

/// The header line of a block.
pub open spec fn header_line(b: BlockView) -> Seq<char> {
    seq!['#'] + b.id + seq![' '] + b.date
}

/// The text of one block: its header line, then its content, escaped, each
/// closed by a line feed.
pub open spec fn block_text(b: BlockView) -> Seq<char> {
    header_line(b) + seq!['\n'] + escape_text(b.content) + seq!['\n']
}

/// The text of a file that holds the blocks `bs`: one empty line between
/// each two, none before the first or after the last.
pub open spec fn blocks_text(bs: Seq<BlockView>) -> Seq<char>
    decreases bs.len(),
{
    if bs.len() == 0 {
        Seq::empty()
    } else if bs.len() == 1 {
        block_text(bs[0])
    } else {
        blocks_text(bs.drop_last()) + seq!['\n'] + block_text(bs.last())
    }
}

/// `body_len` is at most the number of lines.
pub proof fn lemma_body_len(ls: Seq<Seq<char>>)
    ensures
        body_len(ls) <= ls.len(),
        forall|i: int| 0 <= i < body_len(ls) ==> !marks_header(#[trigger] ls[i]),
        body_len(ls) < ls.len() ==> marks_header(ls[body_len(ls) as int]),
    decreases ls.len(),
{
    if ls.len() > 0 && !marks_header(ls[0]) {
        lemma_body_len(ls.skip(1));
        assert forall|i: int| 0 <= i < body_len(ls) implies !marks_header(#[trigger] ls[i]) by {
            if i > 0 {
                assert(ls[i] == ls.skip(1)[i - 1]);
            }
        }
        if body_len(ls) < ls.len() {
            assert(ls[body_len(ls) as int] == ls.skip(1)[body_len(ls.skip(1)) as int]);
        }
    }
}

/// Any position with the two properties of `lemma_body_len` is `body_len`.
pub proof fn lemma_body_len_is(ls: Seq<Seq<char>>, n: int)
    requires
        0 <= n <= ls.len(),
        forall|i: int| 0 <= i < n ==> !marks_header(#[trigger] ls[i]),
        n < ls.len() ==> marks_header(ls[n]),
    ensures
        body_len(ls) == n,
    decreases ls.len(),
{
    if n > 0 {
        assert(!marks_header(ls[0]));
        let t = ls.skip(1);
        assert forall|i: int| 0 <= i < n - 1 implies !marks_header(#[trigger] t[i]) by {
            assert(t[i] == ls[i + 1]);
        }
        lemma_body_len_is(t, n - 1);
    }
}

/// The first word of a line that has words is not empty.
pub proof fn lemma_first_token(line: Seq<char>)
    requires
        tokens(line).len() > 0,
    ensures
        tokens(line)[0].len() > 0,
{
    let a = run(line, CharClass::Space) as int;
    let rest = line.skip(a);
    lemma_run(line, CharClass::Space);
    lemma_run(rest, CharClass::Word);
}

/// The reader and writer of note text.
pub struct NoteParser;

impl NoteParser {
    /// The blocks that a store file holds, in the order of the file.
    pub fn scan_blocks(content: &str) -> (out: Vec<Block>)
        ensures
            block_views(out@) == parse_blocks(content@),
    {
        let text = to_chars(content);
        let ls = split_lines(&text);
        let n = ls.len();
        let ghost all = views(ls@);
        let mut out: Vec<Block> = Vec::new();
        let mut i: usize = 0;
        assert(all.skip(0) == all);
        assert(block_views(out@) + blocks_of(all) == blocks_of(all));
        while i < n
            invariant
                i <= n,
                n == ls.len(),
                all == views(ls@),
                all == lines(content@),
                block_views(out@) + blocks_of(all.skip(i as int)) == blocks_of(all),
            decreases n - i,
        {
            let ghost cur = all.skip(i as int);
            let ghost before = block_views(out@);
            let line = &ls[i];
            assert(cur[0] == line@);
            let toks = split_tokens(line);
            if line_marks_header(line) && toks.len() >= 2 {
                proof {
                    lemma_first_token(line@);
                    assert(views(toks@)[0] == toks@[0]@);
                }
                let id = copy_range(&toks[0], 1, toks[0].len());
                let date = join_range(&toks, 1, toks.len(), ' ');
                let start = i + 1;
                let mut end = start;
                while end < n && !line_marks_header(&ls[end])
                    invariant
                        start <= end <= n,
                        n == ls.len(),
                        all == views(ls@),
                        forall|j: int| start <= j < end ==> !marks_header(#[trigger] all[j]),
                    decreases n - end,
                {
                    end += 1;
                }
                let joined = join_range(&ls, start, end, '\n');
                let unescaped = unescape_chars(&joined);
                let body = trimmed(&unescaped);
                proof {
                    let after = cur.skip(1);
                    assert(after == all.skip(start as int));
                    assert forall|j: int| 0 <= j < end - start implies !marks_header(
                        #[trigger] after[j],
                    ) by {
                        assert(after[j] == all[start + j]);
                    }
                    if end < n {
                        assert(after[end - start] == all[end as int]);
                    }
                    lemma_body_len_is(after, end - start);
                    assert(after.take(end - start) == all.subrange(start as int, end as int));
                    assert(after.skip(end - start) == all.skip(end as int));
                    assert(toks@[0]@.subrange(1, toks@[0]@.len() as int) == toks@[0]@.skip(1));
                    assert(views(toks@).subrange(1, toks@.len() as int) == views(toks@).skip(1));
                }
                if body.len() > 0 {
                    let block = Block {
                        id: from_chars(&id),
                        date: from_chars(&date),
                        content: from_chars(&body),
                    };
                    let ghost shown = block@;
                    out.push(block);
                    assert(block_views(out@) == before.push(shown));
                }
                i = end;
            } else {
                assert(cur.skip(1) == all.skip(i + 1));
                i += 1;
            }
        }
        assert(blocks_of(all.skip(n as int)) == Seq::<BlockView>::empty());
        out
    }

    /// The text of a store file that holds `blocks`, in their order.
    pub fn write_blocks(blocks: &Vec<Block>) -> (out: String)
        ensures
            out@ == blocks_text(block_views(blocks@)),
    {
        let mut out = String::new();
        let mut i: usize = 0;
        assert(block_views(blocks@).take(0) == Seq::<BlockView>::empty());
        while i < blocks.len()
            invariant
                i <= blocks.len(),
                out@ == blocks_text(block_views(blocks@).take(i as int)),
            decreases blocks.len() - i,
        {
            let ghost before = out@;
            let block = &blocks[i];
            if i > 0 {
                out.push('\n');
            }
            out.push('#');
            out.append(block.id.as_str());
            out.push(' ');
            out.append(block.date.as_str());
            out.push('\n');
            let escaped = Self::escape_content(block.content.as_str());
            out.append(escaped.as_str());
            out.push('\n');
            proof {
                let done = block_views(blocks@).take(i + 1);
                assert(done.last() == block@);
                assert(done.drop_last() == block_views(blocks@).take(i as int));
                if i == 0 {
                    assert(before == Seq::<char>::empty());
                    assert(done[0] == block@);
                    assert(out@ == block_text(block@));
                } else {
                    assert(out@ == before + seq!['\n'] + block_text(block@));
                }
            }
            i += 1;
        }
        assert(block_views(blocks@).take(blocks.len() as int) == block_views(blocks@));
        out
    }

    /// The notes that a store file holds, in the order of the file. Each
    /// block gives one note, with the identifier and the content of the
    /// block; its timestamp is the one that the date of the header reads
    /// as, on this machine and at this time.
    pub fn parse_notes_from_text(content: &str) -> (notes: Vec<Note>)
        ensures
            notes@.len() == parse_blocks(content@).len(),
            forall|i: int|
                0 <= i < notes@.len() ==> {
                    let block = #[trigger] parse_blocks(content@)[i];
                    &&& notes@[i]@.id == block.id
                    &&& notes@[i]@.content == block.content
                    &&& date_reading(block.date).admits(notes@[i].timestamp)
                },
    {
        let blocks = Self::scan_blocks(content);
        let mut notes: Vec<Note> = Vec::new();
        let mut i: usize = 0;
        while i < blocks.len()
            invariant
                i <= blocks.len(),
                notes@.len() == i,
                block_views(blocks@) == parse_blocks(content@),
                forall|j: int|
                    0 <= j < i ==> {
                        let block = #[trigger] parse_blocks(content@)[j];
                        &&& notes@[j]@.id == block.id
                        &&& notes@[j]@.content == block.content
                        &&& date_reading(block.date).admits(notes@[j].timestamp)
                    },
            decreases blocks.len() - i,
        {
            let block = &blocks[i];
            assert(block_views(blocks@)[i as int] == block@);
            let timestamp = read_date(block.date.as_str()).resolve();
            notes.push(
                Note { id: block.id.clone(), content: block.content.clone(), timestamp },
            );
            i += 1;
        }
        notes
    }

    /// The content of a note as it is written to the file: a backslash in
    /// front of every line that would read as a header.
    pub fn escape_content(content: &str) -> (out: String)
        ensures
            out@ == escape_text(content@),
    {
        let text = to_chars(content);
        from_chars(&escape_chars(&text))
    }

    /// The content of a note as it is read from the file: every line that
    /// opens with `\#` without that backslash.
    pub fn unescape_content(content: &str) -> (out: String)
        ensures
            out@ == unescape_text(content@),
    {
        let text = to_chars(content);
        from_chars(&unescape_chars(&text))
    }
}

} // verus!
