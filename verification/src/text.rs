//! Character-level text primitives: whitespace, runs of characters of one
//! class, trimming, line splitting, tokenising and joining.
//!
//! Every function here works on characters (`Seq<char>` in contracts,
//! `Vec<char>` in executable code), so that the codec built on top can be
//! stated without reference to byte offsets.

use vstd::prelude::*;
use vstd::std_specs::iter::IteratorSpec;

verus! {

/// `String::push` appends one character to the end of the string.
pub assume_specification[ String::push ](s: &mut String, ch: char)
    ensures
        final(s)@ == old(s)@.push(ch),
;

/// The characters of `s`, in order.
pub fn to_chars(s: &str) -> (out: Vec<char>)
    ensures
        out@ == s@,
{
    let mut out: Vec<char> = Vec::new();
    let chars = s.chars();
    for c in it: chars
        invariant
            out@ == it.seq().take(it.index() as int),
            it.seq() == s@,
    {
        out.push(c);
    }
    out
}

/// The string made of the characters of `v`, in order.
pub fn from_chars(v: &Vec<char>) -> (out: String)
    ensures
        out@ == v@,
{
    let mut out = String::new();
    let mut i: usize = 0;
    while i < v.len()
        invariant
            i <= v.len(),
            out@ == v@.take(i as int),
        decreases v.len() - i,
    {
        out.push(v[i]);
        i += 1;
    }
    out
}

/// Whether `c` carries the Unicode `White_Space` property.
pub open spec fn is_space(c: char) -> bool {
    let u = c as u32;
    ||| 0x09 <= u <= 0x0D
    ||| u == 0x20
    ||| u == 0x85
    ||| u == 0xA0
    ||| u == 0x1680
    ||| 0x2000 <= u <= 0x200A
    ||| u == 0x2028
    ||| u == 0x2029
    ||| u == 0x202F
    ||| u == 0x205F
    ||| u == 0x3000
}

/// Tests a character for the Unicode `White_Space` property.
pub fn is_whitespace(c: char) -> (r: bool)
    ensures
        r == is_space(c),
{
    let u: u32 = c as u32;
    (0x09 <= u && u <= 0x0D) || u == 0x20 || u == 0x85 || u == 0xA0 || u == 0x1680 || (0x2000 <= u
        && u <= 0x200A) || u == 0x2028 || u == 0x2029 || u == 0x202F || u == 0x205F || u == 0x3000
}

/// The classes of characters that the scanners distinguish.
#[derive(Clone, Copy, Debug, PartialEq, Eq)]
pub enum CharClass {
    /// Whitespace.
    Space,
    /// Anything but whitespace.
    Word,
    /// Anything but the character given.
    Until(char),
}

/// Whether `c` belongs to the class `k`.
pub open spec fn in_class(k: CharClass, c: char) -> bool {
    match k {
        CharClass::Space => is_space(c),
        CharClass::Word => !is_space(c),
        CharClass::Until(stop) => c != stop,
    }
}

/// The length of the longest prefix of `s` made of characters of class `k`.
pub open spec fn run(s: Seq<char>, k: CharClass) -> nat
    decreases s.len(),
{
    if s.len() > 0 && in_class(k, s[0]) {
        1 + run(s.skip(1), k)
    } else {
        0
    }
}

/// `run` stops at the first character outside the class, or at the end.
pub proof fn lemma_run(s: Seq<char>, k: CharClass)
    ensures
        run(s, k) <= s.len(),
        forall|i: int| 0 <= i < run(s, k) ==> in_class(k, #[trigger] s[i]),
        run(s, k) < s.len() ==> !in_class(k, s[run(s, k) as int]),
    decreases s.len(),
{
    if s.len() > 0 && in_class(k, s[0]) {
        lemma_run(s.skip(1), k);
        assert forall|i: int| 0 <= i < run(s, k) implies in_class(k, #[trigger] s[i]) by {
            if i > 0 {
                assert(s[i] == s.skip(1)[i - 1]);
            }
        }
        if run(s, k) < s.len() {
            assert(s[run(s, k) as int] == s.skip(1)[run(s.skip(1), k) as int]);
        }
    }
}

/// Any position with the two properties of `lemma_run` is the run's length.
pub proof fn lemma_run_is(s: Seq<char>, k: CharClass, n: int)
    requires
        0 <= n <= s.len(),
        forall|i: int| 0 <= i < n ==> in_class(k, #[trigger] s[i]),
        n < s.len() ==> !in_class(k, s[n]),
    ensures
        run(s, k) == n,
    decreases s.len(),
{
    if n > 0 {
        assert(in_class(k, s[0]));
        let t = s.skip(1);
        assert forall|i: int| 0 <= i < n - 1 implies in_class(k, #[trigger] t[i]) by {
            assert(t[i] == s[i + 1]);
        }
        lemma_run_is(t, k, n - 1);
    }
}

/// Tests a character for membership of a class.
pub fn class_has(k: CharClass, c: char) -> (r: bool)
    ensures
        r == in_class(k, c),
{
    match k {
        CharClass::Space => is_whitespace(c),
        CharClass::Word => !is_whitespace(c),
        CharClass::Until(stop) => c != stop,
    }
}

/// The end of the run of class `k` that starts at `from`.
pub fn scan(v: &Vec<char>, from: usize, k: CharClass) -> (end: usize)
    requires
        from <= v.len(),
    ensures
        end == from + run(v@.skip(from as int), k),
        from <= end <= v.len(),
{
    let mut end: usize = from;
    while end < v.len() && class_has(k, v[end])
        invariant
            from <= end <= v.len(),
            forall|i: int| from <= i < end ==> in_class(k, #[trigger] v@[i]),
        decreases v.len() - end,
    {
        end += 1;
    }
    proof {
        let t = v@.skip(from as int);
        assert forall|i: int| 0 <= i < end - from implies in_class(k, #[trigger] t[i]) by {
            assert(t[i] == v@[from + i]);
        }
        lemma_run_is(t, k, end - from);
    }
    end
}

/// A copy of the characters of `v` from `from` up to, not including, `to`.
pub fn copy_range(v: &Vec<char>, from: usize, to: usize) -> (out: Vec<char>)
    requires
        from <= to <= v.len(),
    ensures
        out@ == v@.subrange(from as int, to as int),
{
    let mut out: Vec<char> = Vec::new();
    let mut i: usize = from;
    while i < to
        invariant
            from <= i <= to <= v.len(),
            out@ == v@.subrange(from as int, i as int),
        decreases to - i,
    {
        out.push(v[i]);
        i += 1;
    }
    out
}

/// `s` without its leading whitespace.
pub open spec fn trim_start(s: Seq<char>) -> Seq<char> {
    s.skip(run(s, CharClass::Space) as int)
}

/// `s` without its trailing whitespace.
pub open spec fn trim_end(s: Seq<char>) -> Seq<char>
    decreases s.len(),
{
    if s.len() > 0 && is_space(s.last()) {
        trim_end(s.drop_last())
    } else {
        s
    }
}

/// `s` without its leading and trailing whitespace.
pub open spec fn trim(s: Seq<char>) -> Seq<char> {
    trim_end(trim_start(s))
}

/// `trim_end` keeps a prefix, which is empty or ends in a character that is
/// no whitespace, and drops only whitespace.
pub proof fn lemma_trim_end(s: Seq<char>)
    ensures
        trim_end(s).len() <= s.len(),
        trim_end(s) == s.take(trim_end(s).len() as int),
        trim_end(s).len() > 0 ==> !is_space(trim_end(s).last()),
        forall|i: int| trim_end(s).len() <= i < s.len() ==> is_space(#[trigger] s[i]),
    decreases s.len(),
{
    if s.len() > 0 && is_space(s.last()) {
        let t = s.drop_last();
        lemma_trim_end(t);
        let n = trim_end(t).len() as int;
        assert(t.take(n) == s.take(n));
        assert forall|i: int| n <= i < s.len() implies is_space(#[trigger] s[i]) by {
            if i < t.len() {
                assert(s[i] == t[i]);
            }
        }
    } else {
        assert(s.take(s.len() as int) == s);
    }
}

/// A copy of `v` without its leading and trailing whitespace.
pub fn trimmed(v: &Vec<char>) -> (out: Vec<char>)
    ensures
        out@ == trim(v@),
{
    let from = scan(v, 0, CharClass::Space);
    assert(v@.skip(0) == v@);
    let mut to: usize = v.len();
    let ghost t = trim_start(v@);
    while to > from && is_whitespace(v[to - 1])
        invariant
            from <= to <= v.len(),
            t == v@.skip(from as int),
            trim_end(t) == trim_end(v@.subrange(from as int, to as int)),
        decreases to,
    {
        proof {
            let cur = v@.subrange(from as int, to as int);
            assert(cur.last() == v@[to - 1]);
            assert(cur.drop_last() == v@.subrange(from as int, to - 1));
        }
        to -= 1;
    }
    proof {
        let cur = v@.subrange(from as int, to as int);
        if to > from {
            assert(cur.last() == v@[to - 1]);
        }
        assert(trim_end(cur) == cur);
    }
    copy_range(v, from, to)
}

/// A line as `str::lines` yields it: without the carriage return that stood
/// before the line feed.
pub open spec fn strip_cr(l: Seq<char>) -> Seq<char> {
    if l.len() > 0 && l.last() == '\r' {
        l.drop_last()
    } else {
        l
    }
}

/// The lines of `s`: split after every line feed, each line without its
/// line feed and without a carriage return right before it. A final line
/// without a line feed is kept as it is; after a final line feed no empty
/// line follows.
pub open spec fn lines(s: Seq<char>) -> Seq<Seq<char>>
    decreases s.len(),
{
    let k = run(s, CharClass::Until('\n')) as int;
    if s.len() == 0 {
        Seq::empty()
    } else if k >= s.len() {
        seq![s]
    } else {
        seq![strip_cr(s.take(k))] + lines(s.skip(k + 1))
    }
}

/// The views of the vectors of `v`, in order.
pub open spec fn views(v: Seq<Vec<char>>) -> Seq<Seq<char>> {
    Seq::new(v.len(), |i: int| v[i]@)
}

/// The lines of `text`.
pub fn split_lines(text: &Vec<char>) -> (out: Vec<Vec<char>>)
    ensures
        views(out@) == lines(text@),
{
    let mut out: Vec<Vec<char>> = Vec::new();
    let n = text.len();
    let mut start: usize = 0;
    assert(text@.skip(0) == text@);
    assert(views(out@) + lines(text@) == lines(text@));
    while start < n
        invariant
            start <= n,
            n == text.len(),
            views(out@) + lines(text@.skip(start as int)) == lines(text@),
        decreases n - start,
    {
        let ghost rest = text@.skip(start as int);
        let ghost before = views(out@);
        let end = scan(text, start, CharClass::Until('\n'));
        if end == n {
            let line = copy_range(text, start, n);
            assert(line@ == rest);
            out.push(line);
            assert(views(out@) == before.push(rest));
            assert(lines(rest) == seq![rest]);
            assert(lines(text@.skip(n as int)) == Seq::<Seq<char>>::empty());
            start = n;
        } else {
            let mut stop = end;
            if stop > start && text[stop - 1] == '\r' {
                stop -= 1;
            }
            let line = copy_range(text, start, stop);
            proof {
                let body = rest.take(end - start);
                assert(body == text@.subrange(start as int, end as int));
                if body.len() > 0 {
                    assert(body.last() == text@[end - 1]);
                }
                assert(line@ == strip_cr(body));
                assert(rest.skip(end - start + 1) == text@.skip(end + 1));
            }
            out.push(line);
            assert(views(out@) == before.push(line@));
            start = end + 1;
        }
    }
    assert(lines(text@.skip(start as int)) == Seq::<Seq<char>>::empty());
    out
}

/// The words of `s`: its maximal runs of characters that are no whitespace.
pub open spec fn tokens(s: Seq<char>) -> Seq<Seq<char>>
    decreases s.len(),
{
    let a = run(s, CharClass::Space) as int;
    let rest = s.skip(a);
    let b = run(rest, CharClass::Word) as int;
    if b == 0 || a + b > s.len() {
        Seq::empty()
    } else {
        seq![rest.take(b)] + tokens(rest.skip(b))
    }
}

/// The words of `text`.
pub fn split_tokens(text: &Vec<char>) -> (out: Vec<Vec<char>>)
    ensures
        views(out@) == tokens(text@),
{
    let mut out: Vec<Vec<char>> = Vec::new();
    let n = text.len();
    let mut pos: usize = 0;
    assert(text@.skip(0) == text@);
    assert(views(out@) + tokens(text@) == tokens(text@));
    loop
        invariant_except_break
            pos <= n,
            n == text.len(),
            views(out@) + tokens(text@.skip(pos as int)) == tokens(text@),
        ensures
            views(out@) == tokens(text@),
        decreases n - pos,
    {
        let ghost cur = text@.skip(pos as int);
        let ghost before = views(out@);
        let a = scan(text, pos, CharClass::Space);
        let b = scan(text, a, CharClass::Word);
        proof {
            assert(cur.skip(a - pos) == text@.skip(a as int));
        }
        if b == a {
            assert(tokens(cur) == Seq::<Seq<char>>::empty());
            break ;
        }
        let word = copy_range(text, a, b);
        proof {
            let rest = cur.skip(a - pos);
            assert(word@ == rest.take(b - a));
            assert(rest.skip(b - a) == text@.skip(b as int));
        }
        out.push(word);
        assert(views(out@) == before.push(word@));
        pos = b;
    }
    out
}

/// The parts of `parts` in order, with `sep` between neighbours.
pub open spec fn join(parts: Seq<Seq<char>>, sep: char) -> Seq<char>
    decreases parts.len(),
{
    if parts.len() == 0 {
        Seq::empty()
    } else if parts.len() == 1 {
        parts[0]
    } else {
        parts[0] + seq![sep] + join(parts.skip(1), sep)
    }
}

/// Joining one more part appends the separator and the part, unless it is
/// the first part.
pub proof fn lemma_join_push(parts: Seq<Seq<char>>, last: Seq<char>, sep: char)
    ensures
        join(parts.push(last), sep) == if parts.len() == 0 {
            last
        } else {
            join(parts, sep) + seq![sep] + last
        },
    decreases parts.len(),
{
    let all = parts.push(last);
    if parts.len() == 0 {
        assert(all[0] == last);
    } else if parts.len() == 1 {
        assert(all.skip(1) == seq![last]);
        assert(join(all.skip(1), sep) == last);
    } else {
        assert(all.skip(1) == parts.skip(1).push(last));
        lemma_join_push(parts.skip(1), last, sep);
        assert(join(all, sep) == parts[0] + seq![sep] + (join(parts.skip(1), sep) + seq![sep]
            + last));
    }
}

/// The parts from `from` up to, not including, `to`, joined with `sep`.
pub fn join_range(parts: &Vec<Vec<char>>, from: usize, to: usize, sep: char) -> (out: Vec<char>)
    requires
        from <= to <= parts.len(),
    ensures
        out@ == join(views(parts@).subrange(from as int, to as int), sep),
{
    let mut out: Vec<char> = Vec::new();
    let mut i: usize = from;
    assert(views(parts@).subrange(from as int, from as int) == Seq::<Seq<char>>::empty());
    while i < to
        invariant
            from <= i <= to <= parts.len(),
            out@ == join(views(parts@).subrange(from as int, i as int), sep),
        decreases to - i,
    {
        let ghost done = views(parts@).subrange(from as int, i as int);
        let ghost joined = out@;
        if i > from {
            out.push(sep);
        }
        let part = &parts[i];
        let mut j: usize = 0;
        while j < part.len()
            invariant
                j <= part.len(),
                out@ == (if i > from {
                    joined.push(sep)
                } else {
                    joined
                }) + part@.take(j as int),
            decreases part.len() - j,
        {
            out.push(part[j]);
            j += 1;
        }
        proof {
            assert(part@.take(part.len() as int) == part@);
            assert(views(parts@).subrange(from as int, i + 1) == done.push(part@));
            lemma_join_push(done, part@, sep);
        }
        i += 1;
    }
    out
}

} // verus!
