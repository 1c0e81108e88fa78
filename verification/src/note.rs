//! Notes and their short identifiers.
//!
//! An identifier is the head of a hash, written in hexadecimal digits. The
//! hash is taken over the content of the note, the time of its making and a
//! counter; the counter is raised until the identifier is one that no other
//! note has.

use crate::timestamp::Timestamp;
use std::collections::hash_map::DefaultHasher;
use std::hash::Hasher;
use vstd::bytes::{spec_u32_to_le_bytes, spec_u64_to_le_bytes, u32_to_le_bytes, u64_to_le_bytes};
use vstd::prelude::*;
use vstd::std_specs::hash::DefaultHasherAdditionalSpecFns;
use vstd::string::{StringExecFns, StringSliceAdditionalSpecFns};

verus! {

/// One stored record.
#[derive(Debug)]
pub struct Note {
    /// A short token, meant to be unique within a store.
    pub id: String,
    /// The text of the note; it may span lines.
    pub content: String,
    /// When the note was made.
    pub timestamp: Timestamp,
}

/// A note as contracts speak of it.
pub struct NoteView {
    pub id: Seq<char>,
    pub content: Seq<char>,
    pub timestamp: Timestamp,
}

impl View for Note {
    type V = NoteView;

    open spec fn view(&self) -> NoteView {
        NoteView { id: self.id@, content: self.content@, timestamp: self.timestamp }
    }
}

impl Clone for Note {
    fn clone(&self) -> (r: Self)
        ensures
            r@ == self@,
    {
        Note { id: self.id.clone(), content: self.content.clone(), timestamp: self.timestamp }
    }
}

/// What removing a note by the head of its identifier came to.
#[derive(Debug)]
pub enum RemoveResult {
    /// The one note whose identifier began so is gone; this was its
    /// identifier.
    Removed(String),
    /// No identifier began so.
    NotFound,
    /// Several identifiers began so, these; nothing was removed.
    Ambiguous(Vec<String>),
}

/// The number of characters that a preview shows of a content.
pub const PREVIEW_CHARS: usize = 50;

/// The head of a content, for a list: its first fifty characters, with
/// `...` behind them where the content takes more than fifty bytes.
pub open spec fn preview_of(content: Seq<char>) -> Seq<char> {
    let head = if content.len() > PREVIEW_CHARS {
        content.take(PREVIEW_CHARS as int)
    } else {
        content
    };
    if vstd::utf8::encode_utf8(content).len() as usize > PREVIEW_CHARS {
        head + "..."@
    } else {
        head
    }
}

/// The views of the notes of `notes`, in order.
pub open spec fn note_views(notes: Seq<Note>) -> Seq<NoteView> {
    Seq::new(notes.len(), |i: int| notes[i]@)
}

/// The views of the strings of `ids`, in order.
pub open spec fn string_views(ids: Seq<String>) -> Seq<Seq<char>> {
    Seq::new(ids.len(), |i: int| ids[i]@)
}

/// The counter at which the search for a free identifier gives up.
pub const LAST_ATTEMPT: u32 = 65_536;

/// The hash of a note: that of the bytes of its content, of the eight bytes
/// of the time and of the four bytes of the counter, written to a
/// `DefaultHasher` in that order.
pub open spec fn digest(content: Seq<char>, nanos: i64, counter: u32) -> u64 {
    DefaultHasher::spec_finish(
        seq![
            vstd::utf8::encode_utf8(content),
            spec_u64_to_le_bytes(nanos as u64),
            spec_u32_to_le_bytes(counter),
        ],
    )
}

/// The hexadecimal digit of a value below sixteen.
pub open spec fn hex_digit(v: u8) -> char {
    if v < 10 {
        (48 + v) as u8 as char
    } else {
        (87 + v) as u8 as char
    }
}

/// The digit of `h` at the place `i`, counted from the most significant of
/// its sixteen.
pub open spec fn nibble(h: u64, i: int) -> u8 {
    ((h >> ((60 - 4 * i) as u64)) & 0xf) as u8
}

/// The first `n` of the sixteen hexadecimal digits of `h`.
pub open spec fn hex_prefix(h: u64, n: nat) -> Seq<char> {
    Seq::new(n, |i: int| hex_digit(nibble(h, i)))
}

/// The identifier tried at a counter: four digits of the hash.
pub open spec fn candidate(content: Seq<char>, nanos: i64, counter: u32) -> Seq<char> {
    hex_prefix(digest(content, nanos, counter), 4)
}

/// The first counter from `from` on whose candidate is not among `ids`, or
/// a number past `LAST_ATTEMPT` where there is none up to it.
pub open spec fn first_free(content: Seq<char>, nanos: i64, ids: Seq<Seq<char>>, from: int) -> int
    decreases LAST_ATTEMPT + 1 - from,
{
    if from < 0 || from > LAST_ATTEMPT {
        LAST_ATTEMPT + 1
    } else if !ids.contains(candidate(content, nanos, from as u32)) {
        from
    } else {
        first_free(content, nanos, ids, from + 1)
    }
}

/// The identifier of a new note: the first candidate that is not among
/// `ids`; where every candidate up to `LAST_ATTEMPT` is among them, eight
/// digits of the last hash.
pub open spec fn unique_id(content: Seq<char>, nanos: i64, ids: Seq<Seq<char>>) -> Seq<char> {
    let k = first_free(content, nanos, ids, 0);
    if k <= LAST_ATTEMPT {
        candidate(content, nanos, k as u32)
    } else {
        hex_prefix(digest(content, nanos, LAST_ATTEMPT), 8)
    }
}

/// The time of a note as its hash takes it: the nanoseconds since the
/// epoch, or zero where an `i64` does not hold them.
pub open spec fn nanos_key(t: Timestamp) -> i64 {
    match t.epoch_nanos() {
        Some(n) => n,
        None => 0,
    }
}

/// Whether one of the candidates up to `LAST_ATTEMPT` is not among `ids`.
pub open spec fn has_free_candidate(content: Seq<char>, nanos: i64, ids: Seq<Seq<char>>) -> bool {
    exists|k: int|
        0 <= k <= LAST_ATTEMPT && !ids.contains(#[trigger] candidate(content, nanos, k as u32))
}

/// `first_free` finds a counter whose candidate is free, with none free
/// before it, or passes `LAST_ATTEMPT` where none is free.
pub proof fn lemma_first_free(content: Seq<char>, nanos: i64, ids: Seq<Seq<char>>, from: int)
    requires
        0 <= from <= LAST_ATTEMPT + 1,
    ensures
        from <= first_free(content, nanos, ids, from) <= LAST_ATTEMPT + 1,
        first_free(content, nanos, ids, from) <= LAST_ATTEMPT ==> !ids.contains(
            candidate(content, nanos, first_free(content, nanos, ids, from) as u32),
        ),
        forall|k: int|
            from <= k < first_free(content, nanos, ids, from) ==> ids.contains(
                #[trigger] candidate(content, nanos, k as u32),
            ),
    decreases LAST_ATTEMPT + 1 - from,
{
    if from <= LAST_ATTEMPT && ids.contains(candidate(content, nanos, from as u32)) {
        lemma_first_free(content, nanos, ids, from + 1);
    }
}

/// A new identifier is fresh wherever one of the candidates is: then it is
/// made of four digits and is not among `ids`.
///
/// Where all the candidates up to `LAST_ATTEMPT` are among `ids`, the
/// identifier has eight digits, and nothing keeps it apart from `ids`.
pub proof fn lemma_unique_id_is_fresh(content: Seq<char>, nanos: i64, ids: Seq<Seq<char>>)
    requires
        has_free_candidate(content, nanos, ids),
    ensures
        unique_id(content, nanos, ids).len() == 4,
        !ids.contains(unique_id(content, nanos, ids)),
{
    lemma_first_free(content, nanos, ids, 0);
}

/// Whether every character of `s` is a digit or a letter from `a` to `f`.
pub open spec fn is_hex_text(s: Seq<char>) -> bool {
    forall|i: int| 0 <= i < s.len() ==> '0' <= #[trigger] s[i] <= '9' || 'a' <= s[i] <= 'f'
}

/// The digits of a hash are hexadecimal digits in lower case, and none is
/// whitespace.
pub proof fn lemma_hex_prefix_chars(h: u64, n: nat)
    requires
        n <= 16,
    ensures
        hex_prefix(h, n).len() == n,
        is_hex_text(hex_prefix(h, n)),
        forall|i: int| 0 <= i < n ==> !crate::text::is_space(#[trigger] hex_prefix(h, n)[i]),
{
    assert forall|i: int| 0 <= i < n implies {
        let c = #[trigger] hex_prefix(h, n)[i];
        ('0' <= c <= '9' || 'a' <= c <= 'f') && !crate::text::is_space(c)
    } by {
        let s = (60 - 4 * i) as u64;
        assert(((h >> s) & 0xf) < 16) by (bit_vector);
    }
}

/// The identifier of four digits that writes `v`, a number below 65,536.
pub open spec fn short_id(v: int) -> Seq<char> {
    hex_prefix((v as u64) << 48, 4)
}

/// The first four digits of a hash write its sixteen leading bits.
pub proof fn lemma_candidate_slot(h: u64)
    ensures
        hex_prefix(h, 4) == short_id((h >> 48) as int),
        (h >> 48) < 65_536,
{
    let v = h >> 48;
    assert(v < 65_536) by (bit_vector)
        requires
            v == h >> 48,
    ;
    assert forall|i: int| 0 <= i < 4 implies nibble(h, i) == nibble(v << 48, i) by {
        let s = (60 - 4 * i) as u64;
        assert((((h >> 48) << 48) >> s) & 0xf == (h >> s) & 0xf) by (bit_vector)
            requires
                s == 48 || s == 52 || s == 56 || s == 60,
        ;
    }
    assert(hex_prefix(h, 4) =~= hex_prefix(v << 48, 4));
}

/// Two digits are one where their values are.
proof fn lemma_hex_digit_injective(a: u8, b: u8)
    requires
        a < 16,
        b < 16,
        hex_digit(a) == hex_digit(b),
    ensures
        a == b,
{
    assert(hex_digit(a) as u32 == hex_digit(b) as u32);
}

/// Two identifiers of four digits are one where their numbers are.
pub proof fn lemma_short_id_injective(a: int, b: int)
    requires
        0 <= a < 65_536,
        0 <= b < 65_536,
        short_id(a) == short_id(b),
    ensures
        a == b,
{
    let x = a as u64;
    let y = b as u64;
    assert forall|i: int| 0 <= i < 4 implies nibble(x << 48, i) == nibble(y << 48, i) by {
        let s = (60 - 4 * i) as u64;
        assert(((x << 48) >> s) & 0xf < 16) by (bit_vector);
        assert(((y << 48) >> s) & 0xf < 16) by (bit_vector);
        assert(short_id(a)[i] == hex_digit(nibble(x << 48, i)));
        assert(short_id(b)[i] == hex_digit(nibble(y << 48, i)));
        lemma_hex_digit_injective(nibble(x << 48, i), nibble(y << 48, i));
    }
    assert(((x << 48) >> 60) & 0xf < 16 && ((x << 48) >> 56) & 0xf < 16 && ((x << 48) >> 52) & 0xf
        < 16 && ((x << 48) >> 48) & 0xf < 16) by (bit_vector);
    assert(((y << 48) >> 60) & 0xf < 16 && ((y << 48) >> 56) & 0xf < 16 && ((y << 48) >> 52) & 0xf
        < 16 && ((y << 48) >> 48) & 0xf < 16) by (bit_vector);
    assert(nibble(x << 48, 0) == nibble(y << 48, 0));
    assert(nibble(x << 48, 1) == nibble(y << 48, 1));
    assert(nibble(x << 48, 2) == nibble(y << 48, 2));
    assert(nibble(x << 48, 3) == nibble(y << 48, 3));
    assert(nibble(x << 48, 0) == (((x << 48) >> 60) & 0xf) as u8);
    assert(nibble(y << 48, 0) == (((y << 48) >> 60) & 0xf) as u8);
    assert(nibble(x << 48, 1) == (((x << 48) >> 56) & 0xf) as u8);
    assert(nibble(y << 48, 1) == (((y << 48) >> 56) & 0xf) as u8);
    assert(x == y) by (bit_vector)
        requires
            x < 65_536,
            y < 65_536,
            ((x << 48) >> 60) & 0xf == ((y << 48) >> 60) & 0xf,
            ((x << 48) >> 56) & 0xf == ((y << 48) >> 56) & 0xf,
            ((x << 48) >> 52) & 0xf == ((y << 48) >> 52) & 0xf,
            ((x << 48) >> 48) & 0xf == ((y << 48) >> 48) & 0xf,
    ;
}

/// The value of a hexadecimal digit, written in lower case.
fn hex_value(c: char) -> (r: Option<u8>)
    ensures
        match r {
            Some(v) => v < 16 && hex_digit(v) == c,
            None => forall|v: u8| v < 16 ==> hex_digit(v) != c,
        },
{
    let u: u32 = c as u32;
    if 48 <= u && u <= 57 {
        Some((u - 48) as u8)
    } else if 97 <= u && u <= 102 {
        Some((u - 87) as u8)
    } else {
        proof {
            assert forall|v: u8| v < 16 implies hex_digit(v) != c by {
                assert(hex_digit(v) as u32 != u);
            }
        }
        None
    }
}

/// The number that an identifier of four digits writes, and `None` for
/// anything else.
pub fn id_slot(id: &str) -> (r: Option<usize>)
    ensures
        match r {
            Some(v) => v < 65_536 && short_id(v as int) == id@,
            None => forall|v: int| 0 <= v < 65_536 ==> short_id(v) != id@,
        },
{
    let chars = crate::text::to_chars(id);
    if chars.len() != 4 {
        return None;
    }
    let d0 = hex_value(chars[0]);
    let d1 = hex_value(chars[1]);
    let d2 = hex_value(chars[2]);
    let d3 = hex_value(chars[3]);
    match (d0, d1, d2, d3) {
        (Some(a), Some(b), Some(c), Some(d)) => {
            let a: u64 = a as u64;
            let b: u64 = b as u64;
            let c: u64 = c as u64;
            let d: u64 = d as u64;
            let v: u64 = (a << 12) | (b << 8) | (c << 4) | d;
            proof {
                assert(v < 65_536 && ((v << 48) >> 60) & 0xf == a && ((v << 48) >> 56) & 0xf == b
                    && ((v << 48) >> 52) & 0xf == c && ((v << 48) >> 48) & 0xf == d)
                    by (bit_vector)
                    requires
                        a < 16,
                        b < 16,
                        c < 16,
                        d < 16,
                        v == (a << 12) | (b << 8) | (c << 4) | d,
                ;
                assert(nibble(v << 48, 0) == a);
                assert(nibble(v << 48, 1) == b);
                assert(nibble(v << 48, 2) == c);
                assert(nibble(v << 48, 3) == d);
                assert(short_id(v as int) =~= id@);
            }
            Some(v as usize)
        },
        _ => {
            proof {
                assert forall|v: int| 0 <= v < 65_536 implies short_id(v) != id@ by {
                    let x = v as u64;
                    assert forall|i: int| 0 <= i < 4 implies nibble(x << 48, i) < 16 by {
                        let s = (60 - 4 * i) as u64;
                        assert(((x << 48) >> s) & 0xf < 16) by (bit_vector);
                    }
                    assert(short_id(v)[0] == hex_digit(nibble(x << 48, 0)));
                    assert(short_id(v)[1] == hex_digit(nibble(x << 48, 1)));
                    assert(short_id(v)[2] == hex_digit(nibble(x << 48, 2)));
                    assert(short_id(v)[3] == hex_digit(nibble(x << 48, 3)));
                }
            }
            None
        },
    }
}

/// For each number below 65,536, whether the identifier that writes it is
/// among `ids`.
pub fn taken_slots(ids: &[String]) -> (taken: Vec<bool>)
    ensures
        taken@.len() == 65_536,
        forall|v: int|
            0 <= v < 65_536 ==> #[trigger] taken@[v] == string_views(ids@).contains(short_id(v)),
{
    let mut taken: Vec<bool> = Vec::new();
    let mut n: usize = 0;
    while n < 65_536
        invariant
            n <= 65_536,
            taken@.len() == n,
            forall|v: int| 0 <= v < n ==> !#[trigger] taken@[v],
        decreases 65_536 - n,
    {
        taken.push(false);
        n += 1;
    }
    let ghost all = string_views(ids@);
    let mut i: usize = 0;
    while i < ids.len()
        invariant
            i <= ids.len(),
            all == string_views(ids@),
            taken@.len() == 65_536,
            forall|v: int|
                0 <= v < 65_536 ==> #[trigger] taken@[v] == all.take(i as int).contains(
                    short_id(v),
                ),
        decreases ids.len() - i,
    {
        let ghost before = taken@;
        let ghost done = all.take(i as int);
        let ghost next = all.take(i + 1);
        let slot = id_slot(ids[i].as_str());
        proof {
            assert(all[i as int] == ids@[i as int]@);
            assert(next == done.push(all[i as int]));
        }
        match slot {
            Some(v0) => {
                taken.set(v0, true);
                proof {
                    assert forall|v: int| 0 <= v < 65_536 implies #[trigger] taken@[v]
                        == next.contains(short_id(v)) by {
                        if v == v0 {
                            assert(next[i as int] == short_id(v));
                        } else {
                            assert(taken@[v] == before[v]);
                            if short_id(v) == all[i as int] {
                                lemma_short_id_injective(v, v0 as int);
                            }
                            lemma_contains_push(done, all[i as int], short_id(v));
                        }
                    }
                }
            },
            None => {
                proof {
                    assert forall|v: int| 0 <= v < 65_536 implies #[trigger] taken@[v]
                        == next.contains(short_id(v)) by {
                        lemma_contains_push(done, all[i as int], short_id(v));
                    }
                }
            },
        }
        i += 1;
    }
    assert(all.take(ids.len() as int) == all);
    taken
}

/// What a list holds after one more was put behind it.
proof fn lemma_contains_push(s: Seq<Seq<char>>, last: Seq<char>, x: Seq<char>)
    ensures
        s.push(last).contains(x) == (s.contains(x) || last == x),
{
    let t = s.push(last);
    if s.contains(x) {
        let k = choose|k: int| 0 <= k < s.len() && s[k] == x;
        assert(t[k] == x);
    }
    if last == x {
        assert(t[s.len() as int] == x);
    }
    if t.contains(x) {
        let k = choose|k: int| 0 <= k < t.len() && t[k] == x;
        if k < s.len() {
            assert(s[k] == x);
        }
    }
}

/// The hexadecimal digit of a value below sixteen.
fn hex_char(v: u8) -> (c: char)
    requires
        v < 16,
    ensures
        c == hex_digit(v),
{
    if v < 10 {
        (48 + v) as char
    } else {
        (87 + v) as char
    }
}

/// The first `n` of the sixteen hexadecimal digits of `h`.
pub fn hex_head(h: u64, n: usize) -> (out: String)
    requires
        n <= 16,
    ensures
        out@ == hex_prefix(h, n as nat),
{
    let mut out = String::new();
    let mut i: usize = 0;
    while i < n
        invariant
            i <= n <= 16,
            out@ == hex_prefix(h, i as nat),
        decreases n - i,
    {
        let shift: u64 = 60 - 4 * (i as u64);
        let v: u64 = (h >> shift) & 0xf;
        assert(((h >> shift) & 0xf) < 16) by (bit_vector);
        out.push(hex_char(v as u8));
        assert(out@ == hex_prefix(h, (i + 1) as nat));
        i += 1;
    }
    out
}

/// The hash of a note.
pub fn note_digest(content: &str, nanos: i64, counter: u32) -> (h: u64)
    ensures
        h == digest(content@, nanos, counter),
{
    let mut hasher = DefaultHasher::new();
    hasher.write(content.as_bytes());
    let time = u64_to_le_bytes(nanos as u64);
    hasher.write(time.as_slice());
    let count = u32_to_le_bytes(counter);
    hasher.write(count.as_slice());
    proof {
        assert(hasher@ == seq![
            vstd::utf8::encode_utf8(content@),
            spec_u64_to_le_bytes(nanos as u64),
            spec_u32_to_le_bytes(counter),
        ]);
    }
    hasher.finish()
}

/// Tests whether `id` is among `ids`.
pub fn id_taken(ids: &[String], id: &String) -> (r: bool)
    ensures
        r == string_views(ids@).contains(id@),
{
    let mut i: usize = 0;
    while i < ids.len()
        invariant
            i <= ids.len(),
            forall|j: int| 0 <= j < i ==> string_views(ids@)[j] != id@,
        decreases ids.len() - i,
    {
        if ids[i] == *id {
            assert(string_views(ids@)[i as int] == id@);
            return true;
        }
        i += 1;
    }
    false
}

impl Note {
    /// The head of the content, for a list: see `preview_of`.
    pub fn preview(&self) -> (out: String)
        ensures
            out@ == preview_of(self.content@),
    {
        let chars = crate::text::to_chars(self.content.as_str());
        let n = if chars.len() > PREVIEW_CHARS {
            PREVIEW_CHARS
        } else {
            chars.len()
        };
        let head = crate::text::copy_range(&chars, 0, n);
        assert(chars@.subrange(0, chars@.len() as int) == chars@);
        let mut out = crate::text::from_chars(&head);
        if self.content.as_str().len() > PREVIEW_CHARS {
            out.append("...");
        }
        out
    }

    /// A note of this content, made now, with an identifier that is new
    /// among `existing_ids`.
    pub fn new(content: String, existing_ids: &[String]) -> (note: Note)
        ensures
            note@.content == content@,
            note.timestamp.wf(),
            note@.id == unique_id(
                content@,
                nanos_key(note.timestamp),
                string_views(existing_ids@),
            ),
    {
        let timestamp = crate::timestamp::now_parts();
        Self::with_timestamp(content, timestamp, existing_ids)
    }

    /// A note of this content, made at `timestamp`, with an identifier that
    /// is new among `existing_ids`.
    pub fn with_timestamp(content: String, timestamp: Timestamp, existing_ids: &[String]) -> (note:
        Note)
        ensures
            note@ == (NoteView {
                id: unique_id(content@, nanos_key(timestamp), string_views(existing_ids@)),
                content: content@,
                timestamp,
            }),
    {
        let id = Self::generate_unique_id(content.as_str(), &timestamp, existing_ids);
        Note { id, content, timestamp }
    }

    /// An identifier for a note of this content, made at `timestamp`, that
    /// is new among `existing_ids`: see `unique_id`. It is made of four or
    /// eight hexadecimal digits in lower case. Where one of the candidates
    /// is free, it has four digits and is not among `existing_ids`.
    pub fn generate_unique_id(content: &str, timestamp: &Timestamp, existing_ids: &[String]) -> (id:
        String)
        ensures
            id@ == unique_id(content@, nanos_key(*timestamp), string_views(existing_ids@)),
            id@.len() == 4 || id@.len() == 8,
            is_hex_text(id@),
            forall|i: int| 0 <= i < id@.len() ==> !crate::text::is_space(#[trigger] id@[i]),
            has_free_candidate(content@, nanos_key(*timestamp), string_views(existing_ids@))
                ==> id@.len() == 4 && !string_views(existing_ids@).contains(id@),
    {
        let nanos = match timestamp.timestamp_nanos_opt() {
            Some(n) => n,
            None => 0,
        };
        let ghost ids = string_views(existing_ids@);
        proof {
            if has_free_candidate(content@, nanos, ids) {
                lemma_unique_id_is_fresh(content@, nanos, ids);
            }
        }
        let taken = taken_slots(existing_ids);
        let mut counter: u32 = 0;
        loop
            invariant
                counter <= LAST_ATTEMPT,
                nanos == nanos_key(*timestamp),
                ids == string_views(existing_ids@),
                taken@.len() == 65_536,
                forall|v: int|
                    0 <= v < 65_536 ==> #[trigger] taken@[v] == ids.contains(short_id(v)),
                has_free_candidate(content@, nanos, ids) ==> unique_id(content@, nanos, ids).len()
                    == 4 && !ids.contains(unique_id(content@, nanos, ids)),
                first_free(content@, nanos, ids, 0) == first_free(
                    content@,
                    nanos,
                    ids,
                    counter as int,
                ),
            decreases LAST_ATTEMPT - counter,
        {
            let hash = note_digest(content, nanos, counter);
            proof {
                lemma_candidate_slot(hash);
            }
            let slot = (hash >> 48) as usize;
            if !taken[slot] {
                proof {
                    lemma_hex_prefix_chars(hash, 4);
                }
                return hex_head(hash, 4);
            }
            if counter == LAST_ATTEMPT {
                proof {
                    lemma_hex_prefix_chars(hash, 8);
                    assert(first_free(content@, nanos, ids, LAST_ATTEMPT + 1) == LAST_ATTEMPT + 1);
                }
                return hex_head(hash, 8);
            }
            counter += 1;
        }
    }
}

} // verus!
