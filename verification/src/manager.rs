//! The notes of one store, held in memory.
//!
//! The store is read from the text of its file, changed here, and written
//! back as text. Reading and writing the file itself is left to the caller.

use crate::dates::date_reading;
use crate::note::{
    has_free_candidate, id_taken, lemma_unique_id_is_fresh, nanos_key, note_views, string_views,
    unique_id, Note, NoteView, RemoveResult,
};
use crate::parser::{block_views, blocks_text, dated, parse_blocks, Block, BlockView, NoteParser};
use crate::roundtrip::{
    lemma_blank_text_has_no_blocks, lemma_parse_of_blocks_text, storable, stores_content,
};
use crate::text::{is_space, to_chars, trim};
use crate::timestamp::{rfc3339_of, rfc3339_text, valid_instant, Timestamp};
use vstd::prelude::*;

verus! {

/// A store: its notes, in the order in which they came.
pub struct NoteManager {
    notes: Vec<Note>,
}

/// Whether `p` is the head of `s`.
pub open spec fn has_prefix(s: Seq<char>, p: Seq<char>) -> bool {
    p.len() <= s.len() && s.take(p.len() as int) == p
}

/// The identifiers of `notes`, in order.
pub open spec fn ids_of(notes: Seq<NoteView>) -> Seq<Seq<char>> {
    Seq::new(notes.len(), |i: int| notes[i].id)
}

/// Whether no two notes of `notes` have one identifier.
pub open spec fn has_distinct_ids(notes: Seq<NoteView>) -> bool {
    forall|i: int, j: int|
        0 <= i < j < notes.len() ==> (#[trigger] notes[i]).id != (#[trigger] notes[j]).id
}

/// The identifiers among `notes` that begin with `p`, in order.
pub open spec fn ids_with_prefix(notes: Seq<NoteView>, p: Seq<char>) -> Seq<Seq<char>>
    decreases notes.len(),
{
    if notes.len() == 0 {
        Seq::empty()
    } else {
        let before = ids_with_prefix(notes.drop_last(), p);
        if has_prefix(notes.last().id, p) {
            before.push(notes.last().id)
        } else {
            before
        }
    }
}

/// The notes of `notes` whose identifier is not `id`, in order.
pub open spec fn without_id(notes: Seq<NoteView>, id: Seq<char>) -> Seq<NoteView>
    decreases notes.len(),
{
    if notes.len() == 0 {
        Seq::empty()
    } else {
        let before = without_id(notes.drop_last(), id);
        if notes.last().id == id {
            before
        } else {
            before.push(notes.last())
        }
    }
}

/// `sorted` with `n` put in behind every note that is no earlier than `n`.
pub open spec fn insert_sorted(sorted: Seq<NoteView>, n: NoteView) -> Seq<NoteView>
    decreases sorted.len(),
{
    if sorted.len() > 0 && !sorted.last().timestamp.not_before(n.timestamp) {
        insert_sorted(sorted.drop_last(), n).push(sorted.last())
    } else {
        sorted.push(n)
    }
}

/// The notes of `notes` from the newest to the oldest; notes of one
/// instant stay in the order they had.
pub open spec fn newest_first(notes: Seq<NoteView>) -> Seq<NoteView>
    decreases notes.len(),
{
    if notes.len() == 0 {
        Seq::empty()
    } else {
        insert_sorted(newest_first(notes.drop_last()), notes.last())
    }
}

/// Whether no note of `notes` stands before a later one.
pub open spec fn is_newest_first(notes: Seq<NoteView>) -> bool {
    forall|i: int, j: int|
        0 <= i < j < notes.len() ==> (#[trigger] notes[i]).timestamp.not_before(
            (#[trigger] notes[j]).timestamp,
        )
}

/// The notes of `notes` that were made at the instant of `t`, in order.
pub open spec fn made_at(notes: Seq<NoteView>, t: Timestamp) -> Seq<NoteView>
    decreases notes.len(),
{
    if notes.len() == 0 {
        Seq::empty()
    } else {
        let before = made_at(notes.drop_last(), t);
        if notes.last().timestamp.secs == t.secs && notes.last().timestamp.nanos == t.nanos {
            before.push(notes.last())
        } else {
            before
        }
    }
}

/// The block that a note is written as.
pub open spec fn entry_of(n: NoteView) -> BlockView {
    BlockView {
        id: n.id,
        date: rfc3339_of(n.timestamp.secs, n.timestamp.nanos, n.timestamp.offset),
        content: n.content,
    }
}

/// The blocks that `notes` are written as, in order.
pub open spec fn entries_of(notes: Seq<NoteView>) -> Seq<BlockView> {
    Seq::new(notes.len(), |i: int| entry_of(notes[i]))
}

/// The text of the store file for `notes`: their blocks, from the newest
/// note to the oldest.
pub open spec fn store_text(notes: Seq<NoteView>) -> Seq<char> {
    blocks_text(entries_of(newest_first(notes)))
}

/// Whether a note comes back from the file as it was written: its
/// identifier holds no whitespace, and its content is one that the file
/// keeps.
pub open spec fn can_store(n: NoteView) -> bool {
    &&& forall|i: int| 0 <= i < n.id.len() ==> !is_space(#[trigger] n.id[i])
    &&& stores_content(n.content)
}

/// Whether `added` is what importing `block` into a store that knows the
/// identifiers `known` may add: the content of the block, a timestamp that
/// its date reads as, and its identifier, or, where that one is known, a
/// new one, made at some time.
pub open spec fn imports_as(known: Seq<Seq<char>>, block: BlockView, added: NoteView) -> bool {
    &&& added.content == block.content
    &&& date_reading(block.date).admits(added.timestamp)
    &&& if known.contains(block.id) {
        exists|t: Timestamp|
            t.wf() && added.id == #[trigger] unique_id(
                block.content,
                nanos_key(t),
                known.push(block.id),
            )
    } else {
        added.id == block.id
    }
}

/// Putting a note in keeps all the notes, and adds the one.
pub proof fn lemma_insert_sorted(sorted: Seq<NoteView>, n: NoteView)
    ensures
        insert_sorted(sorted, n).len() == sorted.len() + 1,
        insert_sorted(sorted, n).to_multiset() == sorted.to_multiset().insert(n),
        is_newest_first(sorted) ==> is_newest_first(insert_sorted(sorted, n)),
    decreases sorted.len(),
{
    broadcast use vstd::seq_lib::to_multiset_build;

    let r = insert_sorted(sorted, n);
    if sorted.len() > 0 && !sorted.last().timestamp.not_before(n.timestamp) {
        let head = sorted.drop_last();
        let last = sorted.last();
        lemma_insert_sorted(head, n);
        let inner = insert_sorted(head, n);
        assert(sorted == head.push(last));
        assert(r.to_multiset() == sorted.to_multiset().insert(n));
        if is_newest_first(sorted) {
            assert(is_newest_first(head)) by {
                assert forall|i: int, j: int| 0 <= i < j < head.len() implies (
                #[trigger] head[i]).timestamp.not_before((#[trigger] head[j]).timestamp) by {
                    assert(head[i] == sorted[i] && head[j] == sorted[j]);
                }
            }
            assert forall|i: int, j: int| 0 <= i < j < r.len() implies (
            #[trigger] r[i]).timestamp.not_before((#[trigger] r[j]).timestamp) by {
                if j < inner.len() {
                    assert(r[i] == inner[i] && r[j] == inner[j]);
                } else {
                    assert(r[j] == last);
                    assert(r[i] == inner[i]);
                    inner.to_multiset_ensures();
                    head.to_multiset_ensures();
                    assert(inner.contains(inner[i]));
                    assert(inner.to_multiset().count(inner[i]) > 0);
                    if inner[i] != n {
                        assert(head.to_multiset().count(inner[i]) > 0);
                        assert(head.contains(inner[i]));
                        let k = choose|k: int| 0 <= k < head.len() && head[k] == inner[i];
                        assert(sorted[k] == head[k]);
                        assert(sorted[k].timestamp.not_before(
                            sorted[sorted.len() - 1].timestamp,
                        ));
                    }
                }
            }
        }
    } else {
        if is_newest_first(sorted) {
            assert forall|i: int, j: int| 0 <= i < j < r.len() implies (
            #[trigger] r[i]).timestamp.not_before((#[trigger] r[j]).timestamp) by {
                if j < sorted.len() {
                    assert(r[i] == sorted[i] && r[j] == sorted[j]);
                } else {
                    assert(r[i] == sorted[i]);
                    assert(sorted[i].timestamp.not_before(sorted[sorted.len() - 1].timestamp));
                }
            }
        }
    }
}

/// Sorting keeps every note, as often as it stood there, and leaves none
/// before a later one: whatever order the notes came in, `newest_first`
/// holds the same notes.
pub proof fn lemma_newest_first(notes: Seq<NoteView>)
    ensures
        newest_first(notes).len() == notes.len(),
        newest_first(notes).to_multiset() == notes.to_multiset(),
        is_newest_first(newest_first(notes)),
    decreases notes.len(),
{
    broadcast use vstd::seq_lib::to_multiset_build;

    if notes.len() > 0 {
        lemma_newest_first(notes.drop_last());
        lemma_insert_sorted(newest_first(notes.drop_last()), notes.last());
        assert(notes == notes.drop_last().push(notes.last()));
    } else {
        assert(notes =~= Seq::<NoteView>::empty());
    }
}

/// Putting a note in leaves the notes of every instant in their order, the
/// new one behind those of its own instant.
proof fn lemma_insert_sorted_is_stable(sorted: Seq<NoteView>, n: NoteView, t: Timestamp)
    ensures
        made_at(insert_sorted(sorted, n), t) == made_at(sorted.push(n), t),
    decreases sorted.len(),
{
    if sorted.len() > 0 && !sorted.last().timestamp.not_before(n.timestamp) {
        let head = sorted.drop_last();
        let last = sorted.last();
        lemma_insert_sorted_is_stable(head, n, t);
        let inner = insert_sorted(head, n);
        let at_n = n.timestamp.secs == t.secs && n.timestamp.nanos == t.nanos;
        let at_last = last.timestamp.secs == t.secs && last.timestamp.nanos == t.nanos;
        let a = made_at(head, t);
        assert(!(at_n && at_last));
        assert(inner.push(last).drop_last() == inner);
        assert(inner.push(last).last() == last);
        assert(head.push(n).drop_last() == head);
        assert(head.push(n).last() == n);
        assert(sorted.push(n).drop_last() == sorted);
        assert(sorted.push(n).last() == n);
        assert(made_at(head.push(n), t) == if at_n {
            a.push(n)
        } else {
            a
        });
        assert(made_at(sorted, t) == if at_last {
            a.push(last)
        } else {
            a
        });
        assert(made_at(inner.push(last), t) == if at_last {
            made_at(inner, t).push(last)
        } else {
            made_at(inner, t)
        });
        assert(made_at(sorted.push(n), t) == if at_n {
            made_at(sorted, t).push(n)
        } else {
            made_at(sorted, t)
        });
    }
}

/// Sorting is stable: the notes of any one instant stand in the order in
/// which they came.
pub proof fn lemma_newest_first_is_stable(notes: Seq<NoteView>, t: Timestamp)
    ensures
        made_at(newest_first(notes), t) == made_at(notes, t),
    decreases notes.len(),
{
    if notes.len() > 0 {
        let head = notes.drop_last();
        let sorted = newest_first(head);
        lemma_newest_first_is_stable(head, t);
        lemma_insert_sorted_is_stable(sorted, notes.last(), t);
        assert(sorted.push(notes.last()).drop_last() == sorted);
    }
}

/// Where one identifier alone begins with `p`, taking out the notes of that
/// identifier takes out one note, and leaves the others as they stood.
pub proof fn lemma_remove_takes_one(notes: Seq<NoteView>, p: Seq<char>)
    requires
        ids_with_prefix(notes, p).len() == 1,
    ensures
        exists|i: int|
            0 <= i < notes.len() && (#[trigger] notes[i]).id == ids_with_prefix(notes, p)[0]
                && without_id(notes, ids_with_prefix(notes, p)[0]) == notes.remove(i),
    decreases notes.len(),
{
    let id = ids_with_prefix(notes, p)[0];
    let head = notes.drop_last();
    let last = notes.last();
    if has_prefix(last.id, p) {
        assert(ids_with_prefix(head, p).len() == 0);
        lemma_no_prefix_keeps_all(head, p, id);
        assert(last.id == id);
        assert(notes.remove(notes.len() - 1) == head);
        assert(notes[notes.len() - 1].id == id);
    } else {
        lemma_remove_takes_one(head, p);
        let i = choose|i: int|
            0 <= i < head.len() && (#[trigger] head[i]).id == id && without_id(head, id)
                == head.remove(i);
        assert(last.id != id) by {
            assert(has_prefix(head[i].id, p)) by {
                lemma_prefix_ids_are_heads(head, p);
            }
        }
        assert(notes.remove(i) == head.remove(i).push(last));
        assert(notes[i] == head[i]);
    }
}

/// Every identifier that `ids_with_prefix` gives begins with `p`.
pub proof fn lemma_prefix_ids_are_heads(notes: Seq<NoteView>, p: Seq<char>)
    ensures
        forall|i: int|
            0 <= i < ids_with_prefix(notes, p).len() ==> has_prefix(
                #[trigger] ids_with_prefix(notes, p)[i],
                p,
            ),
        forall|i: int|
            0 <= i < notes.len() && has_prefix((#[trigger] notes[i]).id, p) ==> ids_with_prefix(
                notes,
                p,
            ).contains(notes[i].id),
    decreases notes.len(),
{
    if notes.len() > 0 {
        let head = notes.drop_last();
        lemma_prefix_ids_are_heads(head, p);
        let found = ids_with_prefix(notes, p);
        let before = ids_with_prefix(head, p);
        assert forall|i: int| 0 <= i < found.len() implies has_prefix(#[trigger] found[i], p) by {
            if i < before.len() {
                assert(found[i] == before[i]);
            }
        }
        assert forall|i: int| 0 <= i < notes.len() && has_prefix((#[trigger] notes[i]).id, p)
            implies found.contains(notes[i].id) by {
            if i < head.len() {
                assert(notes[i] == head[i]);
                let k = choose|k: int| 0 <= k < before.len() && before[k] == head[i].id;
                assert(found[k] == before[k]);
            } else {
                assert(found[found.len() - 1] == notes[i].id);
            }
        }
    }
}

/// Where no identifier begins with `p`, none is `id` if `id` begins with
/// `p`, and taking out the notes of `id` takes out nothing.
proof fn lemma_no_prefix_keeps_all(notes: Seq<NoteView>, p: Seq<char>, id: Seq<char>)
    requires
        ids_with_prefix(notes, p).len() == 0,
        has_prefix(id, p),
    ensures
        without_id(notes, id) == notes,
    decreases notes.len(),
{
    if notes.len() > 0 {
        let head = notes.drop_last();
        if has_prefix(notes.last().id, p) {
            assert(ids_with_prefix(notes, p).len() > 0);
        }
        lemma_no_prefix_keeps_all(head, p, id);
        assert(head.push(notes.last()) == notes);
    }
}

/// Tests whether `s` begins with `p`.
pub fn starts_with(s: &str, p: &str) -> (r: bool)
    ensures
        r == has_prefix(s@, p@),
{
    let text = to_chars(s);
    let head = to_chars(p);
    if head.len() > text.len() {
        return false;
    }
    let mut i: usize = 0;
    while i < head.len()
        invariant
            i <= head.len() <= text.len(),
            text@ == s@,
            head@ == p@,
            forall|j: int| 0 <= j < i ==> text@[j] == head@[j],
        decreases head.len() - i,
    {
        if text[i] != head[i] {
            assert(text@.take(head.len() as int)[i as int] != head@[i as int]);
            return false;
        }
        i += 1;
    }
    assert(text@.take(head.len() as int) == head@);
    true
}

/// The notes of `notes` from the newest to the oldest.
pub fn sorted_newest_first(notes: &Vec<Note>) -> (out: Vec<Note>)
    ensures
        note_views(out@) == newest_first(note_views(notes@)),
{
    let mut out: Vec<Note> = Vec::new();
    let mut i: usize = 0;
    assert(note_views(notes@).take(0) == Seq::<NoteView>::empty());
    while i < notes.len()
        invariant
            i <= notes.len(),
            note_views(out@) == newest_first(note_views(notes@).take(i as int)),
        decreases notes.len() - i,
    {
        let note = notes[i].clone();
        let ghost sorted = note_views(out@);
        let ghost n = note@;
        let mut pos: usize = out.len();
        assert(sorted.take(pos as int) == sorted);
        assert(sorted.skip(pos as int) == Seq::<NoteView>::empty());
        while pos > 0 && !out[pos - 1].timestamp.is_not_before(&note.timestamp)
            invariant
                pos <= out.len(),
                sorted == note_views(out@),
                n == note@,
                insert_sorted(sorted, n) == insert_sorted(sorted.take(pos as int), n)
                    + sorted.skip(pos as int),
            decreases pos,
        {
            proof {
                let cut = sorted.take(pos as int);
                assert(cut.last() == sorted[pos - 1]);
                assert(sorted[pos - 1] == out@[pos - 1]@);
                assert(cut.drop_last() == sorted.take(pos - 1));
                assert(insert_sorted(cut, n) == insert_sorted(sorted.take(pos - 1), n).push(
                    cut.last(),
                ));
                assert(insert_sorted(sorted.take(pos - 1), n).push(cut.last()) + sorted.skip(
                    pos as int,
                ) == insert_sorted(sorted.take(pos - 1), n) + sorted.skip(pos - 1));
            }
            pos -= 1;
        }
        proof {
            let cut = sorted.take(pos as int);
            if pos > 0 {
                assert(cut.last() == sorted[pos - 1]);
                assert(sorted[pos - 1] == out@[pos - 1]@);
            }
            assert(insert_sorted(cut, n) == cut.push(n));
        }
        out.insert(pos, note);
        proof {
            assert(note_views(out@) == sorted.take(pos as int).push(n) + sorted.skip(pos as int));
            let done = note_views(notes@).take(i + 1);
            assert(done.last() == n);
            assert(done.drop_last() == note_views(notes@).take(i as int));
        }
        i += 1;
    }
    assert(note_views(notes@).take(notes.len() as int) == note_views(notes@));
    out
}

impl View for NoteManager {
    type V = Seq<NoteView>;

    closed spec fn view(&self) -> Seq<NoteView> {
        note_views(self.notes@)
    }
}

impl NoteManager {
    /// Whether every timestamp of the store is one that `chrono`
    /// represents.
    pub open spec fn wf(&self) -> bool {
        forall|i: int| 0 <= i < self@.len() ==> (#[trigger] self@[i]).timestamp.wf()
    }

    /// An empty store.
    pub fn new() -> (store: NoteManager)
        ensures
            store@ == Seq::<NoteView>::empty(),
            store.wf(),
    {
        NoteManager { notes: Vec::new() }
    }

    /// Tests whether every timestamp of the store is one that `chrono`
    /// represents.
    pub fn is_valid(&self) -> (r: bool)
        ensures
            r == self.wf(),
    {
        let mut i: usize = 0;
        while i < self.notes.len()
            invariant
                i <= self.notes.len(),
                forall|j: int| 0 <= j < i ==> (#[trigger] self@[j]).timestamp.wf(),
            decreases self.notes.len() - i,
        {
            let t = &self.notes[i].timestamp;
            if !(valid_instant(t.secs, t.nanos) && -86_400 < t.offset && t.offset < 86_400) {
                assert(!self@[i as int].timestamp.wf());
                return false;
            }
            i += 1;
        }
        true
    }

    /// The notes of the store, in the order in which they came.
    pub fn get_notes(&self) -> (notes: &[Note])
        ensures
            note_views(notes@) == self@,
    {
        self.notes.as_slice()
    }

    /// The identifiers of the notes, in order.
    fn ids(&self) -> (ids: Vec<String>)
        ensures
            string_views(ids@) == ids_of(self@),
    {
        let mut ids: Vec<String> = Vec::new();
        let mut i: usize = 0;
        while i < self.notes.len()
            invariant
                i <= self.notes.len(),
                ids@.len() == i,
                forall|j: int| 0 <= j < i ==> (#[trigger] ids@[j])@ == self.notes@[j].id@,
            decreases self.notes.len() - i,
        {
            ids.push(self.notes[i].id.clone());
            i += 1;
        }
        assert(string_views(ids@) =~= ids_of(self@));
        ids
    }

    /// Replaces the notes of the store by those that the text of a store
    /// file holds, each block read as `parse_notes_from_text` reads it. A
    /// text that is empty once trimmed leaves the store empty.
    pub fn load_notes(&mut self, content: &str)
        ensures
            final(self).wf(),
            trim(content@).len() == 0 ==> final(self)@ == Seq::<NoteView>::empty(),
            final(self)@.len() == parse_blocks(content@).len(),
            forall|i: int|
                0 <= i < final(self)@.len() ==> {
                    let block = #[trigger] parse_blocks(content@)[i];
                    &&& final(self)@[i].id == block.id
                    &&& final(self)@[i].content == block.content
                    &&& date_reading(block.date).admits(final(self)@[i].timestamp)
                },
    {
        self.notes = NoteParser::parse_notes_from_text(content);
        proof {
            if trim(content@).len() == 0 {
                lemma_blank_text_has_no_blocks(content@);
                assert(self@ =~= Seq::<NoteView>::empty());
            }
            assert forall|i: int| 0 <= i < self@.len() implies (
            #[trigger] self@[i]).timestamp.wf() by {
                let block = parse_blocks(content@)[i];
                assert(date_reading(block.date).admits(self@[i].timestamp));
            }
        }
    }

    /// The text of the store file: see `store_text`. No date in it is
    /// empty or holds whitespace. Where every note can be stored, reading
    /// the text gives the notes back, from the newest to the oldest: their
    /// identifiers, their contents, and their dates as they were written.
    pub fn save_notes(&self) -> (out: String)
        requires
            self.wf(),
        ensures
            out@ == store_text(self@),
            forall|i: int|
                0 <= i < self@.len() ==> dated(#[trigger] entries_of(newest_first(self@))[i]),
            (forall|i: int| 0 <= i < self@.len() ==> can_store(#[trigger] self@[i]))
                ==> parse_blocks(out@) == entries_of(newest_first(self@)),
    {
        let sorted = sorted_newest_first(&self.notes);
        let mut blocks: Vec<Block> = Vec::new();
        let mut i: usize = 0;
        proof {
            lemma_newest_first(self@);
            lemma_sorted_wf(self@);
            assert forall|j: int| 0 <= j < sorted@.len() implies (
            #[trigger] sorted@[j]).timestamp.wf() by {
                assert(note_views(sorted@)[j] == sorted@[j]@);
                assert(newest_first(self@)[j].timestamp.wf());
            }
        }
        while i < sorted.len()
            invariant
                i <= sorted.len(),
                blocks@.len() == i,
                note_views(sorted@) == newest_first(self@),
                forall|j: int| 0 <= j < sorted@.len() ==> (#[trigger] sorted@[j]).timestamp.wf(),
                forall|j: int|
                    0 <= j < i ==> (#[trigger] blocks@[j])@ == entry_of(sorted@[j]@) && dated(
                        blocks@[j]@,
                    ),
            decreases sorted.len() - i,
        {
            let note = &sorted[i];
            blocks.push(
                Block {
                    id: note.id.clone(),
                    date: rfc3339_text(&note.timestamp),
                    content: note.content.clone(),
                },
            );
            i += 1;
        }
        proof {
            lemma_newest_first(self@);
            assert(block_views(blocks@) =~= entries_of(newest_first(self@))) by {
                assert forall|j: int| 0 <= j < blocks@.len() implies block_views(blocks@)[j]
                    == entries_of(newest_first(self@))[j] by {
                    assert(note_views(sorted@)[j] == sorted@[j]@);
                }
            }
            assert forall|j: int| 0 <= j < self@.len() implies dated(
                #[trigger] entries_of(newest_first(self@))[j],
            ) by {
                assert(block_views(blocks@)[j] == blocks@[j]@);
            }
            if forall|i: int| 0 <= i < self@.len() ==> can_store(#[trigger] self@[i]) {
                let written = newest_first(self@);
                let entries = entries_of(written);
                assert forall|j: int| 0 <= j < entries.len() implies storable(
                    #[trigger] entries[j],
                ) by {
                    written.to_multiset_ensures();
                    self@.to_multiset_ensures();
                    assert(written.contains(written[j]));
                    assert(written.to_multiset().count(written[j]) > 0);
                    assert(self@.to_multiset().count(written[j]) > 0);
                    assert(self@.contains(written[j]));
                    let k = choose|k: int| 0 <= k < self@.len() && self@[k] == written[j];
                    assert(can_store(self@[k]));
                    assert(dated(entries[j]));
                }
                lemma_parse_of_blocks_text(entries);
            }
        }
        NoteParser::write_blocks(&blocks)
    }

    /// The notes of the store from the newest to the oldest.
    pub fn list_notes(&self) -> (out: Vec<Note>)
        ensures
            note_views(out@) == newest_first(self@),
    {
        sorted_newest_first(&self.notes)
    }

    /// Adds a note of this content, made now, and gives its identifier:
    /// see `unique_id`. Where one of the candidates is free, the identifier
    /// is new to the store, and a store of distinct identifiers stays one.
    pub fn add_note(&mut self, content: String) -> (id: String)
        requires
            old(self).wf(),
        ensures
            final(self).wf(),
            has_free_candidate(
                content@,
                nanos_key(final(self)@.last().timestamp),
                ids_of(old(self)@),
            ) ==> {
                &&& id@.len() == 4
                &&& !ids_of(old(self)@).contains(id@)
                &&& has_distinct_ids(old(self)@) ==> has_distinct_ids(final(self)@)
            },
            final(self)@.len() == old(self)@.len() + 1,
            final(self)@.drop_last() == old(self)@,
            final(self)@.last().content == content@,
            final(self)@.last().id == id@,
            id@ == unique_id(
                content@,
                nanos_key(final(self)@.last().timestamp),
                ids_of(old(self)@),
            ),
    {
        let existing_ids = self.ids();
        let note = Note::new(content, existing_ids.as_slice());
        let note_id = note.id.clone();
        let ghost before = self@;
        let ghost added = note@;
        self.notes.push(note);
        proof {
            assert(self@ == before.push(added));
            if has_free_candidate(content@, nanos_key(added.timestamp), ids_of(before)) {
                lemma_unique_id_is_fresh(content@, nanos_key(added.timestamp), ids_of(before));
                if has_distinct_ids(before) {
                    assert forall|i: int, j: int| 0 <= i < j < self@.len() implies (
                    #[trigger] self@[i]).id != (#[trigger] self@[j]).id by {
                        assert(self@[i] == before[i]);
                        if j < before.len() {
                            assert(self@[j] == before[j]);
                        } else {
                            assert(ids_of(before)[i] == before[i].id);
                        }
                    }
                }
            }
            assert(self@.drop_last() == before);
            assert forall|i: int| 0 <= i < self@.len() implies (
            #[trigger] self@[i]).timestamp.wf() by {
                if i < before.len() {
                    assert(self@[i] == before[i]);
                }
            }
        }
        note_id
    }

    /// Removes the note whose identifier begins with `id`, where there is
    /// exactly one such identifier; else the store stays as it is.
    pub fn remove_note_by_id(&mut self, id: &str) -> (r: RemoveResult)
        ensures
            old(self).wf() ==> final(self).wf(),
            match r {
                RemoveResult::NotFound => {
                    &&& ids_with_prefix(old(self)@, id@).len() == 0
                    &&& final(self)@ == old(self)@
                    &&& store_text(final(self)@) == store_text(old(self)@)
                },
                RemoveResult::Removed(gone) => {
                    &&& ids_with_prefix(old(self)@, id@) == seq![gone@]
                    &&& final(self)@ == without_id(old(self)@, gone@)
                    &&& final(self)@.len() + 1 == old(self)@.len()
                },
                RemoveResult::Ambiguous(found) => {
                    &&& found@.len() >= 2
                    &&& string_views(found@) == ids_with_prefix(old(self)@, id@)
                    &&& final(self)@ == old(self)@
                    &&& store_text(final(self)@) == store_text(old(self)@)
                },
            },
    {
        let ghost all = self@;
        let mut found: Vec<String> = Vec::new();
        let mut i: usize = 0;
        assert(all.take(0) == Seq::<NoteView>::empty());
        while i < self.notes.len()
            invariant
                i <= self.notes.len(),
                all == self@,
                self@ == old(self)@,
                string_views(found@) == ids_with_prefix(all.take(i as int), id@),
            decreases self.notes.len() - i,
        {
            let ghost before = string_views(found@);
            proof {
                let done = all.take(i + 1);
                assert(done.last() == self.notes@[i as int]@);
                assert(done.drop_last() == all.take(i as int));
            }
            if starts_with(self.notes[i].id.as_str(), id) {
                found.push(self.notes[i].id.clone());
                assert(string_views(found@) == before.push(self.notes@[i as int].id@));
            }
            i += 1;
        }
        assert(all.take(self.notes.len() as int) == all);
        if found.len() == 0 {
            RemoveResult::NotFound
        } else if found.len() == 1 {
            let gone = found[0].clone();
            assert(string_views(found@)[0] == gone@);
            assert(string_views(found@) == seq![gone@]);
            let mut kept: Vec<Note> = Vec::new();
            let mut j: usize = 0;
            while j < self.notes.len()
                invariant
                    j <= self.notes.len(),
                    all == self@,
                    note_views(kept@) == without_id(all.take(j as int), gone@),
                decreases self.notes.len() - j,
            {
                let ghost before = note_views(kept@);
                proof {
                    let done = all.take(j + 1);
                    assert(done.last() == self.notes@[j as int]@);
                    assert(done.drop_last() == all.take(j as int));
                }
                if self.notes[j].id != gone {
                    kept.push(self.notes[j].clone());
                    assert(note_views(kept@) == before.push(self.notes@[j as int]@));
                }
                j += 1;
            }
            assert(all.take(self.notes.len() as int) == all);
            proof {
                if old(self).wf() {
                    lemma_without_id_wf(all, gone@);
                }
                lemma_remove_takes_one(all, id@);
            }
            self.notes = kept;
            RemoveResult::Removed(gone)
        } else {
            RemoveResult::Ambiguous(found)
        }
    }

    /// Adds the notes that the text of a file holds, and gives their
    /// number. Each block of the text adds one note, as `imports_as` says:
    /// a note whose identifier the store knows by then gets a new one.
    pub fn import_from_file(&mut self, content: &str) -> (count: usize)
        requires
            old(self).wf(),
        ensures
            final(self).wf(),
            count == parse_blocks(content@).len(),
            final(self)@.len() == old(self)@.len() + count,
            final(self)@.take(old(self)@.len() as int) == old(self)@,
            forall|j: int|
                0 <= j < count ==> imports_as(
                    ids_of(final(self)@.take(old(self)@.len() + j)),
                    #[trigger] parse_blocks(content@)[j],
                    final(self)@[old(self)@.len() + j],
                ),
    {
        let imported = NoteParser::parse_notes_from_text(content);
        let ghost blocks = parse_blocks(content@);
        let ghost start = self@;
        let mut count: usize = 0;
        let mut i: usize = 0;
        assert(self@.take(start.len() as int) == start);
        while i < imported.len()
            invariant
                i <= imported.len(),
                count == i,
                self.wf(),
                blocks == parse_blocks(content@),
                imported@.len() == blocks.len(),
                forall|j: int|
                    0 <= j < imported@.len() ==> {
                        let block = #[trigger] blocks[j];
                        &&& imported@[j]@.id == block.id
                        &&& imported@[j]@.content == block.content
                        &&& date_reading(block.date).admits(imported@[j].timestamp)
                    },
                self@.len() == start.len() + i,
                self@.take(start.len() as int) == start,
                forall|j: int|
                    0 <= j < i ==> imports_as(
                        ids_of(self@.take(start.len() + j)),
                        #[trigger] blocks[j],
                        self@[start.len() + j],
                    ),
            decreases imported.len() - i,
        {
            let ghost before = self@;
            let ghost block = blocks[i as int];
            let note = &imported[i];
            let known = self.ids();
            let id = if id_taken(known.as_slice(), &note.id) {
                let mut all_ids = known;
                all_ids.push(note.id.clone());
                proof {
                    assert(string_views(all_ids@) == ids_of(before).push(block.id));
                }
                let fresh = Note::new(note.content.clone(), all_ids.as_slice());
                fresh.id
            } else {
                note.id.clone()
            };
            let added = Note { id, content: note.content.clone(), timestamp: note.timestamp };
            let ghost shown = added@;
            self.notes.push(added);
            proof {
                assert(self@ == before.push(shown));
                assert(self@.take(start.len() as int) == before.take(start.len() as int));
                assert(self@.take(start.len() + i) == before);
                assert(imports_as(ids_of(before), block, shown));
                assert forall|j: int| 0 <= j < i + 1 implies imports_as(
                    ids_of(self@.take(start.len() + j)),
                    #[trigger] blocks[j],
                    self@[start.len() + j],
                ) by {
                    if j < i {
                        assert(self@.take(start.len() + j) == before.take(start.len() + j));
                        assert(self@[start.len() + j] == before[start.len() + j]);
                    }
                }
                assert forall|k: int| 0 <= k < self@.len() implies (
                #[trigger] self@[k]).timestamp.wf() by {
                    if k < before.len() {
                        assert(self@[k] == before[k]);
                    }
                }
            }
            count += 1;
            i += 1;
        }
        count
    }
}

/// Sorting keeps the timestamps that `chrono` represents.
proof fn lemma_sorted_wf(notes: Seq<NoteView>)
    requires
        forall|i: int| 0 <= i < notes.len() ==> (#[trigger] notes[i]).timestamp.wf(),
    ensures
        forall|i: int|
            0 <= i < newest_first(notes).len() ==> (#[trigger] newest_first(
                notes,
            )[i]).timestamp.wf(),
{
    lemma_newest_first(notes);
    let sorted = newest_first(notes);
    assert forall|i: int| 0 <= i < sorted.len() implies (#[trigger] sorted[i]).timestamp.wf() by {
        sorted.to_multiset_ensures();
        notes.to_multiset_ensures();
        assert(sorted.contains(sorted[i]));
        assert(sorted.to_multiset().count(sorted[i]) > 0);
        assert(notes.to_multiset().count(sorted[i]) > 0);
        assert(notes.contains(sorted[i]));
        let k = choose|k: int| 0 <= k < notes.len() && notes[k] == sorted[i];
        assert(notes[k].timestamp.wf());
    }
}

/// Taking notes out keeps the timestamps that `chrono` represents.
proof fn lemma_without_id_wf(notes: Seq<NoteView>, id: Seq<char>)
    requires
        forall|i: int| 0 <= i < notes.len() ==> (#[trigger] notes[i]).timestamp.wf(),
    ensures
        forall|i: int|
            0 <= i < without_id(notes, id).len() ==> (#[trigger] without_id(
                notes,
                id,
            )[i]).timestamp.wf(),
    decreases notes.len(),
{
    if notes.len() > 0 {
        let head = notes.drop_last();
        assert forall|i: int| 0 <= i < head.len() implies (#[trigger] head[i]).timestamp.wf() by {
            assert(head[i] == notes[i]);
        }
        lemma_without_id_wf(head, id);
        let r = without_id(notes, id);
        assert forall|i: int| 0 <= i < r.len() implies (#[trigger] r[i]).timestamp.wf() by {
            if i < without_id(head, id).len() {
                assert(r[i] == without_id(head, id)[i]);
            } else {
                assert(r[i] == notes[notes.len() - 1]);
            }
        }
    }
}

} // verus!
