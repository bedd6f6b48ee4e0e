//! Offset-based text patches.
//!
//! A [`TextEditor`] keeps one source text and a list of insertions, each keyed
//! by a byte offset of that source. `apply` orders the insertions by offset,
//! keeping the recorded order among insertions that share an offset, and
//! splices them into the source.

use vstd::prelude::*;
use vstd::string::*;
use vstd::utf8::*;

verus! {

/// A pair of byte offsets into one source text.
#[derive(Debug)]
pub struct Range {
    pub start: usize,
    pub end: usize,
}

impl Range {
    /// A range never ends before it starts.
    pub open spec fn wf(&self) -> bool {
        self.start <= self.end
    }

    /// Builds the range `start..end`, or nothing when `end` lies before `start`.
    pub fn new(start: usize, end: usize) -> (range: Option<Range>)
        ensures
            range.is_some() <==> start <= end,
            range.is_some() ==> range.unwrap().start == start && range.unwrap().end == end
                && range.unwrap().wf(),
    {
        if start <= end {
            Some(Range { start, end })
        } else {
            None
        }
    }
}

struct Change(usize, String);

/// One recorded insertion: `text` goes in front of the byte at `offset`.
pub ghost struct Edit {
    pub offset: int,
    pub text: Seq<char>,
}

/// The part of `source` between two byte offsets.
pub open spec fn slice_text(source: Seq<char>, from: int, to: int) -> Seq<char> {
    decode_utf8(encode_utf8(source).subrange(from, to))
}

/// Whether `offset` is a place of `source` where text can be inserted: it lies
/// within the text and does not cut a character in two.
pub open spec fn is_insertion_point(source: Seq<char>, offset: int) -> bool {
    is_char_boundary(encode_utf8(source), offset)
}

/// Where a new insertion at `offset` goes in an ordered list: behind every
/// insertion whose offset is not larger.
pub open spec fn insert_position(sorted: Seq<Edit>, offset: int) -> int
    decreases sorted.len(),
{
    if sorted.len() == 0 || sorted[0].offset > offset {
        0
    } else {
        1 + insert_position(sorted.drop_first(), offset)
    }
}

/// The insertions in ascending order of offset; those with the same offset
/// stay in the order in which they were recorded.
pub open spec fn stable_sorted(edits: Seq<Edit>) -> Seq<Edit>
    decreases edits.len(),
{
    if edits.len() == 0 {
        Seq::empty()
    } else {
        let front = stable_sorted(edits.drop_last());
        front.insert(insert_position(front, edits.last().offset), edits.last())
    }
}

/// The source from byte `pointer` on, with `edits` spliced in one after the
/// other: the source up to the insertion's offset, then its text.
pub open spec fn patched(source: Seq<char>, edits: Seq<Edit>, pointer: int) -> Seq<char>
    decreases edits.len(),
{
    if edits.len() == 0 {
        slice_text(source, pointer, encode_utf8(source).len() as int)
    } else {
        let edit = edits[0];
        let copied = if edit.offset > pointer {
            slice_text(source, pointer, edit.offset)
        } else {
            Seq::empty()
        };
        copied + edit.text + patched(source, edits.drop_first(), edit.offset)
    }
}

/// Whether the offsets never decrease along `edits`.
pub open spec fn ascending(edits: Seq<Edit>) -> bool {
    forall|i: int, j: int| 0 <= i <= j < edits.len() ==> edits[i].offset <= edits[j].offset
}

/// Recording insertions into a source and applying them.
pub trait TextEdit: Sized {
    /// The text that the insertions refer to.
    spec fn source(&self) -> Seq<char>;

    /// The insertions recorded so far, oldest first.
    spec fn edits(&self) -> Seq<Edit>;

    /// Whether every recorded offset is an insertion point of the source.
    open spec fn edits_in_bounds(&self) -> bool {
        forall|i: int|
            0 <= i < self.edits().len() ==> is_insertion_point(
                self.source(),
                #[trigger] self.edits()[i].offset,
            )
    }

    /// Starts an editor on `text` with nothing recorded.
    fn load(text: &str) -> (editor: Self)
        ensures
            editor.source() == text@,
            editor.edits() == Seq::<Edit>::empty(),
    ;

    /// Records an insertion of `text` at the end of `range`.
    fn insert_after(&mut self, range: Range, text: &str)
        ensures
            final(self).source() == old(self).source(),
            final(self).edits() == old(self).edits().push(
                Edit { offset: range.end as int, text: text@ },
            ),
    ;

    /// Records an insertion of `text` at the start of `range`.
    fn insert_before(&mut self, range: Range, text: &str)
        ensures
            final(self).source() == old(self).source(),
            final(self).edits() == old(self).edits().push(
                Edit { offset: range.start as int, text: text@ },
            ),
    ;

    /// Orders the insertions and returns the source with all of them applied.
    fn apply(&mut self) -> (out: String)
        requires
            old(self).edits_in_bounds(),
        ensures
            final(self).source() == old(self).source(),
            final(self).edits() == stable_sorted(old(self).edits()),
            out@ == patched(old(self).source(), stable_sorted(old(self).edits()), 0),
    ;
}

/// A source text and the insertions recorded for it.
pub struct TextEditor {
    changes: Vec<Change>,
    source: String,
}

spec fn edits_of(changes: Seq<Change>) -> Seq<Edit> {
    Seq::new(changes.len(), |i: int| Edit { offset: changes[i].0 as int, text: changes[i].1@ })
}

proof fn lemma_insert_position(sorted: Seq<Edit>, offset: int, at: int)
    requires
        0 <= at <= sorted.len(),
        forall|k: int| 0 <= k < at ==> sorted[k].offset <= offset,
        at == sorted.len() || sorted[at].offset > offset,
    ensures
        insert_position(sorted, offset) == at,
    decreases sorted.len(),
{
    if at > 0 {
        let rest = sorted.drop_first();
        assert forall|k: int| 0 <= k < at - 1 implies rest[k].offset <= offset by {
            assert(rest[k] == sorted[k + 1]);
        }
        lemma_insert_position(rest, offset, at - 1);
    }
}

/// Ordering keeps every insertion: the ordered list is a rearrangement.
pub proof fn lemma_stable_sorted_keeps_all(edits: Seq<Edit>)
    ensures
        stable_sorted(edits).len() == edits.len(),
        stable_sorted(edits).to_multiset() == edits.to_multiset(),
    decreases edits.len(),
{
    broadcast use vstd::seq_lib::group_to_multiset_ensures;

    if edits.len() > 0 {
        let front = stable_sorted(edits.drop_last());
        lemma_stable_sorted_keeps_all(edits.drop_last());
        let at = insert_position(front, edits.last().offset);
        lemma_insert_position_in_range(front, edits.last().offset);
        let all = front.insert(at, edits.last());
        assert(all.remove(at) =~= front);
        assert(all[at] == edits.last());
        vstd::seq_lib::to_multiset_remove(all, at);
        assert(all.contains(edits.last()));
        assert(all.to_multiset() =~= front.to_multiset().insert(edits.last()));
        assert(edits =~= edits.drop_last().push(edits.last()));
    }
}

proof fn lemma_insert_position_in_range(sorted: Seq<Edit>, offset: int)
    ensures
        0 <= insert_position(sorted, offset) <= sorted.len(),
        forall|k: int|
            0 <= k < insert_position(sorted, offset) ==> (#[trigger] sorted[k]).offset <= offset,
        insert_position(sorted, offset) < sorted.len() ==> sorted[insert_position(
            sorted,
            offset,
        )].offset > offset,
    decreases sorted.len(),
{
    if sorted.len() == 0 || sorted[0].offset > offset {
    } else {
        let rest = sorted.drop_first();
        lemma_insert_position_in_range(rest, offset);
        assert forall|k: int| 0 <= k < insert_position(sorted, offset) implies (
        #[trigger] sorted[k]).offset <= offset by {
            if k > 0 {
                assert(sorted[k] == rest[k - 1]);
            }
        }
        if insert_position(sorted, offset) < sorted.len() {
            assert(sorted[insert_position(sorted, offset)] == rest[insert_position(rest, offset)]);
        }
    }
}

/// The ordered list is ascending in its offsets.
pub proof fn lemma_stable_sorted_ascending(edits: Seq<Edit>)
    ensures
        ascending(stable_sorted(edits)),
    decreases edits.len(),
{
    if edits.len() > 0 {
        let front = stable_sorted(edits.drop_last());
        lemma_stable_sorted_ascending(edits.drop_last());
        let offset = edits.last().offset;
        let at = insert_position(front, offset);
        lemma_insert_position_in_range(front, offset);
        let all = front.insert(at, edits.last());
        assert forall|i: int, j: int| 0 <= i <= j < all.len() implies all[i].offset
            <= all[j].offset by {
            let fi = if i < at { i } else { i - 1 };
            let fj = if j < at { j } else { j - 1 };
            if i != at && j != at {
                assert(all[i] == front[fi]);
                assert(all[j] == front[fj]);
            } else if i == at && j != at {
                assert(all[j] == front[fj]);
                assert(front[at].offset <= front[fj].offset);
            } else if j == at && i != at {
                assert(all[i] == front[fi]);
            }
        }
    }
}

/// The tie-break: in an ascending list a new insertion goes behind every
/// insertion whose offset is the same or smaller, so that insertions at one
/// offset stay in the order in which they were recorded.
pub proof fn lemma_insert_behind_equal_offsets(sorted: Seq<Edit>, offset: int)
    requires
        ascending(sorted),
    ensures
        0 <= insert_position(sorted, offset) <= sorted.len(),
        forall|k: int|
            0 <= k < sorted.len() ==> ((#[trigger] sorted[k]).offset <= offset <==> k
                < insert_position(sorted, offset)),
{
    lemma_insert_position_in_range(sorted, offset);
    let at = insert_position(sorted, offset);
    assert forall|k: int| 0 <= k < sorted.len() implies ((#[trigger] sorted[k]).offset <= offset
        <==> k < at) by {
        if k >= at {
            assert(sorted[at].offset <= sorted[k].offset);
        }
    }
}

/// Insertions that were recorded in the order of their offsets stay as they
/// are: ordering moves an insertion only in front of insertions with a larger
/// offset, never in front of one with the same offset.
pub proof fn lemma_ordered_edits_stay(edits: Seq<Edit>)
    requires
        ascending(edits),
    ensures
        stable_sorted(edits) == edits,
    decreases edits.len(),
{
    if edits.len() > 0 {
        let front = edits.drop_last();
        assert forall|i: int, j: int| 0 <= i <= j < front.len() implies front[i].offset
            <= front[j].offset by {
            assert(front[i] == edits[i]);
            assert(front[j] == edits[j]);
        }
        lemma_ordered_edits_stay(front);
        assert forall|k: int| 0 <= k < front.len() implies front[k].offset
            <= edits.last().offset by {
            assert(front[k] == edits[k]);
        }
        lemma_insert_position(front, edits.last().offset, front.len() as int);
        assert(front.insert(front.len() as int, edits.last()) =~= edits);
    } else {
        assert(stable_sorted(edits) =~= edits);
    }
}

/// The start of every source is a place for an insertion.
pub proof fn lemma_start_is_insertion_point(source: Seq<char>)
    ensures
        is_insertion_point(source, 0),
{
    encode_utf8_valid_utf8(source);
    reveal_with_fuel(is_char_boundary, 1);
}

/// Without insertions the source comes back as it is.
pub proof fn lemma_patched_without_edits(source: Seq<char>)
    ensures
        patched(source, stable_sorted(Seq::empty()), 0) == source,
{
    let bytes = encode_utf8(source);
    assert(bytes.subrange(0, bytes.len() as int) =~= bytes);
    encode_utf8_decode_utf8(source);
}

/// In a source of ASCII characters a byte is a character: every offset up to
/// the length is a place for an insertion, and the part between two offsets
/// is the characters between them.
pub proof fn lemma_ascii_source(source: Seq<char>, from: int, to: int)
    requires
        is_ascii_chars(source),
        0 <= from <= to <= source.len(),
    ensures
        encode_utf8(source).len() == source.len(),
        is_insertion_point(source, from),
        is_insertion_point(source, to),
        slice_text(source, from, to) == source.subrange(from, to),
{
    let bytes = encode_utf8(source);
    let part = source.subrange(from, to);
    is_ascii_chars_encode_utf8(source);
    is_ascii_chars_nat_bound(source);
    assert(is_ascii_chars(part));
    is_ascii_chars_encode_utf8(part);
    assert(encode_utf8(part) =~= bytes.subrange(from, to));
    encode_utf8_decode_utf8(part);
    encode_utf8_valid_utf8(source);
    is_char_boundary_start_end_of_seq(bytes);
    if from < source.len() {
        assert(bytes[from] == source[from] as u8);
        is_char_boundary_iff_not_is_continuation_byte(bytes, from);
    }
    if to < source.len() {
        assert(bytes[to] == source[to] as u8);
        is_char_boundary_iff_not_is_continuation_byte(bytes, to);
    }
}

proof fn lemma_boundary_in_suffix(bytes: Seq<u8>, from: int, to: int)
    requires
        valid_utf8(bytes),
        is_char_boundary(bytes, from),
        is_char_boundary(bytes, to),
        from <= to,
    ensures
        0 <= from <= to <= bytes.len(),
        valid_utf8(bytes.subrange(from, bytes.len() as int)),
        is_char_boundary(bytes.subrange(from, bytes.len() as int), to - from),
{
    reveal_with_fuel(is_char_boundary, 2);
    valid_utf8_split(bytes, from);
    let suffix = bytes.subrange(from, bytes.len() as int);
    if to == from {
    } else if to == bytes.len() {
        is_char_boundary_start_end_of_seq(suffix);
    } else {
        is_char_boundary_iff_not_is_continuation_byte(bytes, to);
        is_char_boundary_iff_not_is_continuation_byte(suffix, to - from);
    }
}

fn sort_changes(changes: &Vec<Change>) -> (sorted: Vec<Change>)
    ensures
        edits_of(sorted@) == stable_sorted(edits_of(changes@)),
{
    let mut sorted: Vec<Change> = Vec::new();
    let mut i: usize = 0;
    assert(edits_of(changes@).take(0) =~= Seq::<Edit>::empty());
    assert(edits_of(sorted@) =~= Seq::<Edit>::empty());
    while i < changes.len()
        invariant
            i <= changes.len(),
            edits_of(sorted@) == stable_sorted(edits_of(changes@).take(i as int)),
        decreases changes.len() - i,
    {
        let offset = changes[i].0;
        let mut at: usize = 0;
        while at < sorted.len() && sorted[at].0 <= offset
            invariant
                at <= sorted.len(),
                forall|k: int| 0 <= k < at ==> sorted@[k].0 <= offset,
            decreases sorted.len() - at,
        {
            at += 1;
        }
        let ghost before = sorted@;
        let ghost edit = Edit { offset: offset as int, text: changes@[i as int].1@ };
        sorted.insert(at, Change(offset, changes[i].1.clone()));
        proof {
            let front = edits_of(before);
            lemma_insert_position(front, offset as int, at as int);
            let prefix = edits_of(changes@).take(i as int + 1);
            assert(prefix.drop_last() =~= edits_of(changes@).take(i as int));
            assert(prefix.last() == edit);
            assert(edits_of(sorted@) =~= front.insert(at as int, edit));
        }
        i += 1;
    }
    assert(edits_of(changes@).take(i as int) =~= edits_of(changes@));
    sorted
}

impl TextEdit for TextEditor {
    closed spec fn source(&self) -> Seq<char> {
        self.source@
    }

    closed spec fn edits(&self) -> Seq<Edit> {
        edits_of(self.changes@)
    }

    fn load(text: &str) -> (editor: TextEditor) {
        let editor = TextEditor { changes: Vec::new(), source: text.to_owned() };
        assert(edits_of(editor.changes@) =~= Seq::<Edit>::empty());
        editor
    }

    fn insert_after(&mut self, range: Range, text: &str) {
        self.changes.push(Change(range.end, text.to_owned()));
        assert(edits_of(self.changes@) =~= edits_of(old(self).changes@).push(
            Edit { offset: range.end as int, text: text@ },
        ));
    }

    fn insert_before(&mut self, range: Range, text: &str) {
        self.changes.push(Change(range.start, text.to_owned()));
        assert(edits_of(self.changes@) =~= edits_of(old(self).changes@).push(
            Edit { offset: range.start as int, text: text@ },
        ));
    }

    fn apply(&mut self) -> (out: String) {
        broadcast use {encode_utf8_valid_utf8, encode_utf8_decode_utf8};

        let sorted = sort_changes(&self.changes);
        proof {
            lemma_stable_sorted_keeps_all(old(self).edits());
        }
        self.changes = sorted;
        let ghost source = self.source@;
        let ghost bytes = encode_utf8(source);
        let ghost edits = edits_of(self.changes@);
        assert forall|i: int| 0 <= i < edits.len() implies is_insertion_point(
            source,
            #[trigger] edits[i].offset,
        ) by {
            edits.to_multiset_ensures();
            old(self).edits().to_multiset_ensures();
            assert(edits.contains(edits[i]));
            assert(edits.to_multiset().count(edits[i]) > 0);
            assert(old(self).edits().to_multiset().count(edits[i]) > 0);
            assert(old(self).edits().contains(edits[i]));
        }
        let text: &str = self.source.as_str();
        proof {
            encode_utf8_valid_utf8(source);
            reveal_with_fuel(is_char_boundary, 2);
        }
        let mut buf = String::new();
        let mut pointer: usize = 0;
        let mut i: usize = 0;
        assert(edits.subrange(0, edits.len() as int) =~= edits);
        while i < self.changes.len()
            invariant
                i <= self.changes.len(),
                text@ == source,
                bytes == encode_utf8(source),
                edits == edits_of(self.changes@),
                forall|k: int|
                    0 <= k < edits.len() ==> is_insertion_point(
                        source,
                        #[trigger] edits[k].offset,
                    ),
                is_char_boundary(bytes, pointer as int),
                buf@ + patched(source, edits.subrange(i as int, edits.len() as int), pointer as int)
                    == patched(source, edits, 0),
            decreases self.changes.len() - i,
        {
            let ghost pending = edits.subrange(i as int, edits.len() as int);
            let ghost before = buf@;
            let offset = self.changes[i].0;
            assert(edits[i as int].offset == offset);
            assert(pending[0] == edits[i as int]);
            assert(pending.drop_first() =~= edits.subrange(i as int + 1, edits.len() as int));
            if offset > pointer {
                proof {
                    encode_utf8_valid_utf8(source);
                    lemma_boundary_in_suffix(bytes, pointer as int, offset as int);
                }
                let (_, tail) = text.split_at(pointer);
                let (head, _) = tail.split_at(offset - pointer);
                assert(head.spec_bytes() =~= bytes.subrange(pointer as int, offset as int));
                proof {
                    encode_utf8_decode_utf8(head@);
                }
                assert(head@ == slice_text(source, pointer as int, offset as int));
                buf.append(head);
            }
            buf.append(self.changes[i].1.as_str());
            assert(buf@ + patched(source, pending.drop_first(), offset as int) =~= before
                + patched(source, pending, pointer as int));
            pointer = offset;
            i += 1;
        }
        proof {
            encode_utf8_valid_utf8(source);
            reveal_with_fuel(is_char_boundary, 2);
        }
        let (_, tail) = text.split_at(pointer);
        proof {
            encode_utf8_decode_utf8(tail@);
        }
        assert(tail@ == slice_text(source, pointer as int, bytes.len() as int));
        buf.append(tail);
        buf
    }
}

} // verus!
