use vstd::prelude::*;
use crate::model::{Timeline, TimelineBlock};

verus! {

/// The blocks after the form is confirmed: the block being edited is
/// replaced, or the new block is appended when none is being edited.
pub open spec fn committed(
    blocks: Seq<TimelineBlock>,
    editing_index: Option<usize>,
    block: TimelineBlock,
) -> Seq<TimelineBlock> {
    match editing_index {
        Some(i) => blocks.update(i as int, block),
        None => blocks.push(block),
    }
}

/// Which block is being edited after block `index` is deleted: none if it
/// was that block; the same block otherwise, one place earlier when it came
/// after the deleted one.
pub open spec fn editing_after_delete(editing_index: Option<usize>, index: usize) -> Option<usize> {
    match editing_index {
        Some(j) => if j == index {
            None
        } else if j > index {
            Some((j - 1) as usize)
        } else {
            Some(j)
        },
        None => None,
    }
}

/// The project being edited: the timeline and, while the form holds a copy
/// of one of its blocks, the index of that block.
pub struct Editor {
    pub timeline: Timeline,
    pub editing_index: Option<usize>,
}

impl Editor {
    /// A project showing `timeline`, with nothing being edited.
    pub fn new(timeline: Timeline) -> (e: Editor)
        ensures
            e.timeline == timeline,
            e.editing_index.is_none(),
    {
        Editor { timeline, editing_index: None }
    }

    /// Starts editing block `index`; the block itself is only changed when
    /// the edit is confirmed.
    pub fn start_edit(&mut self, index: usize)
        requires
            index < old(self).timeline.blocks@.len(),
        ensures
            final(self).timeline == old(self).timeline,
            final(self).editing_index == Some(index),
    {
        self.editing_index = Some(index);
    }

    /// Stops editing without changing any block.
    pub fn cancel_edit(&mut self)
        ensures
            final(self).timeline == old(self).timeline,
            final(self).editing_index.is_none(),
    {
        self.editing_index = None;
    }

    /// Deletes block `index`; the edit is cancelled when it was that block
    /// that was being edited, and then `true` is returned; otherwise the edit
    /// keeps following the same block.
    pub fn delete_block(&mut self, index: usize) -> (cancelled: bool)
        requires
            index < old(self).timeline.blocks@.len(),
        ensures
            final(self).timeline.blocks@ == old(self).timeline.blocks@.remove(index as int),
            final(self).timeline.start_year == old(self).timeline.start_year,
            final(self).timeline.end_year == old(self).timeline.end_year,
            final(self).editing_index == editing_after_delete(old(self).editing_index, index),
            cancelled == (old(self).editing_index == Some(index)),
            old(self).editing_index == Some(index) ==> final(self).editing_index is None,
            old(self).editing_index is None ==> final(self).editing_index is None,
            match old(self).editing_index {
                Some(j) => j != index && j < old(self).timeline.blocks@.len() ==> match final(self).editing_index {
                    Some(k) => k < final(self).timeline.blocks@.len()
                        && final(self).timeline.blocks@[k as int] == old(self).timeline.blocks@[j as int],
                    None => false,
                },
                None => true,
            },
    {
        self.timeline.blocks.remove(index);
        match self.editing_index {
            Some(i) => {
                if i == index {
                    self.cancel_edit();
                    true
                } else {
                    if i > index {
                        self.editing_index = Some(i - 1);
                    }
                    false
                }
            },
            None => false,
        }
    }

    /// Confirms the form: `block` replaces the block being edited, or is
    /// appended when none is; then nothing is being edited.
    pub fn commit(&mut self, block: TimelineBlock)
        requires
            old(self).editing_index matches Some(i) ==> i < old(self).timeline.blocks@.len(),
        ensures
            final(self).timeline.blocks@ == committed(
                old(self).timeline.blocks@,
                old(self).editing_index,
                block,
            ),
            final(self).timeline.start_year == old(self).timeline.start_year,
            final(self).timeline.end_year == old(self).timeline.end_year,
            final(self).editing_index.is_none(),
            match old(self).editing_index {
                Some(i) => {
                    &&& final(self).timeline.blocks@.len() == old(self).timeline.blocks@.len()
                    &&& final(self).timeline.blocks@[i as int] == block
                    &&& forall|j: int|
                        0 <= j < old(self).timeline.blocks@.len() && j != i ==> #[trigger] final(self).timeline.blocks@[j] == old(self).timeline.blocks@[j]
                },
                None => {
                    &&& final(self).timeline.blocks@.len() == old(self).timeline.blocks@.len() + 1
                    &&& final(self).timeline.blocks@.last() == block
                    &&& forall|j: int|
                        0 <= j < old(self).timeline.blocks@.len() ==> #[trigger] final(self).timeline.blocks@[j] == old(self).timeline.blocks@[j]
                },
            },
    {
        match self.editing_index {
            Some(i) => {
                self.timeline.blocks.set(i, block);
            },
            None => {
                self.timeline.blocks.push(block);
            },
        }
        self.cancel_edit();
    }

    /// Replaces the timeline by one that was opened, cancelling any edit.
    pub fn open(&mut self, timeline: Timeline)
        ensures
            final(self).timeline == timeline,
            final(self).editing_index.is_none(),
    {
        self.timeline = timeline;
        self.cancel_edit();
    }
}

/// Deleting the block that is being edited leaves nothing being edited,
/// and deleting with nothing being edited starts no edit.
pub proof fn delete_of_edited_block_cancels(index: usize)
    ensures
        editing_after_delete(Some(index), index) is None,
        editing_after_delete(None, index) is None,
{
}

/// Deleting a block keeps the edit on the block it was on: when a block is
/// being edited and survives the deletion, the new index names the same
/// block as before, so the edit stays within the list.
pub proof fn delete_keeps_the_edited_block(blocks: Seq<TimelineBlock>, j: usize, index: usize)
    requires
        j < blocks.len(),
        index < blocks.len(),
        j != index,
    ensures
        editing_after_delete(Some(j), index) matches Some(k) && k < blocks.remove(index as int).len()
            && blocks.remove(index as int)[k as int] == blocks[j as int],
{
}

/// Confirming an edit of block `i` changes that block only: the list keeps
/// its length, block `i` becomes the confirmed block and every other block
/// stays as it was.
pub proof fn commit_replaces_only_the_edited_block(
    blocks: Seq<TimelineBlock>,
    i: usize,
    block: TimelineBlock,
)
    requires
        i < blocks.len(),
    ensures
        committed(blocks, Some(i), block).len() == blocks.len(),
        committed(blocks, Some(i), block)[i as int] == block,
        forall|j: int|
            0 <= j < blocks.len() && j != i ==> #[trigger] committed(blocks, Some(i), block)[j]
                == blocks[j],
{
}

/// Confirming the form with nothing being edited adds the block at the end
/// and keeps all others.
pub proof fn commit_without_edit_appends(blocks: Seq<TimelineBlock>, block: TimelineBlock)
    ensures
        committed(blocks, None, block).len() == blocks.len() + 1,
        committed(blocks, None, block).last() == block,
        committed(blocks, None, block).take(blocks.len() as int) == blocks,
{
    assert(committed(blocks, None, block).take(blocks.len() as int) =~= blocks);
}

/// Whether `c` has the Unicode `White_Space` property: tab, line feed,
/// vertical tab, form feed, carriage return, space, next line, no-break
/// space, ogham space mark, the spaces from en quad to hair space, line
/// separator, paragraph separator, narrow no-break space, medium
/// mathematical space and ideographic space.
pub open spec fn is_whitespace_char(c: char) -> bool {
    let u = c as u32;
    ||| 0x09 <= u <= 0x0D
    ||| u == 0x20
    ||| u == 0x85
    ||| u == 0xA0
    ||| u == 0x1680
    ||| 0x2000 <= u <= 0x200A
    ||| u == 0x2028
    ||| u == 0x2029
    ||| u == 0x202F
    ||| u == 0x205F
    ||| u == 0x3000
}

/// Whether `c` has the Unicode `White_Space` property, as
/// `char::is_whitespace` tells.
pub fn char_is_whitespace(c: char) -> (r: bool)
    ensures
        r == is_whitespace_char(c),
{
    let u = c as u32;
    (0x09 <= u && u <= 0x0D) || u == 0x20 || u == 0x85 || u == 0xA0 || u == 0x1680 || (0x2000 <= u
        && u <= 0x200A) || u == 0x2028 || u == 0x2029 || u == 0x202F || u == 0x205F || u == 0x3000
}

/// Whether `text` is empty once whitespace is trimmed from both ends, that
/// is, whether every character of it is whitespace.
pub fn is_blank(text: &str) -> (r: bool)
    ensures
        r == forall|i: int| 0 <= i < text@.len() ==> #[trigger] is_whitespace_char(text@[i]),
{
    let n = text.unicode_len();
    let mut i: usize = 0;
    while i < n
        invariant
            n == text@.len(),
            i <= n,
            forall|k: int| 0 <= k < i ==> #[trigger] is_whitespace_char(text@[k]),
        decreases n - i,
    {
        if !char_is_whitespace(text.get_char(i)) {
            return false;
        }
        i = i + 1;
    }
    true
}

/// The subtitle that the form's subtitle text gives a block: none when the
/// text is blank, otherwise the text as entered.
pub fn subtitle_from_form(text: &String) -> (s: Option<String>)
    ensures
        s matches Some(t) ==> t@ == text@,
        s is None <==> forall|i: int| 0 <= i < text@.len() ==> #[trigger] is_whitespace_char(text@[i]),
{
    if is_blank(text.as_str()) {
        None
    } else {
        Some(text.clone())
    }
}

} // verus!
