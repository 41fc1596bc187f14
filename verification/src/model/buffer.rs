//! Buffer-level rules: the crate-wide word-char rule, the per-buffer edit
//! mode, and the bounded undo history with its saved-state identities.

use crate::text::{byte_len, byte_pos};
use vstd::prelude::*;

verus! {

/// Whether a char beyond ASCII has the Unicode `Alphabetic` or `Numeric`
/// property.
pub uninterp spec fn unicode_alphanumeric_beyond_ascii(c: char) -> bool;

/// Whether `c` has the Unicode `Alphabetic` or `Numeric` property: for
/// ASCII exactly the letters and digits.
pub open spec fn unicode_alphanumeric(c: char) -> bool {
    if (c as u32) < 0x80 {
        '0' <= c <= '9' || 'a' <= c <= 'z' || 'A' <= c <= 'Z'
    } else {
        unicode_alphanumeric_beyond_ascii(c)
    }
}

/// `char::is_alphanumeric`: for ASCII exactly the letters and digits.
#[verifier::external_body]
fn char_is_alphanumeric(c: char) -> (b: bool)
    ensures
        b == unicode_alphanumeric(c),
        (c as u32) >= 0x80 ==> b == unicode_alphanumeric_beyond_ascii(c),
{
    c.is_alphanumeric()
}

/// The word-constituent rule: a Unicode alphanumeric or `_`; every other
/// char (punctuation, whitespace, newlines) is a non-word char.
pub open spec fn word_char(c: char) -> bool {
    unicode_alphanumeric(c) || c == '_'
}

/// Whether `c` is a word constituent (for word motion, symbol extraction
/// and word-boundary search).
pub fn is_word_char(c: char) -> (b: bool)
    ensures
        b == word_char(c),
{
    c == '_' || char_is_alphanumeric(c)
}

/// How a buffer's text may be modified: `Annotation` (the default, coarse
/// editing) or `Accurate` (the cursor-accurate opt-in). `Accurate` implies
/// the buffer is editable.
#[derive(Clone, Copy, Debug, PartialEq, Eq)]
pub enum BufferMode {
    Annotation,
    Accurate,
}

impl Default for BufferMode {
    fn default() -> (m: Self)
        ensures
            m == BufferMode::Annotation,
    {
        BufferMode::Annotation
    }
}

/// One recorded edit kept as its inverse: `range` is the char range the
/// forward edit's text occupies after the edit, `removed` the text to
/// delete to undo and `inserted` the text to put back. `id` is unique and
/// grows monotonically over a buffer's lifetime.
#[derive(Debug, PartialEq, Eq)]
pub struct UndoStep {
    pub id: usize,
    pub range: std::ops::Range<usize>,
    pub removed: String,
    pub inserted: String,
}

impl Clone for UndoStep {
    fn clone(&self) -> (c: Self)
        ensures
            c == *self,
    {
        UndoStep {
            id: self.id,
            range: std::ops::Range { start: self.range.start, end: self.range.end },
            removed: self.removed.clone(),
            inserted: self.inserted.clone(),
        }
    }
}

/// A bounded LIFO of inverse edits, most recent last. Over the cap the
/// oldest step is dropped, so undo stops earlier.
#[derive(Clone, Debug)]
pub struct UndoStack {
    steps: Vec<UndoStep>,
}

/// The history cap of an [`UndoStack`].
pub open spec fn undo_cap() -> nat {
    100
}

/// The steps after recording `step` on `steps`: appended, and the oldest
/// dropped when that exceeds the cap.
pub open spec fn pushed(steps: Seq<UndoStep>, step: UndoStep) -> Seq<UndoStep> {
    if steps.len() + 1 > undo_cap() {
        steps.push(step).drop_first()
    } else {
        steps.push(step)
    }
}

/// Recording a step on a history within the cap keeps it within the
/// cap: one more step until the cap is reached, then the same count.
pub proof fn lemma_pushed_within_cap(steps: Seq<UndoStep>, step: UndoStep)
    requires
        steps.len() <= undo_cap(),
    ensures
        pushed(steps, step).len() == (if steps.len() < undo_cap() {
            steps.len() + 1
        } else {
            undo_cap()
        }),
        pushed(steps, step).len() <= undo_cap(),
        pushed(steps, step).last() == step,
{
}

/// The identity of the top-of-history position: the most recent step's
/// id, or `0` for an empty history.
pub open spec fn spec_position_id(steps: Seq<UndoStep>) -> usize {
    if steps.len() == 0 {
        0
    } else {
        steps.last().id
    }
}

impl View for UndoStack {
    type V = Seq<UndoStep>;

    closed spec fn view(&self) -> Seq<UndoStep> {
        self.steps@
    }
}

impl Default for UndoStack {
    fn default() -> (s: Self)
        ensures
            s@ == Seq::<UndoStep>::empty(),
    {
        UndoStack { steps: Vec::new() }
    }
}

impl UndoStack {
    /// The history cap (entries), shared by the undo and redo stacks.
    pub const MAX_ENTRIES: usize = 100;

    /// The stack holds at most [`UndoStack::MAX_ENTRIES`] steps.
    pub open spec fn wf(&self) -> bool {
        self@.len() <= undo_cap()
    }

    /// An empty history.
    pub fn new() -> (s: Self)
        ensures
            s@ == Seq::<UndoStep>::empty(),
            s.wf(),
    {
        UndoStack { steps: Vec::new() }
    }

    /// Record an inverse edit as the most recent step; over the cap the
    /// oldest step is dropped.
    pub fn push(&mut self, step: UndoStep)
        requires
            old(self).wf(),
        ensures
            final(self)@ == pushed(old(self)@, step),
            final(self).wf(),
    {
        self.steps.push(step);
        if self.steps.len() > Self::MAX_ENTRIES {
            self.steps.remove(0);
        }
    }

    /// Remove and return the most recent step (`None` when empty).
    pub fn pop(&mut self) -> (r: Option<UndoStep>)
        ensures
            old(self)@.len() == 0 ==> r is None && final(self)@ == old(self)@,
            old(self)@.len() > 0 ==> r == Some(old(self)@.last()) && final(self)@
                == old(self)@.drop_last(),
            old(self).wf() ==> final(self).wf(),
    {
        self.steps.pop()
    }

    /// The most recent step without removing it.
    pub fn last(&self) -> (r: Option<&UndoStep>)
        ensures
            self@.len() == 0 ==> r is None,
            self@.len() > 0 ==> r == Some(&self@.last()),
    {
        let n = self.steps.len();
        if n == 0 {
            None
        } else {
            Some(&self.steps[n - 1])
        }
    }

    /// Whether the stack holds no steps.
    pub fn is_empty(&self) -> (b: bool)
        ensures
            b == (self@.len() == 0),
    {
        self.steps.len() == 0
    }

    /// The identity of the top-of-history position: the most recent step's
    /// id, or `0` when the history is empty.
    pub fn position_id(&self) -> (id: usize)
        ensures
            id == spec_position_id(self@),
    {
        let n = self.steps.len();
        if n == 0 {
            0
        } else {
            self.steps[n - 1].id
        }
    }

    /// The number of recorded steps.
    pub fn len(&self) -> (n: usize)
        ensures
            n == self@.len(),
    {
        self.steps.len()
    }
}

/// Recording a step and undoing it gives the step back and restores the
/// history, as long as the cap dropped nothing.
pub proof fn lemma_push_then_pop(steps: Seq<UndoStep>, step: UndoStep)
    requires
        steps.len() < undo_cap(),
    ensures
        pushed(steps, step).last() == step,
        pushed(steps, step).drop_last() == steps,
        spec_position_id(pushed(steps, step)) == step.id,
{
    assert(steps.push(step).drop_last() =~= steps);
}

/// A recorded step is always the new top of the history, whatever the cap
/// dropped, and the history never exceeds the cap.
pub proof fn lemma_push_top(steps: Seq<UndoStep>, step: UndoStep)
    requires
        steps.len() <= undo_cap(),
    ensures
        pushed(steps, step).len() > 0,
        pushed(steps, step).last() == step,
        pushed(steps, step).len() <= undo_cap(),
        spec_position_id(pushed(steps, step)) == step.id,
{
}

// ── text buffers ──────────────────────────────────────────────────────

/// A `ropey` rope (the buffer text).
#[verifier::external_type_specification]
#[verifier::external_body]
pub struct ExRope(ropey::Rope);

/// A file modification time.
#[verifier::external_type_specification]
#[verifier::external_body]
pub struct ExSystemTime(std::time::SystemTime);

/// The text a rope holds.
pub uninterp spec fn rope_chars(r: ropey::Rope) -> Seq<char>;

/// Whether `c` is a line break on its own: LF, VT, FF, CR, NEL, LINE
/// SEPARATOR or PARAGRAPH SEPARATOR (a CR followed by an LF forms a single
/// break with it).
pub open spec fn break_char(c: char) -> bool {
    c == '\n' || c == '\u{b}' || c == '\u{c}' || c == '\r' || c == '\u{85}' || c == '\u{2028}'
        || c == '\u{2029}'
}

/// Whether a line starts at char position `k` of `s` (`0 < k <= len`): the
/// char before it ends a line break (a CR followed by an LF ends one only
/// together with that LF).
pub open spec fn starts_line(s: Seq<char>, k: int) -> bool {
    &&& 0 < k <= s.len()
    &&& break_char(s[k - 1])
    &&& !(s[k - 1] == '\r' && k < s.len() && s[k] == '\n')
}

/// The line index of char position `k`: the line breaks that end at or
/// before it.
pub open spec fn line_of(s: Seq<char>, k: int) -> nat
    decreases k,
{
    if k <= 0 {
        0
    } else {
        line_of(s, k - 1) + if starts_line(s, k) {
            1nat
        } else {
            0nat
        }
    }
}

/// The number of lines of `s`: one more than its line breaks.
pub open spec fn line_count(s: Seq<char>) -> nat {
    line_of(s, s.len() as int) + 1
}

/// The first char position from `k` on whose line index is at least `l`
/// (the length when there is none).
pub open spec fn line_start_from(s: Seq<char>, l: int, k: int) -> int
    decreases s.len() - k,
{
    if k >= s.len() {
        s.len() as int
    } else if line_of(s, k) >= l {
        k
    } else {
        line_start_from(s, l, k + 1)
    }
}

/// The char position where line `l` starts (the length for the line past
/// the last one).
pub open spec fn line_start(s: Seq<char>, l: int) -> int {
    line_start_from(s, l, 0)
}

/// The chars of line `l`, its line break included.
pub open spec fn line_chars(s: Seq<char>, l: int) -> Seq<char> {
    s.subrange(line_start(s, l), line_start(s, l + 1))
}

/// The char containing byte `b`, scanning from char `k`: the last char
/// position whose byte offset is at most `b`.
pub open spec fn char_at_byte_from(s: Seq<char>, b: int, k: int) -> int
    decreases s.len() - k,
{
    if k >= s.len() {
        s.len() as int
    } else if byte_pos(s, k + 1) <= b {
        char_at_byte_from(s, b, k + 1)
    } else {
        k
    }
}

/// The index of the char that byte `b` belongs to (the char count for the
/// end of the text).
pub open spec fn char_at_byte(s: Seq<char>, b: int) -> int {
    char_at_byte_from(s, b, 0)
}

/// `Rope::clone`: a rope holding the same text.
pub assume_specification[ <ropey::Rope as Clone>::clone ](r: &ropey::Rope) -> (res: ropey::Rope)
    ensures
        rope_chars(res) == rope_chars(*r),
;

/// `SystemTime::clone` (a `Copy` type): the same time.
pub assume_specification[ <std::time::SystemTime as Clone>::clone ](t: &std::time::SystemTime) -> (res:
    std::time::SystemTime)
    ensures
        res == *t,
;

/// `Rope::from_str`: a rope holding `text`.
#[verifier::external_body]
fn rope_from_str(text: &str) -> (r: ropey::Rope)
    ensures
        rope_chars(r) == text@,
{
    ropey::Rope::from_str(text)
}

/// `Rope::len_lines`: one more than the number of line breaks.
#[verifier::external_body]
fn rope_len_lines(r: &ropey::Rope) -> (n: usize)
    ensures
        n == line_count(rope_chars(*r)),
{
    r.len_lines()
}

/// `Rope::len_bytes`: the UTF-8 length of the text.
#[verifier::external_body]
fn rope_len_bytes(r: &ropey::Rope) -> (n: usize)
    ensures
        n == byte_len(rope_chars(*r)),
{
    r.len_bytes()
}

/// `Rope::get_line`, as an owned string: line `l` with its line break, or
/// `None` past the last line.
#[verifier::external_body]
fn rope_get_line(r: &ropey::Rope, l: usize) -> (o: Option<String>)
    ensures
        match o {
            Some(t) => l < line_count(rope_chars(*r)) && t@ == line_chars(rope_chars(*r), l as int),
            None => l >= line_count(rope_chars(*r)),
        },
{
    r.get_line(l).map(|ls| String::from(ls))
}

/// `Rope::try_line_to_byte`: the byte offset where line `l` starts (the
/// byte length for the line past the last one); `None` beyond that.
#[verifier::external_body]
fn rope_try_line_to_byte(r: &ropey::Rope, l: usize) -> (o: Option<usize>)
    ensures
        l <= line_count(rope_chars(*r)) ==> o == Some(
            byte_pos(rope_chars(*r), line_start(rope_chars(*r), l as int)) as usize,
        ),
        l > line_count(rope_chars(*r)) ==> o is None,
{
    r.try_line_to_byte(l).ok()
}

/// `Rope::try_line_to_char`: the char position where line `l` starts (the
/// char count for the line past the last one); `None` beyond that.
#[verifier::external_body]
fn rope_try_line_to_char(r: &ropey::Rope, l: usize) -> (o: Option<usize>)
    ensures
        l <= line_count(rope_chars(*r)) ==> o == Some(line_start(rope_chars(*r), l as int) as usize),
        l > line_count(rope_chars(*r)) ==> o is None,
{
    r.try_line_to_char(l).ok()
}

/// `Rope::try_byte_to_line`: the line of the char that byte `b` belongs
/// to (the last line for the end of the text); `None` beyond the end.
#[verifier::external_body]
fn rope_try_byte_to_line(r: &ropey::Rope, b: usize) -> (o: Option<usize>)
    ensures
        b <= byte_len(rope_chars(*r)) ==> o == Some(
            line_of(rope_chars(*r), char_at_byte(rope_chars(*r), b as int)) as usize,
        ),
        b > byte_len(rope_chars(*r)) ==> o is None,
{
    r.try_byte_to_line(b).ok()
}

/// `Rope::try_byte_to_char`: the index of the char that byte `b` belongs
/// to (the char count for the end of the text); `None` beyond the end.
#[verifier::external_body]
fn rope_try_byte_to_char(r: &ropey::Rope, b: usize) -> (o: Option<usize>)
    ensures
        b <= byte_len(rope_chars(*r)) ==> o == Some(char_at_byte(rope_chars(*r), b as int) as usize),
        b > byte_len(rope_chars(*r)) ==> o is None,
{
    r.try_byte_to_char(b).ok()
}

/// `Rope::line_to_byte` (panics past the line after the last one).
#[verifier::external_body]
fn rope_line_to_byte(r: &ropey::Rope, l: usize) -> (n: usize)
    requires
        l <= line_count(rope_chars(*r)),
    ensures
        n == byte_pos(rope_chars(*r), line_start(rope_chars(*r), l as int)),
{
    r.line_to_byte(l)
}

/// `Rope::byte_to_line` (panics past the end of the text).
#[verifier::external_body]
fn rope_byte_to_line(r: &ropey::Rope, b: usize) -> (n: usize)
    requires
        b <= byte_len(rope_chars(*r)),
    ensures
        n == line_of(rope_chars(*r), char_at_byte(rope_chars(*r), b as int)),
{
    r.byte_to_line(b)
}

/// The text of a rope as a string (`String::from(&Rope)`).
#[verifier::external_body]
fn rope_to_string(r: &ropey::Rope) -> (t: String)
    ensures
        t@ == rope_chars(*r),
{
    String::from(r)
}

/// `SystemTime::UNIX_EPOCH`.
#[verifier::external_body]
pub(crate) fn unix_epoch() -> std::time::SystemTime {
    std::time::SystemTime::UNIX_EPOCH
}

/// Files larger than this (bytes) skip highlighting.
pub const BIG_FILE_THRESHOLD: usize = 10485760;

/// The display name of the scratch buffer.
pub const SCRATCH_NAME: &'static str = "*scratch*";

/// `s` without one trailing `\r\n` or, failing that, one `\n`.
pub open spec fn strip_eol(s: Seq<char>) -> Seq<char> {
    if s.len() >= 2 && s[s.len() - 2] == '\r' && s.last() == '\n' {
        s.take(s.len() - 2)
    } else if s.len() >= 1 && s.last() == '\n' {
        s.drop_last()
    } else {
        s
    }
}

/// One open buffer: `path` is `None` for the scratch buffer; the text is
/// rope-backed.
#[derive(Clone, Debug)]
pub struct Buffer {
    pub path: Option<String>,
    pub rope: ropey::Rope,
    /// File modification time at load (`UNIX_EPOCH` when unknown).
    pub mtime: std::time::SystemTime,
    /// Whether text may be modified at all.
    pub editable: bool,
    /// How text is modified (`Accurate` implies `editable`).
    pub mode: BufferMode,
    /// Whether this buffer is the per-project notes document.
    pub is_notes: bool,
    /// The top-of-history position at the last save/load (`Some(0)` for an
    /// empty history); `None` when there is no evidence of a saved state.
    pub saved_marker: Option<usize>,
    /// The id the next recorded undo step takes.
    pub undo_seq: usize,
    /// A disk change arrived while the buffer was locally owned.
    pub changed_on_disk: bool,
    /// The mark position (byte offset), if set.
    pub mark: Option<usize>,
    /// Inverse edits, most recent last.
    pub undo: UndoStack,
    /// Inverses of undone edits, most recent last.
    pub redo: UndoStack,
}

/// Whether the buffer cannot prove it matches the last saved/loaded state.
pub open spec fn spec_locally_modified(b: Buffer) -> bool {
    match b.saved_marker {
        None => true,
        Some(m) => spec_position_id(b.undo@) != m,
    }
}

/// The modified state follows the history position: right after a save
/// or load (the marker is the current position) the buffer is clean;
/// recording any edit step whose id is not that position makes it
/// modified; undoing the step again (when the cap dropped nothing) makes
/// it clean; without a saved state it is always modified. `after_edit`
/// and `after_undo` are `b` after the edit and after the undo.
pub proof fn lemma_modified_follows_edits(b: Buffer, step: UndoStep, after_edit: Buffer, after_undo: Buffer)
    requires
        b.undo.wf(),
        step.id != spec_position_id(b.undo@),
        after_edit.saved_marker == b.saved_marker,
        after_edit.undo@ == pushed(b.undo@, step),
        after_undo.saved_marker == b.saved_marker,
        after_undo.undo@ == after_edit.undo@.drop_last(),
    ensures
        b.saved_marker == Some(spec_position_id(b.undo@)) ==> !spec_locally_modified(b),
        b.saved_marker == Some(spec_position_id(b.undo@)) ==> spec_locally_modified(after_edit),
        b.saved_marker == Some(spec_position_id(b.undo@)) && b.undo@.len() < undo_cap()
            ==> !spec_locally_modified(after_undo),
        b.saved_marker is None ==> spec_locally_modified(b) && spec_locally_modified(after_edit)
            && spec_locally_modified(after_undo),
        b.saved_marker == Some(0usize) && b.undo@.len() == 0 ==> !spec_locally_modified(b)
            && spec_locally_modified(after_edit),
{
    lemma_push_top(b.undo@, step);
    if b.undo@.len() < undo_cap() {
        lemma_push_then_pop(b.undo@, step);
    }
}

/// A fresh buffer's state: the given path, text, time and flag, the
/// default mode, clean, with empty histories.
pub open spec fn is_fresh(
    b: Buffer,
    path: Option<String>,
    rope: ropey::Rope,
    mtime: std::time::SystemTime,
    editable: bool,
) -> bool {
    &&& b.path == path
    &&& b.rope == rope
    &&& b.mtime == mtime
    &&& b.editable == editable
    &&& b.mode == BufferMode::Annotation
    &&& !b.is_notes
    &&& b.saved_marker == Some(0usize)
    &&& b.undo_seq == 0
    &&& !b.changed_on_disk
    &&& b.mark is None
    &&& b.undo@.len() == 0
    &&& b.redo@.len() == 0
    &&& b.undo.wf()
    &&& b.redo.wf()
}

proof fn lemma_line_start_le(s: Seq<char>, l: int, j: int, k: int)
    requires
        0 <= j <= k <= s.len(),
        line_of(s, k) >= l,
    ensures
        line_start_from(s, l, j) <= k,
    decreases k - j,
{
    if j < k && j < s.len() && line_of(s, j) < l {
        lemma_line_start_le(s, l, j + 1, k);
    }
}

proof fn lemma_line_start_ge(s: Seq<char>, l: int, j: int)
    requires
        0 <= j,
    ensures
        line_start_from(s, l, j) >= j || line_start_from(s, l, j) == s.len(),
        line_start_from(s, l, j) >= 0,
    decreases s.len() - j,
{
    if j < s.len() && line_of(s, j) < l {
        lemma_line_start_ge(s, l, j + 1);
    }
}

proof fn lemma_char_at_byte_bound(s: Seq<char>, b: int, k: int)
    requires
        0 <= k <= s.len(),
    ensures
        k <= char_at_byte_from(s, b, k) <= s.len(),
    decreases s.len() - k,
{
    if k < s.len() && byte_pos(s, k + 1) <= b {
        lemma_char_at_byte_bound(s, b, k + 1);
    }
}

impl Buffer {
    /// A buffer over `rope`: default mode, not notes, clean (the saved
    /// marker is the empty-history position), no mark, empty histories.
    pub fn new(path: Option<String>, rope: ropey::Rope, mtime: std::time::SystemTime, editable: bool) -> (b: Self)
        ensures
            is_fresh(b, path, rope, mtime, editable),
    {
        Buffer {
            path,
            rope,
            mtime,
            editable,
            mode: BufferMode::Annotation,
            is_notes: false,
            saved_marker: Some(0),
            undo_seq: 0,
            changed_on_disk: false,
            mark: None,
            undo: UndoStack::new(),
            redo: UndoStack::new(),
        }
    }

    /// Whether the buffer is never auto-clobbered by a disk change: it has
    /// no path (scratch), it has unsaved local edits, or it is a file
    /// buffer in edit mode.
    pub fn is_locally_owned(&self) -> (b: bool)
        ensures
            b == (self.path is None || spec_locally_modified(*self) || (self.editable
                && self.path is Some)),
    {
        self.path.is_none() || self.locally_modified() || (self.editable && self.path.is_some())
    }

    /// Whether the current position cannot be proven to be the last
    /// saved/loaded one: no marker, or the top step's id differs from it.
    pub fn locally_modified(&self) -> (b: bool)
        ensures
            b == spec_locally_modified(*self),
    {
        match self.saved_marker {
            None => true,
            Some(marker) => self.undo.position_id() != marker,
        }
    }

    /// Record the current top-of-history position as the saved state.
    pub fn mark_saved(&mut self)
        ensures
            *final(self) == (Buffer { saved_marker: Some(spec_position_id(old(self).undo@)), ..*old(self) }),
    {
        self.saved_marker = Some(self.undo.position_id());
    }

    /// Re-establish the saved state after the content came from disk: the
    /// empty-history position.
    pub fn mark_fresh(&mut self)
        ensures
            *final(self) == (Buffer { saved_marker: Some(0usize), ..*old(self) }),
    {
        self.saved_marker = Some(0);
    }

    /// The number of lines (one more than the line breaks).
    pub fn line_count(&self) -> (n: usize)
        ensures
            n == line_count(rope_chars(self.rope)),
    {
        rope_len_lines(&self.rope)
    }

    /// The number of bytes.
    pub fn byte_count(&self) -> (n: usize)
        ensures
            n == byte_len(rope_chars(self.rope)),
    {
        rope_len_bytes(&self.rope)
    }

    /// Whether the text is large enough to skip highlighting.
    pub fn is_big(&self) -> (b: bool)
        ensures
            b == (byte_len(rope_chars(self.rope)) > BIG_FILE_THRESHOLD),
    {
        rope_len_bytes(&self.rope) > BIG_FILE_THRESHOLD
    }

    /// The text of line `line_idx` without its trailing `\r\n` or `\n`;
    /// `None` past the last line.
    pub fn line_text(&self, line_idx: usize) -> (r: Option<String>)
        ensures
            match r {
                Some(t) => line_idx < line_count(rope_chars(self.rope)) && t@ == strip_eol(
                    line_chars(rope_chars(self.rope), line_idx as int),
                ),
                None => line_idx >= line_count(rope_chars(self.rope)),
            },
    {
        let line = match rope_get_line(&self.rope, line_idx) {
            Some(l) => l,
            None => {
                return None;
            },
        };
        let cs = crate::text::chars_of(line.as_str());
        let n = cs.len();
        let keep = if n >= 2 && cs[n - 2] == '\r' && cs[n - 1] == '\n' {
            n - 2
        } else if n >= 1 && cs[n - 1] == '\n' {
            n - 1
        } else {
            n
        };
        let t = crate::text::slice_vec(cs.as_slice(), 0, keep);
        proof {
            let v = line@;
            if n >= 2 && v[n - 2] == '\r' && v.last() == '\n' {
                assert(t@ =~= v.take(n - 2));
            } else if n >= 1 && v.last() == '\n' {
                assert(t@ =~= v.drop_last());
            } else {
                assert(t@ =~= v);
            }
        }
        Some(crate::text::string_of(t.as_slice()))
    }

    /// The byte offset where line `line_idx` starts (the byte length for
    /// the line past the last one).
    pub fn line_to_byte(&self, line_idx: usize) -> (n: usize)
        requires
            line_idx <= line_count(rope_chars(self.rope)),
        ensures
            n == byte_pos(rope_chars(self.rope), line_start(rope_chars(self.rope), line_idx as int)),
    {
        rope_line_to_byte(&self.rope, line_idx)
    }

    /// The line of the char that byte `byte_idx` belongs to (the last line
    /// for the end of the text).
    pub fn byte_to_line(&self, byte_idx: usize) -> (n: usize)
        requires
            byte_idx <= byte_len(rope_chars(self.rope)),
        ensures
            n == line_of(rope_chars(self.rope), char_at_byte(rope_chars(self.rope), byte_idx as int)),
    {
        rope_byte_to_line(&self.rope, byte_idx)
    }

    /// [`Buffer::line_to_byte`], `None` past the line after the last one.
    pub fn try_line_to_byte(&self, line_idx: usize) -> (o: Option<usize>)
        ensures
            line_idx <= line_count(rope_chars(self.rope)) ==> o == Some(
                byte_pos(rope_chars(self.rope), line_start(rope_chars(self.rope), line_idx as int))
                    as usize,
            ),
            line_idx > line_count(rope_chars(self.rope)) ==> o is None,
    {
        rope_try_line_to_byte(&self.rope, line_idx)
    }

    /// [`Buffer::byte_to_line`], `None` past the end of the text.
    pub fn try_byte_to_line(&self, byte_idx: usize) -> (o: Option<usize>)
        ensures
            byte_idx <= byte_len(rope_chars(self.rope)) ==> o == Some(
                line_of(rope_chars(self.rope), char_at_byte(rope_chars(self.rope), byte_idx as int))
                    as usize,
            ),
            byte_idx > byte_len(rope_chars(self.rope)) ==> o is None,
    {
        rope_try_byte_to_line(&self.rope, byte_idx)
    }

    /// The line and the char column (chars from the line's start) of the
    /// char that byte `byte_idx` belongs to; `None` past the end.
    pub fn try_byte_to_line_col(&self, byte_idx: usize) -> (o: Option<(usize, usize)>)
        ensures
            byte_idx <= byte_len(rope_chars(self.rope)) ==> {
                let s = rope_chars(self.rope);
                let k = char_at_byte(s, byte_idx as int);
                o == Some((line_of(s, k) as usize, (k - line_start(s, line_of(s, k) as int)) as usize))
            },
            byte_idx > byte_len(rope_chars(self.rope)) ==> o is None,
    {
        let line = match rope_try_byte_to_line(&self.rope, byte_idx) {
            Some(l) => l,
            None => {
                return None;
            },
        };
        let char_idx = match rope_try_byte_to_char(&self.rope, byte_idx) {
            Some(c) => c,
            None => {
                return None;
            },
        };
        let ghost s = rope_chars(self.rope);
        proof {
            lemma_char_at_byte_bound(s, byte_idx as int, 0);
            let k = char_at_byte(s, byte_idx as int);
            assert(s.take(0) =~= Seq::<char>::empty());
            lemma_char_at_byte_pos(s, byte_idx as int, 0);
            lemma_byte_pos_ge(s, k);
            lemma_line_of_bound(s, k);
            lemma_line_of_bound(s, s.len() as int);
            lemma_line_of_mono(s, k, s.len() as int);
            lemma_line_start_le(s, line_of(s, k) as int, 0, k);
            assert(byte_pos(s, k) <= byte_idx);
            assert(k <= byte_idx);
            assert(char_idx == k);
            assert(line == line_of(s, k));
            assert(line_start(s, line as int) <= k);
            assert(line <= line_count(s));
            lemma_line_start_ge(s, line as int, 0);
        }
        let start = match rope_try_line_to_char(&self.rope, line) {
            Some(c) => c,
            None => {
                return None;
            },
        };
        Some((line, char_idx - start))
    }

    /// The full text.
    pub fn text(&self) -> (t: String)
        ensures
            t@ == rope_chars(self.rope),
    {
        rope_to_string(&self.rope)
    }
}

proof fn lemma_char_at_byte_pos(s: Seq<char>, b: int, k: int)
    requires
        0 <= k <= s.len(),
        byte_pos(s, k) <= b,
    ensures
        byte_pos(s, char_at_byte_from(s, b, k)) <= b,
    decreases s.len() - k,
{
    if k < s.len() && byte_pos(s, k + 1) <= b {
        lemma_char_at_byte_pos(s, b, k + 1);
    }
}

proof fn lemma_byte_pos_ge(s: Seq<char>, k: int)
    requires
        0 <= k <= s.len(),
    ensures
        byte_pos(s, k) >= k,
    decreases k,
{
    if k > 0 {
        lemma_byte_pos_ge(s, k - 1);
        crate::text::lemma_byte_pos_step(s, k - 1);
    }
}

proof fn lemma_line_of_bound(s: Seq<char>, k: int)
    ensures
        line_of(s, k) <= if k > 0 { k } else { 0 },
    decreases k,
{
    if k > 0 {
        lemma_line_of_bound(s, k - 1);
    }
}

proof fn lemma_line_of_mono(s: Seq<char>, j: int, k: int)
    requires
        j <= k,
    ensures
        line_of(s, j) <= line_of(s, k),
    decreases k - j,
{
    if j < k {
        lemma_line_of_mono(s, j, k - 1);
    }
}

// ── the open-buffer table ─────────────────────────────────────────────

/// The keys of a list of entries.
pub open spec fn entry_keys(es: Seq<(String, Buffer)>) -> Seq<Seq<char>> {
    es.map_values(|e: (String, Buffer)| e.0@)
}

/// The views of a list of strings.
pub open spec fn key_views(v: Seq<String>) -> Seq<Seq<char>> {
    v.map_values(|s: String| s@)
}

/// The buffers held by a list of entries, by key (later entries win).
pub open spec fn buffers_of(es: Seq<(String, Buffer)>) -> Map<Seq<char>, Buffer>
    decreases es.len(),
{
    if es.len() == 0 {
        Map::empty()
    } else {
        buffers_of(es.drop_last()).insert(es.last().0@, es.last().1)
    }
}

/// `o` without `k`, in order.
pub open spec fn without_key(o: Seq<Seq<char>>, k: Seq<char>) -> Seq<Seq<char>>
    decreases o.len(),
{
    if o.len() == 0 {
        o
    } else if o.last() == k {
        without_key(o.drop_last(), k)
    } else {
        without_key(o.drop_last(), k).push(o.last())
    }
}

/// The MRU order after a visit of `k`: moved to the front when present.
pub open spec fn touched(o: Seq<Seq<char>>, k: Seq<char>) -> Seq<Seq<char>> {
    if o.contains(k) {
        seq![k] + without_key(o, k)
    } else {
        o
    }
}

/// The open-buffer set as plain values.
pub struct BufferTableView {
    pub buffers: Map<Seq<char>, Buffer>,
    pub order: Seq<Seq<char>>,
    pub current: Option<Seq<char>>,
}

/// The open buffers: keyed by `*scratch*` or the buffer's path, the keys
/// most-recently-used first, and the current buffer's key.
#[derive(Debug)]
pub struct BufferTable {
    by_key: Vec<(String, Buffer)>,
    order: Vec<String>,
    current: Option<String>,
}

impl View for BufferTable {
    type V = BufferTableView;

    closed spec fn view(&self) -> BufferTableView {
        BufferTableView {
            buffers: buffers_of(self.by_key@),
            order: key_views(self.order@),
            current: match self.current {
                Some(c) => Some(c@),
                None => None,
            },
        }
    }
}

/// The key of a buffer with `path`: the path itself, or the scratch name.
pub open spec fn spec_key_for(path: Option<String>) -> Seq<char> {
    match path {
        Some(p) => p@,
        None => "*scratch*"@,
    }
}

proof fn lemma_buffers_get(es: Seq<(String, Buffer)>, i: int)
    requires
        entry_keys(es).no_duplicates(),
        0 <= i < es.len(),
    ensures
        buffers_of(es).contains_key(es[i].0@),
        buffers_of(es)[es[i].0@] == es[i].1,
    decreases es.len(),
{
    if i < es.len() - 1 {
        let q = es.drop_last();
        assert(entry_keys(q) =~= entry_keys(es).drop_last());
        lemma_buffers_get(q, i);
        assert(entry_keys(es)[i] != entry_keys(es)[es.len() - 1]);
    }
}

proof fn lemma_buffers_dom(es: Seq<(String, Buffer)>)
    ensures
        forall|k: Seq<char>|
            #![trigger buffers_of(es).contains_key(k)]
            #![trigger entry_keys(es).contains(k)]
            buffers_of(es).contains_key(k) <==> entry_keys(es).contains(k),
    decreases es.len(),
{
    if es.len() > 0 {
        let q = es.drop_last();
        let n = es.len() - 1;
        lemma_buffers_dom(q);
        assert forall|k: Seq<char>| buffers_of(es).contains_key(k) implies entry_keys(es).contains(k) by {
            if k == es.last().0@ {
                assert(entry_keys(es)[n] == k);
            } else {
                assert(buffers_of(q).contains_key(k));
                assert(entry_keys(q).contains(k));
                let i = choose|i: int| 0 <= i < entry_keys(q).len() && entry_keys(q)[i] == k;
                assert(q[i] == es[i]);
                assert(entry_keys(es)[i] == k);
            }
        }
        assert forall|k: Seq<char>| entry_keys(es).contains(k) implies buffers_of(es).contains_key(k) by {
            let i = choose|i: int| 0 <= i < entry_keys(es).len() && entry_keys(es)[i] == k;
            if i < n {
                assert(q[i] == es[i]);
                assert(entry_keys(q)[i] == k);
                assert(entry_keys(q).contains(k));
            }
        }
    }
}

proof fn lemma_without_key(o: Seq<Seq<char>>, k: Seq<char>)
    ensures
        forall|x: Seq<char>|
            #![trigger without_key(o, k).contains(x)]
            without_key(o, k).contains(x) <==> (o.contains(x) && x != k),
        o.no_duplicates() ==> without_key(o, k).no_duplicates(),
        !o.contains(k) ==> without_key(o, k) == o,
    decreases o.len(),
{
    if o.len() > 0 {
        let q = o.drop_last();
        let n = o.len() - 1;
        let l = o.last();
        lemma_without_key(q, k);
        let w = without_key(q, k);
        assert forall|x: Seq<char>| without_key(o, k).contains(x) implies (o.contains(x) && x != k) by {
            let r = without_key(o, k);
            let i = choose|i: int| 0 <= i < r.len() && r[i] == x;
            if l == k || i < w.len() {
                assert(w[i] == x);
                assert(w.contains(x));
                assert(q.contains(x));
                let j = choose|j: int| 0 <= j < q.len() && q[j] == x;
                assert(o[j] == x);
            } else {
                assert(o[n] == x);
            }
        }
        assert forall|x: Seq<char>| (o.contains(x) && x != k) implies without_key(o, k).contains(x) by {
            let r = without_key(o, k);
            let i = choose|i: int| 0 <= i < o.len() && o[i] == x;
            if i < n {
                assert(q[i] == x);
                assert(q.contains(x));
                assert(w.contains(x));
                let j = choose|j: int| 0 <= j < w.len() && w[j] == x;
                assert(r[j] == x);
            } else {
                assert(r[w.len() as int] == x);
            }
        }
        if o.no_duplicates() {
            assert(q.no_duplicates());
            if o.last() != k {
                assert(!q.contains(o.last())) by {
                    if q.contains(o.last()) {
                        let i = choose|i: int| 0 <= i < q.len() && q[i] == o.last();
                        assert(o[i] == o[o.len() - 1]);
                    }
                }
                let w2 = w.push(o.last());
                assert forall|a: int, b: int| 0 <= a < b < w2.len() implies w2[a] != w2[b] by {
                    if b == w.len() {
                        assert(w.contains(w[a]));
                    }
                }
            }
        }
        if !o.contains(k) {
            assert(!q.contains(k)) by {
                if q.contains(k) {
                    let i = choose|i: int| 0 <= i < q.len() && q[i] == k;
                    assert(o[i] == k);
                }
            }
            assert(o[o.len() - 1] != k);
            assert(w.push(o.last()) =~= o);
        }
    }
}

proof fn lemma_remove_is_without(o: Seq<Seq<char>>, p: int)
    requires
        o.no_duplicates(),
        0 <= p < o.len(),
    ensures
        o.remove(p) == without_key(o, o[p]),
    decreases o.len(),
{
    let k = o[p];
    if p == o.len() - 1 {
        let q = o.drop_last();
        assert(!q.contains(k)) by {
            if q.contains(k) {
                let i = choose|i: int| 0 <= i < q.len() && q[i] == k;
                assert(o[i] == o[p]);
            }
        }
        lemma_without_key(q, k);
        assert(o.remove(p) =~= q);
    } else {
        let q = o.drop_last();
        assert(q.no_duplicates());
        lemma_remove_is_without(q, p);
        assert(o.last() != k);
        assert(o.remove(p) =~= q.remove(p).push(o.last()));
    }
}

proof fn lemma_buffers_update(es: Seq<(String, Buffer)>, i: int, nb: Buffer)
    requires
        entry_keys(es).no_duplicates(),
        0 <= i < es.len(),
    ensures
        entry_keys(es.update(i, (es[i].0, nb))) == entry_keys(es),
        buffers_of(es.update(i, (es[i].0, nb))) == buffers_of(es).insert(es[i].0@, nb),
    decreases es.len(),
{
    let u = es.update(i, (es[i].0, nb));
    assert(entry_keys(u) =~= entry_keys(es));
    if i < es.len() - 1 {
        let q = es.drop_last();
        assert(entry_keys(q) =~= entry_keys(es).drop_last());
        lemma_buffers_update(q, i, nb);
        assert(u.drop_last() =~= q.update(i, (q[i].0, nb)));
        assert(entry_keys(es)[i] != entry_keys(es)[es.len() - 1]);
        assert(buffers_of(u) =~= buffers_of(es).insert(es[i].0@, nb));
    } else {
        assert(u.drop_last() =~= es.drop_last());
        assert(buffers_of(u) =~= buffers_of(es).insert(es[i].0@, nb));
    }
}

impl BufferTable {
    /// The keys are unique, the MRU order lists exactly the keys once
    /// each, and the current key (if any) is one of them.
    pub closed spec fn wf(&self) -> bool {
        &&& entry_keys(self.by_key@).no_duplicates()
        &&& key_views(self.order@).no_duplicates()
        &&& forall|k: Seq<char>|
            key_views(self.order@).contains(k) <==> entry_keys(self.by_key@).contains(k)
        &&& (self.current matches Some(c) ==> entry_keys(self.by_key@).contains(c@))
    }

    /// An empty table with no current buffer.
    pub fn new() -> (t: Self)
        ensures
            t.wf(),
            t@.buffers == Map::<Seq<char>, Buffer>::empty(),
            t@.order.len() == 0,
            t@.current is None,
    {
        let t = BufferTable { by_key: Vec::new(), order: Vec::new(), current: None };
        assert(t@.buffers =~= Map::<Seq<char>, Buffer>::empty());
        t
    }

    /// The key of a buffer: its path, or the scratch name.
    pub fn key_for(path: &Option<String>) -> (k: String)
        ensures
            k@ == spec_key_for(*path),
    {
        match path {
            Some(p) => p.clone(),
            None => String::from_str(SCRATCH_NAME),
        }
    }

    fn find_entry(&self, key: &str) -> (r: Option<usize>)
        ensures
            match r {
                Some(i) => i < self.by_key@.len() && self.by_key@[i as int].0@ == key@,
                None => !entry_keys(self.by_key@).contains(key@),
            },
    {
        let mut i: usize = 0;
        while i < self.by_key.len()
            invariant
                i <= self.by_key@.len(),
                forall|j: int| 0 <= j < i ==> self.by_key@[j].0@ != key@,
            decreases self.by_key@.len() - i,
        {
            if crate::text::str_eq(self.by_key[i].0.as_str(), key) {
                return Some(i);
            }
            i = i + 1;
        }
        proof {
            if entry_keys(self.by_key@).contains(key@) {
                let j = choose|j: int| 0 <= j < entry_keys(self.by_key@).len() && entry_keys(self.by_key@)[j] == key@;
                assert(self.by_key@[j].0@ == key@);
            }
        }
        None
    }

    fn find_order(&self, key: &str) -> (r: Option<usize>)
        ensures
            match r {
                Some(i) => i < self.order@.len() && self.order@[i as int]@ == key@,
                None => !key_views(self.order@).contains(key@),
            },
    {
        let mut i: usize = 0;
        while i < self.order.len()
            invariant
                i <= self.order@.len(),
                forall|j: int| 0 <= j < i ==> self.order@[j]@ != key@,
            decreases self.order@.len() - i,
        {
            if crate::text::str_eq(self.order[i].as_str(), key) {
                return Some(i);
            }
            i = i + 1;
        }
        proof {
            if key_views(self.order@).contains(key@) {
                let j = choose|j: int| 0 <= j < key_views(self.order@).len() && key_views(self.order@)[j] == key@;
                assert(self.order@[j]@ == key@);
            }
        }
        None
    }

    /// Insert (or replace) a buffer holding `text`, with the scratch
    /// buffer's and a file's default editability (editable only without a
    /// path), and make it most recently used. The modification time is
    /// left unknown (`UNIX_EPOCH`).
    pub fn insert(&mut self, path: Option<String>, text: String) -> (k: String)
        requires
            old(self).wf(),
        ensures
            final(self).wf(),
            k@ == spec_key_for(path),
            final(self)@.buffers.dom() == old(self)@.buffers.dom().insert(k@),
            forall|x: Seq<char>|
                #![trigger final(self)@.buffers[x]]
                old(self)@.buffers.contains_key(x) && x != k@ ==> final(self)@.buffers[x]
                    == old(self)@.buffers[x],
            final(self)@.buffers[k@].path == path,
            rope_chars(final(self)@.buffers[k@].rope) == text@,
            final(self)@.buffers[k@].editable == (path is None),
            final(self)@.order == touched(
                if old(self)@.buffers.contains_key(k@) {
                    old(self)@.order
                } else {
                    old(self)@.order.push(k@)
                },
                k@,
            ),
            final(self)@.current == old(self)@.current,
    {
        let editable = path.is_none();
        let rope = rope_from_str(text.as_str());
        self.insert_rope(path, rope, unix_epoch(), editable)
    }

    /// Insert (or replace) a buffer over `rope` and make it most recently
    /// used.
    pub fn insert_rope(
        &mut self,
        path: Option<String>,
        rope: ropey::Rope,
        mtime: std::time::SystemTime,
        editable: bool,
    ) -> (k: String)
        requires
            old(self).wf(),
        ensures
            final(self).wf(),
            k@ == spec_key_for(path),
            final(self)@.buffers.dom() == old(self)@.buffers.dom().insert(k@),
            forall|x: Seq<char>|
                #![trigger final(self)@.buffers[x]]
                old(self)@.buffers.contains_key(x) && x != k@ ==> final(self)@.buffers[x]
                    == old(self)@.buffers[x],
            is_fresh(final(self)@.buffers[k@], path, rope, mtime, editable),
            final(self)@.order == touched(
                if old(self)@.buffers.contains_key(k@) {
                    old(self)@.order
                } else {
                    old(self)@.order.push(k@)
                },
                k@,
            ),
            final(self)@.current == old(self)@.current,
    {
        let key = Self::key_for(&path);
        let ghost es = self.by_key@;
        proof {
            lemma_buffers_dom(es);
        }
        let buf = Buffer::new(path, rope, mtime, editable);
        match self.find_entry(key.as_str()) {
            Some(i) => {
                let e = (key.clone(), buf);
                self.by_key.set(i, e);
                proof {
                    let u = self.by_key@;
                    assert(u == es.update(i as int, e));
                    assert(entry_keys(u) =~= entry_keys(es));
                    lemma_buffers_dom(u);
                    lemma_buffers_get(u, i as int);
                    assert forall|x: Seq<char>| #[trigger] buffers_of(u).contains_key(x) && x != key@ implies buffers_of(u)[x] == buffers_of(es)[x] by {
                        assert(entry_keys(u).contains(x));
                        let j = choose|j: int| 0 <= j < entry_keys(u).len() && entry_keys(u)[j] == x;
                        lemma_buffers_get(u, j);
                        lemma_buffers_get(es, j);
                    }
                    assert(buffers_of(u).dom() =~= buffers_of(es).dom().insert(key@));
                    assert(entry_keys(es).contains(key@)) by {
                        assert(entry_keys(es)[i as int] == key@);
                    }
                    assert(self.wf());
                }
            },
            None => {
                let e = (key.clone(), buf);
                self.by_key.push(e);
                self.order.push(key.clone());
                proof {
                    let u = self.by_key@;
                    assert(u == es.push(e));
                    assert(entry_keys(u) =~= entry_keys(es).push(key@));
                    assert(u.drop_last() =~= es);
                    assert(key_views(self.order@) =~= key_views(old(self).order@).push(key@));
                    lemma_buffers_dom(u);
                    assert(buffers_of(u).dom() =~= buffers_of(es).dom().insert(key@));
                    assert forall|a: int, b: int| 0 <= a < b < entry_keys(u).len() implies entry_keys(u)[a] != entry_keys(u)[b] by {
                        if b == es.len() {
                            assert(entry_keys(es).contains(entry_keys(u)[a]));
                        }
                    }
                    let ov = key_views(self.order@);
                    assert forall|a: int, b: int| 0 <= a < b < ov.len() implies ov[a] != ov[b] by {
                        if b == ov.len() - 1 {
                            assert(key_views(old(self).order@).contains(ov[a]));
                        }
                    }
                    assert forall|x: Seq<char>| ov.contains(x) <==> entry_keys(u).contains(x) by {
                        broadcast use vstd::seq_lib::lemma_seq_contains_after_push;
                        assert(ov.contains(x) == (x == key@ || key_views(old(self).order@).contains(x)));
                        assert(entry_keys(u).contains(x) == (x == key@ || entry_keys(es).contains(x)));
                    }
                    assert(self.current matches Some(c) ==> entry_keys(u).contains(c@)) by {
                        broadcast use vstd::seq_lib::lemma_seq_contains_after_push;
                    }
                    assert(self.wf());
                }
            },
        }
        self.touch_internal(key.as_str());
        key
    }

    /// Move `key` to the front of the MRU order (a visit); nothing when
    /// it is not open.
    pub fn touch(&mut self, key: &str)
        requires
            old(self).wf(),
        ensures
            final(self).wf(),
            final(self)@.buffers == old(self)@.buffers,
            final(self)@.current == old(self)@.current,
            final(self)@.order == touched(old(self)@.order, key@),
    {
        self.touch_internal(key);
    }

    fn touch_internal(&mut self, key: &str)
        requires
            old(self).wf(),
        ensures
            final(self).wf(),
            final(self).by_key == old(self).by_key,
            final(self).current == old(self).current,
            final(self)@.buffers == old(self)@.buffers,
            final(self)@.current == old(self)@.current,
            final(self)@.order == touched(old(self)@.order, key@),
    {
        let ghost o = key_views(self.order@);
        match self.find_order(key) {
            Some(pos) => {
                let ghost before = self.order@;
                self.order.remove(pos);
                proof {
                    lemma_remove_is_without(o, pos as int);
                    assert(key_views(self.order@) =~= o.remove(pos as int));
                    assert(o.contains(key@)) by {
                        assert(o[pos as int] == key@);
                    }
                }
                let s = key.to_owned();
                self.order.insert(0, s);
                proof {
                    lemma_without_key(o, key@);
                    let w = without_key(o, key@);
                    assert(key_views(self.order@) =~= seq![key@] + w);
                    let ov = key_views(self.order@);
                    assert forall|a: int, b: int| 0 <= a < b < ov.len() implies ov[a] != ov[b] by {
                        if a == 0 {
                            assert(w.contains(ov[b]));
                        } else {
                            assert(ov[a] == w[a - 1] && ov[b] == w[b - 1]);
                        }
                    }
                    assert forall|x: Seq<char>| ov.contains(x) <==> o.contains(x) by {
                        if ov.contains(x) && x != key@ {
                            let i = choose|i: int| 0 <= i < ov.len() && ov[i] == x;
                            assert(w.contains(x)) by {
                                assert(w[i - 1] == x);
                            }
                        }
                        if o.contains(x) && x != key@ {
                            assert(w.contains(x));
                            let i = choose|i: int| 0 <= i < w.len() && w[i] == x;
                            assert(ov[i + 1] == x);
                        }
                        if x == key@ {
                            assert(ov[0] == x);
                        }
                    }
                }
            },
            None => {},
        }
    }

    /// The buffer with `key`.
    pub fn get(&self, key: &str) -> (r: Option<&Buffer>)
        requires
            self.wf(),
        ensures
            match r {
                Some(b) => self@.buffers.contains_key(key@) && *b == self@.buffers[key@],
                None => !self@.buffers.contains_key(key@),
            },
    {
        proof {
            lemma_buffers_dom(self.by_key@);
        }
        match self.find_entry(key) {
            Some(i) => {
                proof {
                    lemma_buffers_get(self.by_key@, i as int);
                }
                Some(&self.by_key[i].1)
            },
            None => None,
        }
    }

    /// The buffer with `key`, for modification in place.
    pub fn get_mut(&mut self, key: &str) -> (r: Option<&mut Buffer>)
        requires
            old(self).wf(),
        ensures
            match r {
                Some(b) => {
                    &&& old(self)@.buffers.contains_key(key@)
                    &&& *b == old(self)@.buffers[key@]
                    &&& final(self).wf()
                    &&& final(self)@.buffers == old(self)@.buffers.insert(key@, *final(b))
                    &&& final(self)@.order == old(self)@.order
                    &&& final(self)@.current == old(self)@.current
                },
                None => !old(self)@.buffers.contains_key(key@) && *final(self) == *old(self),
            },
    {
        proof {
            lemma_buffers_dom(self.by_key@);
        }
        match self.find_entry(key) {
            Some(i) => {
                proof {
                    let es = self.by_key@;
                    lemma_buffers_get(es, i as int);
                    assert forall|nb: Buffer|
                        #![trigger es.update(i as int, (es[i as int].0, nb))]
                        buffers_of(es.update(i as int, (es[i as int].0, nb))) == buffers_of(es).insert(key@, nb)
                            && entry_keys(es.update(i as int, (es[i as int].0, nb))) == entry_keys(es) by {
                        lemma_buffers_update(es, i as int, nb);
                    }
                }
                Some(&mut self.by_key[i].1)
            },
            None => None,
        }
    }

    /// Every buffer with its key, most recently used first.
    pub fn list(&self) -> (r: Vec<(&str, &Buffer)>)
        requires
            self.wf(),
        ensures
            r@.len() == self@.order.len(),
            forall|i: int|
                #![trigger r@[i]]
                0 <= i < r@.len() ==> r@[i].0@ == self@.order[i] && *r@[i].1 == self@.buffers[self@.order[i]],
    {
        let mut out: Vec<(&str, &Buffer)> = Vec::new();
        let mut i: usize = 0;
        proof {
            lemma_buffers_dom(self.by_key@);
        }
        while i < self.order.len()
            invariant
                self.wf(),
                i <= self.order@.len(),
                out@.len() == i,
                forall|k: Seq<char>| buffers_of(self.by_key@).contains_key(k) <==> entry_keys(self.by_key@).contains(k),
                forall|j: int|
                    #![trigger out@[j]]
                    0 <= j < i ==> out@[j].0@ == self@.order[j] && *out@[j].1 == self@.buffers[self@.order[j]],
            decreases self.order@.len() - i,
        {
            let k = self.order[i].as_str();
            proof {
                assert(key_views(self.order@)[i as int] == self.order@[i as int]@);
                assert(key_views(self.order@).contains(k@));
            }
            match self.get(k) {
                Some(b) => {
                    out.push((k, b));
                },
                None => {
                    assert(false);
                },
            }
            i = i + 1;
        }
        out
    }

    /// Make the buffer with `key` current (also a visit); nothing for an
    /// unknown key.
    pub fn set_current(&mut self, key: &str)
        requires
            old(self).wf(),
        ensures
            final(self).wf(),
            final(self)@.buffers == old(self)@.buffers,
            old(self)@.buffers.contains_key(key@) ==> final(self)@.current == Some(key@)
                && final(self)@.order == touched(old(self)@.order, key@),
            !old(self)@.buffers.contains_key(key@) ==> final(self)@ == old(self)@,
    {
        proof {
            lemma_buffers_dom(self.by_key@);
        }
        match self.find_entry(key) {
            Some(i) => {
                proof {
                    assert(entry_keys(self.by_key@)[i as int] == key@);
                }
                self.current = Some(key.to_owned());
                self.touch(key);
            },
            None => {},
        }
    }

    /// The current buffer's key.
    pub fn current(&self) -> (r: Option<&str>)
        ensures
            match r {
                Some(c) => self@.current == Some(c@),
                None => self@.current is None,
            },
    {
        match &self.current {
            Some(c) => Some(c.as_str()),
            None => None,
        }
    }

    /// The current buffer.
    pub fn current_buffer(&self) -> (r: Option<&Buffer>)
        requires
            self.wf(),
        ensures
            match self@.current {
                Some(c) => r == Some(&self@.buffers[c]),
                None => r is None,
            },
    {
        match &self.current {
            Some(c) => {
                proof {
                    lemma_buffers_dom(self.by_key@);
                }
                self.get(c.as_str())
            },
            None => None,
        }
    }

    /// Close the buffer with `key`; `true` when it was open. The current
    /// buffer is cleared when it was the one closed.
    pub fn kill(&mut self, key: &str) -> (b: bool)
        requires
            old(self).wf(),
        ensures
            final(self).wf(),
            b == old(self)@.buffers.contains_key(key@),
            final(self)@.buffers == old(self)@.buffers.remove(key@),
            final(self)@.order == without_key(old(self)@.order, key@),
            final(self)@.current == (if old(self)@.current == Some(key@) {
                None
            } else {
                old(self)@.current
            }),
    {
        proof {
            lemma_buffers_dom(self.by_key@);
            lemma_without_key(key_views(self.order@), key@);
        }
        let i = match self.find_entry(key) {
            Some(i) => i,
            None => {
                proof {
                    assert(old(self)@.buffers.remove(key@) =~= old(self)@.buffers);
                    assert(!key_views(self.order@).contains(key@));
                }
                return false;
            },
        };
        let ghost es = self.by_key@;
        self.by_key.remove(i);
        proof {
            let u = self.by_key@;
            assert(u == es.remove(i as int));
            assert(entry_keys(u) =~= entry_keys(es).remove(i as int));
            lemma_buffers_dom(u);
            assert forall|a: int, b: int| 0 <= a < b < entry_keys(u).len() implies entry_keys(u)[a] != entry_keys(u)[b] by {
                let ea = if a < i { a } else { a + 1 };
                let eb = if b < i { b } else { b + 1 };
                assert(entry_keys(u)[a] == entry_keys(es)[ea]);
                assert(entry_keys(u)[b] == entry_keys(es)[eb]);
            }
            assert(entry_keys(es)[i as int] == key@);
            assert forall|x: Seq<char>| #[trigger] buffers_of(u).contains_key(x) implies buffers_of(es).remove(key@).contains_key(x) by {
                assert(entry_keys(u).contains(x));
                let j = choose|j: int| 0 <= j < entry_keys(u).len() && entry_keys(u)[j] == x;
                let ej = if j < i { j } else { j + 1 };
                assert(entry_keys(es)[ej] == x);
                assert(ej != i);
                assert(entry_keys(es).contains(x));
            }
            assert forall|x: Seq<char>| #[trigger] buffers_of(es).remove(key@).contains_key(x) implies buffers_of(u).contains_key(x) by {
                assert(entry_keys(es).contains(x));
                let j = choose|j: int| 0 <= j < entry_keys(es).len() && entry_keys(es)[j] == x;
                assert(j != i);
                let uj = if j < i { j } else { j - 1 };
                assert(entry_keys(u)[uj] == x);
                assert(entry_keys(u).contains(x));
            }
            assert forall|x: Seq<char>| #[trigger] buffers_of(u).contains_key(x) implies buffers_of(u)[x] == buffers_of(es)[x] by {
                assert(entry_keys(u).contains(x));
                let j = choose|j: int| 0 <= j < entry_keys(u).len() && entry_keys(u)[j] == x;
                let ej = if j < i { j } else { j + 1 };
                lemma_buffers_get(u, j);
                lemma_buffers_get(es, ej);
            }
            assert(buffers_of(u) =~= buffers_of(es).remove(key@));
        }
        let mut kept: Vec<String> = Vec::new();
        let mut j: usize = 0;
        let ghost o = key_views(self.order@);
        while j < self.order.len()
            invariant
                j <= self.order@.len(),
                o == key_views(self.order@),
                key_views(kept@) == without_key(o.take(j as int), key@),
            decreases self.order@.len() - j,
        {
            let ghost before = key_views(kept@);
            proof {
                assert(o.take(j + 1).drop_last() =~= o.take(j as int));
                assert(o.take(j + 1).last() == self.order@[j as int]@);
            }
            if !crate::text::str_eq(self.order[j].as_str(), key) {
                kept.push(self.order[j].clone());
                assert(key_views(kept@) =~= before.push(self.order@[j as int]@));
            }
            j = j + 1;
        }
        assert(o.take(self.order@.len() as int) =~= o);
        self.order = kept;
        let was_current = match &self.current {
            Some(c) => crate::text::str_eq(c.as_str(), key),
            None => false,
        };
        if was_current {
            self.current = None;
        }
        proof {
            lemma_without_key(o, key@);
            let ov = key_views(self.order@);
            assert forall|x: Seq<char>| ov.contains(x) <==> entry_keys(self.by_key@).contains(x) by {
                lemma_buffers_dom(self.by_key@);
            }
        }
        true
    }

    /// The number of open buffers.
    pub fn len(&self) -> (n: usize)
        requires
            self.wf(),
        ensures
            n == self@.buffers.dom().len(),
    {
        proof {
            lemma_buffers_len(self.by_key@);
        }
        self.by_key.len()
    }
}

proof fn lemma_buffers_len(es: Seq<(String, Buffer)>)
    requires
        entry_keys(es).no_duplicates(),
    ensures
        buffers_of(es).dom().finite(),
        buffers_of(es).dom().len() == es.len(),
    decreases es.len(),
{
    if es.len() > 0 {
        let q = es.drop_last();
        assert(entry_keys(q) =~= entry_keys(es).drop_last());
        lemma_buffers_len(q);
        lemma_buffers_dom(q);
        assert(!entry_keys(q).contains(es.last().0@)) by {
            if entry_keys(q).contains(es.last().0@) {
                let i = choose|i: int| 0 <= i < entry_keys(q).len() && entry_keys(q)[i] == es.last().0@;
                assert(entry_keys(es)[i] == entry_keys(es)[es.len() - 1]);
            }
        }
    }
}

} // verus!
