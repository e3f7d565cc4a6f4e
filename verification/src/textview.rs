//! Text position primitives: line/column and byte offset conversion, UTF-16
//! mapping, and the selection/caret model.

use vstd::prelude::*;
use vstd::string::StringSliceAdditionalSpecFns;
use vstd::utf8::is_char_boundary;
use crate::strutil::{bytes_of, char_bytes, decimal, lemma_char_len, lemma_take_bytes, push_chars, push_decimal, utf8_len};

verus! {


/// Errors returned by text view operations.
#[derive(Debug, Clone, PartialEq, Eq)]
pub enum TextViewError {
    InvalidRange { start: usize, end: usize },
    OffsetOutOfBounds { offset: usize, len: usize },
    InvalidUtf8Boundary { offset: usize },
    LineOutOfBounds { line: u32, line_count: u32 },
    Utf16OffsetOutOfBounds { offset: usize, total: usize },
}

/// The description of a text view error.
pub open spec fn message_text(e: TextViewError) -> Seq<char> {
    match e {
        TextViewError::InvalidRange { start, end } => "invalid range: start "@ + decimal(
            start as nat,
        ) + " > end "@ + decimal(end as nat),
        TextViewError::OffsetOutOfBounds { offset, len } => "offset "@ + decimal(offset as nat)
            + " out of bounds (len "@ + decimal(len as nat) + ")"@,
        TextViewError::InvalidUtf8Boundary { offset } => "offset "@ + decimal(offset as nat)
            + " is not on a UTF-8 char boundary"@,
        TextViewError::LineOutOfBounds { line, line_count } => "line "@ + decimal(line as nat)
            + " out of bounds (line_count "@ + decimal(line_count as nat) + ")"@,
        TextViewError::Utf16OffsetOutOfBounds { offset, total } => "UTF-16 offset "@ + decimal(
            offset as nat,
        ) + " out of bounds (total "@ + decimal(total as nat) + ")"@,
    }
}

impl TextViewError {
    /// Human-readable description of the error.
    pub fn message(&self) -> (r: String)
        ensures
            r@ == message_text(*self),
    {
        let mut out = String::new();
        match *self {
            TextViewError::InvalidRange { start, end } => {
                push_chars(&mut out, "invalid range: start ");
                push_decimal(&mut out, start as u64);
                push_chars(&mut out, " > end ");
                push_decimal(&mut out, end as u64);
            },
            TextViewError::OffsetOutOfBounds { offset, len } => {
                push_chars(&mut out, "offset ");
                push_decimal(&mut out, offset as u64);
                push_chars(&mut out, " out of bounds (len ");
                push_decimal(&mut out, len as u64);
                push_chars(&mut out, ")");
            },
            TextViewError::InvalidUtf8Boundary { offset } => {
                push_chars(&mut out, "offset ");
                push_decimal(&mut out, offset as u64);
                push_chars(&mut out, " is not on a UTF-8 char boundary");
            },
            TextViewError::LineOutOfBounds { line, line_count } => {
                push_chars(&mut out, "line ");
                push_decimal(&mut out, line as u64);
                push_chars(&mut out, " out of bounds (line_count ");
                push_decimal(&mut out, line_count as u64);
                push_chars(&mut out, ")");
            },
            TextViewError::Utf16OffsetOutOfBounds { offset, total } => {
                push_chars(&mut out, "UTF-16 offset ");
                push_decimal(&mut out, offset as u64);
                push_chars(&mut out, " out of bounds (total ");
                push_decimal(&mut out, total as u64);
                push_chars(&mut out, ")");
            },
        }
        out
    }
}

/// 0-based line and column position in a text document.
#[derive(Debug, Clone, Copy, PartialEq, Eq, PartialOrd, Ord, Hash)]
pub struct Position {
    pub(crate) line: u32,
    pub(crate) column: u32,
}

impl Position {
    pub closed spec fn spec_line(self) -> u32 {
        self.line
    }

    pub closed spec fn spec_column(self) -> u32 {
        self.column
    }

    pub fn new(line: u32, column: u32) -> (p: Self)
        ensures
            p.spec_line() == line,
            p.spec_column() == column,
    {
        Self { line, column }
    }

    pub fn line(&self) -> (r: u32)
        ensures
            r == self.spec_line(),
    {
        self.line
    }

    pub fn column(&self) -> (r: u32)
        ensures
            r == self.spec_column(),
    {
        self.column
    }
}

/// Byte offset range in a UTF-8 string. `start <= end` is enforced.
#[derive(Debug, Clone, Copy, PartialEq, Eq, Hash)]
pub struct TextRange {
    pub(crate) start: usize,
    pub(crate) end: usize,
}

impl TextRange {
    pub closed spec fn spec_start(self) -> usize {
        self.start
    }

    pub closed spec fn spec_end(self) -> usize {
        self.end
    }

    /// Ordered pair invariant of a range.
    pub open spec fn wf(self) -> bool {
        self.spec_start() <= self.spec_end()
    }

    pub fn new(start: usize, end: usize) -> (r: Result<Self, TextViewError>)
        ensures
            start <= end <==> r is Ok,
            r matches Ok(range) ==> range.spec_start() == start && range.spec_end() == end,
            r matches Err(e) ==> e == (TextViewError::InvalidRange { start, end }),
    {
        if start > end {
            return Err(TextViewError::InvalidRange { start, end });
        }
        Ok(Self { start, end })
    }

    pub fn empty(offset: usize) -> (r: Self)
        ensures
            r.spec_start() == offset,
            r.spec_end() == offset,
    {
        Self { start: offset, end: offset }
    }

    pub fn start(&self) -> (r: usize)
        ensures
            r == self.spec_start(),
    {
        self.start
    }

    pub fn end(&self) -> (r: usize)
        ensures
            r == self.spec_end(),
    {
        self.end
    }

    pub fn len(&self) -> (r: usize)
        requires
            self.wf(),
        ensures
            r == self.spec_end() - self.spec_start(),
    {
        self.end - self.start
    }

    pub fn is_empty(&self) -> (r: bool)
        ensures
            r == (self.spec_start() == self.spec_end()),
    {
        self.start == self.end
    }

    pub fn contains(&self, offset: usize) -> (r: bool)
        ensures
            r == (self.spec_start() <= offset && offset < self.spec_end()),
    {
        self.start <= offset && offset < self.end
    }

    pub fn intersects(&self, other: &TextRange) -> (r: bool)
        ensures
            r == (self.spec_start() < other.spec_end() && other.spec_start() < self.spec_end()),
    {
        self.start < other.end && other.start < self.end
    }
}

/// Abstract description of one text range change.
#[derive(Debug, Clone, Copy, PartialEq, Eq)]
pub struct RangeChange {
    pub(crate) start: usize,
    pub(crate) old_end: usize,
    pub(crate) new_end: usize,
}

impl RangeChange {
    pub closed spec fn spec_start(self) -> usize {
        self.start
    }

    pub closed spec fn spec_old_end(self) -> usize {
        self.old_end
    }

    pub closed spec fn spec_new_end(self) -> usize {
        self.new_end
    }

    pub fn new(start: usize, old_end: usize, new_end: usize) -> (r: Self)
        ensures
            r.spec_start() == start,
            r.spec_old_end() == old_end,
            r.spec_new_end() == new_end,
    {
        Self { start, old_end, new_end }
    }

    pub fn start(&self) -> (r: usize)
        ensures
            r == self.spec_start(),
    {
        self.start
    }

    pub fn old_end(&self) -> (r: usize)
        ensures
            r == self.spec_old_end(),
    {
        self.old_end
    }

    pub fn new_end(&self) -> (r: usize)
        ensures
            r == self.spec_new_end(),
    {
        self.new_end
    }
}

/// Directional selection with anchor and head (caret position).
#[derive(Debug, Clone, Copy, PartialEq, Eq)]
pub struct Selection {
    pub(crate) anchor: usize,
    pub(crate) head: usize,
}

impl Selection {
    pub closed spec fn spec_anchor(self) -> usize {
        self.anchor
    }

    pub closed spec fn spec_head(self) -> usize {
        self.head
    }

    pub fn new(anchor: usize, head: usize) -> (s: Self)
        ensures
            s.spec_anchor() == anchor,
            s.spec_head() == head,
    {
        Self { anchor, head }
    }

    pub fn cursor(offset: usize) -> (s: Self)
        ensures
            s.spec_anchor() == offset,
            s.spec_head() == offset,
    {
        Self { anchor: offset, head: offset }
    }

    pub fn anchor(&self) -> (r: usize)
        ensures
            r == self.spec_anchor(),
    {
        self.anchor
    }

    pub fn head(&self) -> (r: usize)
        ensures
            r == self.spec_head(),
    {
        self.head
    }

    /// Return the normalized range (start <= end) covered by this selection.
    pub fn range(&self) -> (r: TextRange)
        ensures
            self.spec_anchor() <= self.spec_head() ==> r.spec_start() == self.spec_anchor()
                && r.spec_end() == self.spec_head(),
            self.spec_anchor() > self.spec_head() ==> r.spec_start() == self.spec_head()
                && r.spec_end() == self.spec_anchor(),
            r.wf(),
    {
        if self.anchor <= self.head {
            TextRange { start: self.anchor, end: self.head }
        } else {
            TextRange { start: self.head, end: self.anchor }
        }
    }

    pub fn is_cursor(&self) -> (r: bool)
        ensures
            r == (self.spec_anchor() == self.spec_head()),
    {
        self.anchor == self.head
    }

    pub fn is_forward(&self) -> (r: bool)
        ensures
            r == (self.spec_anchor() <= self.spec_head()),
    {
        self.anchor <= self.head
    }
}

// ---------------------------------------------------------------------------
// Line index
// ---------------------------------------------------------------------------

/// Start offsets of the lines found in the first `n` bytes: offset 0, then one
/// past every newline byte.
pub open spec fn line_starts_prefix(bytes: Seq<u8>, n: int) -> Seq<int>
    decreases n,
{
    if n <= 0 {
        seq![0int]
    } else {
        let prev = line_starts_prefix(bytes, n - 1);
        if bytes[n - 1] == 10u8 {
            prev.push(n)
        } else {
            prev
        }
    }
}

/// Start offsets of all lines of a text given by its bytes.
pub open spec fn line_starts_of(bytes: Seq<u8>) -> Seq<int> {
    line_starts_prefix(bytes, bytes.len() as int)
}

/// A strictly increasing sequence that begins at 0 and stays within `len`.
pub open spec fn starts_wf(starts: Seq<int>, len: int) -> bool {
    &&& starts.len() >= 1
    &&& starts[0] == 0
    &&& forall|i: int, j: int| 0 <= i < j < starts.len() ==> starts[i] < starts[j]
    &&& forall|i: int| 0 <= i < starts.len() ==> 0 <= #[trigger] starts[i] <= len
}

/// `line` is the line that holds `offset`: the last start at or before it.
pub open spec fn is_line_of(starts: Seq<int>, line: int, offset: int) -> bool {
    &&& 0 <= line < starts.len()
    &&& starts[line] <= offset
    &&& line + 1 < starts.len() ==> offset < starts[line + 1]
}

pub proof fn lemma_line_starts_prefix_wf(bytes: Seq<u8>, n: int)
    requires
        0 <= n <= bytes.len(),
    ensures
        starts_wf(line_starts_prefix(bytes, n), n),
        line_starts_prefix(bytes, n).len() <= n + 1,
        forall|i: int|
            0 < i < line_starts_prefix(bytes, n).len() ==> bytes[#[trigger] line_starts_prefix(
                bytes,
                n,
            )[i] - 1] == 10u8,
    decreases n,
{
    if n > 0 {
        lemma_line_starts_prefix_wf(bytes, n - 1);
    }
}

/// At most one line holds a given offset.
pub proof fn lemma_line_of_unique(starts: Seq<int>, len: int, l1: int, l2: int, offset: int)
    requires
        starts_wf(starts, len),
        is_line_of(starts, l1, offset),
        is_line_of(starts, l2, offset),
    ensures
        l1 == l2,
{
    if l1 < l2 {
        assert(starts[l1 + 1] <= starts[l2]);
    } else if l2 < l1 {
        assert(starts[l2 + 1] <= starts[l1]);
    }
}

/// The line that holds `offset`.
pub open spec fn line_at(starts: Seq<int>, offset: int) -> int {
    choose|l: int| is_line_of(starts, l, offset)
}

/// Line starts are 0 and the offsets just after newline bytes, strictly
/// increasing and within the text.
pub proof fn lemma_line_starts_wf(bytes: Seq<u8>)
    ensures
        starts_wf(line_starts_of(bytes), bytes.len() as int),
        line_starts_of(bytes).len() <= bytes.len() + 1,
        forall|i: int|
            0 < i < line_starts_of(bytes).len() ==> bytes[#[trigger] line_starts_of(bytes)[i] - 1]
                == 10u8,
{
    lemma_line_starts_prefix_wf(bytes, bytes.len() as int);
}

/// Precomputed line-start offset table for line/column and byte offset conversion.
#[derive(Debug)]
pub struct LineIndex {
    line_starts: Vec<u32>,
    len: u32,
}

impl LineIndex {
    /// The line start offsets as integers.
    pub closed spec fn starts(self) -> Seq<int> {
        Seq::new(self.line_starts@.len(), |i: int| self.line_starts@[i] as int)
    }

    /// Byte length of the indexed text.
    pub closed spec fn spec_len(self) -> int {
        self.len as int
    }

    #[verifier::type_invariant]
    closed spec fn inv(self) -> bool {
        &&& starts_wf(self.starts(), self.len as int)
        &&& self.line_starts@.len() <= u32::MAX
    }

    /// Builds the index of `text`: one entry for the start of every line.
    pub fn new(text: &str) -> (idx: Self)
        requires
            text.spec_bytes().len() < u32::MAX,
        ensures
            idx.starts() == line_starts_of(text.spec_bytes()),
            idx.spec_len() == text.spec_bytes().len(),
            starts_wf(idx.starts(), idx.spec_len()),
    {
        let bytes = text.as_bytes();
        let n = bytes.len();
        let mut line_starts: Vec<u32> = Vec::new();
        line_starts.push(0u32);
        let mut i: usize = 0;
        while i < n
            invariant
                n == bytes@.len(),
                bytes@ == text.spec_bytes(),
                n < u32::MAX,
                0 <= i <= n,
                line_starts@.len() == line_starts_prefix(bytes@, i as int).len(),
                forall|k: int|
                    0 <= k < line_starts@.len() ==> line_starts@[k] as int == line_starts_prefix(
                        bytes@,
                        i as int,
                    )[k],
            decreases n - i,
        {
            proof {
                lemma_line_starts_prefix_wf(bytes@, i as int);
            }
            if bytes[i] == 10u8 {
                line_starts.push((i + 1) as u32);
            }
            i = i + 1;
        }
        proof {
            lemma_line_starts_prefix_wf(bytes@, n as int);
        }
        let idx = Self { line_starts, len: n as u32 };
        assert(idx.starts() =~= line_starts_of(text.spec_bytes()));
        idx
    }

    /// End of `line` including its trailing newline: the next line start, or the text length.
    pub open spec fn line_end_with_newline(self, line: int) -> int {
        if line + 1 < self.starts().len() {
            self.starts()[line + 1]
        } else {
            self.spec_len()
        }
    }

    /// End of `line` excluding its trailing newline.
    pub open spec fn line_end(self, line: int) -> int {
        let end_with_nl = self.line_end_with_newline(line);
        if end_with_nl > self.starts()[line] && line + 1 < self.starts().len() {
            end_with_nl - 1
        } else {
            end_with_nl
        }
    }

    /// Byte offset named by a line/column position, before any validation.
    pub open spec fn raw_offset(self, line: int, column: int) -> int {
        self.starts()[line] + column
    }

    /// Result of converting `position` to a byte offset of the text `bytes`.
    pub open spec fn spec_position_to_offset(self, bytes: Seq<u8>, position: Position) -> Result<
        usize,
        TextViewError,
    > {
        let line = position.spec_line() as int;
        if line >= self.starts().len() {
            Err(
                TextViewError::LineOutOfBounds {
                    line: position.spec_line(),
                    line_count: self.starts().len() as u32,
                },
            )
        } else {
            let off = self.raw_offset(line, position.spec_column() as int);
            if off > self.line_end_with_newline(line) {
                Err(
                    TextViewError::OffsetOutOfBounds {
                        offset: off as usize,
                        len: self.spec_len() as usize,
                    },
                )
            } else if off < bytes.len() && !is_char_boundary(bytes, off) {
                Err(TextViewError::InvalidUtf8Boundary { offset: off as usize })
            } else {
                Ok(off as usize)
            }
        }
    }

    pub fn line_count(&self) -> (r: u32)
        ensures
            r == self.starts().len(),
    {
        proof {
            use_type_invariant(self);
        }
        self.line_starts.len() as u32
    }

    pub fn text_len(&self) -> (r: u32)
        ensures
            r == self.spec_len(),
    {
        self.len
    }

    /// Return the 0-based line number that contains the given byte offset.
    pub fn line_of_offset(&self, offset: usize) -> (r: Result<u32, TextViewError>)
        ensures
            starts_wf(self.starts(), self.spec_len()),
            self.spec_len() <= u32::MAX,
            offset <= self.spec_len() <==> r is Ok,
            r matches Ok(line) ==> is_line_of(self.starts(), line as int, offset as int),
            r matches Err(e) ==> e == (TextViewError::OffsetOutOfBounds {
                offset,
                len: self.spec_len() as usize,
            }),
    {
        proof {
            use_type_invariant(self);
        }
        let len = self.len as usize;
        if offset > len {
            return Err(TextViewError::OffsetOutOfBounds { offset, len });
        }
        // Binary search for the number of starts at or before `offset`.
        let mut lo: usize = 0;
        let mut hi: usize = self.line_starts.len();
        while lo < hi
            invariant
                self.inv(),
                0 <= lo <= hi <= self.line_starts@.len(),
                forall|k: int| 0 <= k < lo ==> self.starts()[k] <= offset,
                forall|k: int| hi <= k < self.line_starts@.len() ==> self.starts()[k] > offset,
            decreases hi - lo,
        {
            let mid = lo + (hi - lo) / 2;
            assert(self.starts()[mid as int] == self.line_starts@[mid as int] as int);
            if (self.line_starts[mid] as usize) <= offset {
                lo = mid + 1;
            } else {
                hi = mid;
            }
        }
        assert(self.starts()[0] == 0);
        let line = if lo == 0 { 0 } else { lo - 1 };
        Ok(line as u32)
    }

    /// Convert a byte offset to a 0-based line/column position.
    pub fn offset_to_position(&self, text: &str, offset: usize) -> (r: Result<
        Position,
        TextViewError,
    >)
        ensures
            offset > self.spec_len() ==> r == Err::<Position, TextViewError>(
                TextViewError::OffsetOutOfBounds { offset, len: self.spec_len() as usize },
            ),
            offset <= self.spec_len() && offset < self.spec_len() && !is_char_boundary(
                text.spec_bytes(),
                offset as int,
            ) ==> r == Err::<Position, TextViewError>(
                TextViewError::InvalidUtf8Boundary { offset },
            ),
            offset <= self.spec_len() && !(offset < self.spec_len() && !is_char_boundary(
                text.spec_bytes(),
                offset as int,
            )) ==> r is Ok,
            r matches Ok(p) ==> is_line_of(self.starts(), p.spec_line() as int, offset as int)
                && p.spec_column() == offset - self.starts()[p.spec_line() as int],
    {
        proof {
            use_type_invariant(self);
        }
        let len = self.len as usize;
        if offset > len {
            return Err(TextViewError::OffsetOutOfBounds { offset, len });
        }
        if offset < len && !text.is_char_boundary(offset) {
            return Err(TextViewError::InvalidUtf8Boundary { offset });
        }
        let line_idx = match self.line_of_offset(offset) {
            Ok(l) => l,
            Err(e) => {
                return Err(e);
            },
        };
        let line_start = self.line_starts[line_idx as usize] as usize;
        let column = (offset - line_start) as u32;
        Ok(Position::new(line_idx, column))
    }

    /// Convert a 0-based line/column position to a byte offset.
    pub fn position_to_offset(&self, text: &str, position: Position) -> (r: Result<
        usize,
        TextViewError,
    >)
        ensures
            r == self.spec_position_to_offset(text.spec_bytes(), position),
    {
        proof {
            use_type_invariant(self);
        }
        let line = position.line();
        let lc = self.line_count();
        if line >= lc {
            return Err(TextViewError::LineOutOfBounds { line, line_count: lc });
        }
        let line_start = self.line_starts[line as usize] as u64;
        let line_end = if line + 1 < lc {
            self.line_starts[(line + 1) as usize] as u64
        } else {
            self.len as u64
        };
        assert(self.starts()[line as int] == line_start);
        assert(line + 1 < lc ==> self.starts()[line + 1] == line_end);
        let col = position.column() as u64;
        let offset = line_start + col;
        if offset > line_end {
            return Err(TextViewError::OffsetOutOfBounds { offset: offset as usize, len: self.len as usize });
        }
        let offset = offset as usize;
        if offset < text.as_bytes().len() && !text.is_char_boundary(offset) {
            return Err(TextViewError::InvalidUtf8Boundary { offset });
        }
        Ok(offset)
    }

    /// Return the byte range of a line excluding its trailing newline.
    pub fn line_range(&self, line: u32) -> (r: Result<TextRange, TextViewError>)
        ensures
            line < self.starts().len() <==> r is Ok,
            r matches Ok(range) ==> range.spec_start() == self.starts()[line as int]
                && range.spec_end() == self.line_end(line as int) && range.wf(),
            r matches Err(e) ==> e == (TextViewError::LineOutOfBounds {
                line,
                line_count: self.starts().len() as u32,
            }),
    {
        proof {
            use_type_invariant(self);
        }
        let lc = self.line_count();
        if line >= lc {
            return Err(TextViewError::LineOutOfBounds { line, line_count: lc });
        }
        let start = self.line_starts[line as usize] as usize;
        let end_with_nl = if line + 1 < lc {
            self.line_starts[(line + 1) as usize] as usize
        } else {
            self.len as usize
        };
        assert(self.starts()[line as int] == start);
        assert(line + 1 < lc ==> self.starts()[line + 1] == end_with_nl);
        let end = if end_with_nl > start && line + 1 < lc {
            end_with_nl - 1
        } else {
            end_with_nl
        };
        Ok(TextRange { start, end })
    }

    /// Return the byte range of a line including its trailing newline.
    pub fn line_range_with_newline(&self, line: u32) -> (r: Result<TextRange, TextViewError>)
        ensures
            line < self.starts().len() <==> r is Ok,
            r matches Ok(range) ==> range.spec_start() == self.starts()[line as int]
                && range.spec_end() == self.line_end_with_newline(line as int) && range.wf(),
            r matches Err(e) ==> e == (TextViewError::LineOutOfBounds {
                line,
                line_count: self.starts().len() as u32,
            }),
    {
        proof {
            use_type_invariant(self);
        }
        let lc = self.line_count();
        if line >= lc {
            return Err(TextViewError::LineOutOfBounds { line, line_count: lc });
        }
        let start = self.line_starts[line as usize] as usize;
        let end = if line + 1 < lc {
            self.line_starts[(line + 1) as usize] as usize
        } else {
            self.len as usize
        };
        assert(self.starts()[line as int] == start);
        assert(line + 1 < lc ==> self.starts()[line + 1] == end);
        Ok(TextRange { start, end })
    }
}

/// Converting a byte offset of the indexed text to a line/column position and
/// back yields the original offset.
pub proof fn lemma_offset_position_roundtrip(
    idx: LineIndex,
    text: &str,
    offset: usize,
    position: Position,
)
    requires
        idx.spec_len() == text.spec_bytes().len(),
        is_line_of(idx.starts(), position.spec_line() as int, offset as int),
        position.spec_column() == offset - idx.starts()[position.spec_line() as int],
        offset <= idx.spec_len(),
        !(offset < idx.spec_len() && !is_char_boundary(text.spec_bytes(), offset as int)),
    ensures
        idx.spec_position_to_offset(text.spec_bytes(), position) == Ok::<usize, TextViewError>(
            offset,
        ),
{
}

impl Clone for LineIndex {
    fn clone(&self) -> (r: Self)
        ensures
            r.starts() == self.starts(),
            r.spec_len() == self.spec_len(),
    {
        proof {
            use_type_invariant(self);
        }
        let mut line_starts: Vec<u32> = Vec::new();
        let mut i: usize = 0;
        while i < self.line_starts.len()
            invariant
                0 <= i <= self.line_starts@.len(),
                line_starts@ == self.line_starts@.subrange(0, i as int),
            decreases self.line_starts@.len() - i,
        {
            line_starts.push(self.line_starts[i]);
            i = i + 1;
            assert(line_starts@ =~= self.line_starts@.subrange(0, i as int));
        }
        assert(line_starts@ =~= self.line_starts@);
        let r = LineIndex { line_starts, len: self.len };
        assert(r.starts() =~= self.starts());
        r
    }
}

// ---------------------------------------------------------------------------
// UTF-16 mapping
// ---------------------------------------------------------------------------

/// Number of UTF-16 code units that encode `c`.
pub open spec fn utf16_units(c: char) -> int {
    if (c as u32) < 0x10000 {
        1
    } else {
        2
    }
}

/// Byte offset of character `k` of `cs`.
pub open spec fn byte_prefix(cs: Seq<char>, k: int) -> int {
    bytes_of(cs.take(k)).len() as int
}

/// UTF-16 offset of character `k` of `cs`.
pub open spec fn utf16_prefix(cs: Seq<char>, k: int) -> int
    decreases k,
{
    if k <= 0 {
        0
    } else {
        utf16_prefix(cs, k - 1) + utf16_units(cs[k - 1])
    }
}

/// Result of converting byte offset `b` of the text `cs` to a UTF-16 offset.
pub open spec fn spec_byte_to_utf16(cs: Seq<char>, b: int) -> Result<usize, TextViewError> {
    let total = byte_prefix(cs, cs.len() as int);
    if b > total {
        Err(TextViewError::OffsetOutOfBounds { offset: b as usize, len: total as usize })
    } else if exists|k: int| 0 <= k <= cs.len() && byte_prefix(cs, k) == b {
        Ok(
            utf16_prefix(cs, choose|k: int| 0 <= k <= cs.len() && byte_prefix(cs, k) == b) as usize,
        )
    } else {
        Err(TextViewError::InvalidUtf8Boundary { offset: b as usize })
    }
}

/// Result of converting UTF-16 offset `u` of the text `cs` to a byte offset.
pub open spec fn spec_utf16_to_byte(cs: Seq<char>, u: int) -> Result<usize, TextViewError> {
    let total = utf16_prefix(cs, cs.len() as int);
    if u <= total && exists|k: int| 0 <= k <= cs.len() && utf16_prefix(cs, k) == u {
        Ok(byte_prefix(cs, choose|k: int| 0 <= k <= cs.len() && utf16_prefix(cs, k) == u) as usize)
    } else {
        Err(TextViewError::Utf16OffsetOutOfBounds { offset: u as usize, total: total as usize })
    }
}

/// Indices below `k` of the characters of `cs` that are not ASCII.
pub open spec fn non_ascii_positions(cs: Seq<char>, k: int) -> Seq<int>
    decreases k,
{
    if k <= 0 {
        Seq::empty()
    } else if (cs[k - 1] as u32) >= 0x80 {
        non_ascii_positions(cs, k - 1).push(k - 1)
    } else {
        non_ascii_positions(cs, k - 1)
    }
}

proof fn lemma_prefix_step(cs: Seq<char>, k: int)
    requires
        0 <= k < cs.len(),
    ensures
        byte_prefix(cs, k + 1) == byte_prefix(cs, k) + char_bytes(cs[k]).len(),
        utf16_prefix(cs, k + 1) == utf16_prefix(cs, k) + utf16_units(cs[k]),
        (cs[k] as u32) < 0x80 ==> char_bytes(cs[k]).len() == 1 && utf16_units(cs[k]) == 1,
        (cs[k] as u32) >= 0x80 ==> char_bytes(cs[k]).len() >= 2,
        1 <= utf16_units(cs[k]) <= char_bytes(cs[k]).len() <= 4,
{
    lemma_take_bytes(cs, k);
    lemma_char_len(cs[k]);
}

proof fn lemma_prefix_mono(cs: Seq<char>, j: int, k: int)
    requires
        0 <= j <= k <= cs.len(),
    ensures
        byte_prefix(cs, j) + (k - j) <= byte_prefix(cs, k),
        utf16_prefix(cs, j) + (k - j) <= utf16_prefix(cs, k),
        utf16_prefix(cs, k) - utf16_prefix(cs, j) <= byte_prefix(cs, k) - byte_prefix(cs, j),
        byte_prefix(cs, j) >= 0,
    decreases k - j,
{
    if k > j {
        lemma_prefix_mono(cs, j, k - 1);
        lemma_prefix_step(cs, k - 1);
    } else {
        lemma_prefix_base(cs, j);
    }
}

proof fn lemma_prefix_base(cs: Seq<char>, j: int)
    requires
        0 <= j <= cs.len(),
    ensures
        byte_prefix(cs, j) >= 0,
        utf16_prefix(cs, j) >= 0,
    decreases j,
{
    if j > 0 {
        lemma_prefix_base(cs, j - 1);
        lemma_prefix_step(cs, j - 1);
    }
}

/// Over a run of ASCII characters both offsets advance by one per character.
proof fn lemma_ascii_run(cs: Seq<char>, j: int, k: int)
    requires
        0 <= j <= k <= cs.len(),
        forall|i: int| j <= i < k ==> (cs[i] as u32) < 0x80,
    ensures
        byte_prefix(cs, k) == byte_prefix(cs, j) + (k - j),
        utf16_prefix(cs, k) == utf16_prefix(cs, j) + (k - j),
    decreases k - j,
{
    if k > j {
        lemma_ascii_run(cs, j, k - 1);
        lemma_prefix_step(cs, k - 1);
    }
}

proof fn lemma_positions(cs: Seq<char>, k: int)
    requires
        0 <= k <= cs.len(),
    ensures
        forall|t: int| 0 <= t < non_ascii_positions(cs, k).len() ==> 0 <= #[trigger] non_ascii_positions(cs, k)[t] < k
            && (cs[non_ascii_positions(cs, k)[t]] as u32) >= 0x80,
        forall|t: int, u: int|
            0 <= t < u < non_ascii_positions(cs, k).len() ==> #[trigger] non_ascii_positions(cs, k)[t]
                < #[trigger] non_ascii_positions(cs, k)[u],
        forall|i: int| 0 <= i < k && (cs[i] as u32) >= 0x80 ==> #[trigger] non_ascii_positions(cs, k).contains(i),
    decreases k,
{
    if k > 0 {
        lemma_positions(cs, k - 1);
        let p = non_ascii_positions(cs, k - 1);
        if (cs[k - 1] as u32) >= 0x80 {
            assert forall|i: int| 0 <= i < k && (cs[i] as u32) >= 0x80 implies #[trigger] non_ascii_positions(
                cs,
                k,
            ).contains(i) by {
                if i < k - 1 {
                    assert(p.contains(i));
                    let t = choose|t: int| 0 <= t < p.len() && p[t] == i;
                    assert(non_ascii_positions(cs, k)[t] == i);
                } else {
                    assert(non_ascii_positions(cs, k)[p.len() as int] == i);
                }
            }
        }
    }
}

/// Characters strictly between consecutive non-ASCII positions are ASCII.
proof fn lemma_positions_gap(cs: Seq<char>, t: int, i: int)
    requires
        -1 <= t < non_ascii_positions(cs, cs.len() as int).len(),
        0 <= i < cs.len(),
        t >= 0 ==> non_ascii_positions(cs, cs.len() as int)[t] < i,
        t + 1 < non_ascii_positions(cs, cs.len() as int).len() ==> i < non_ascii_positions(
            cs,
            cs.len() as int,
        )[t + 1],
    ensures
        (cs[i] as u32) < 0x80,
{
    let p = non_ascii_positions(cs, cs.len() as int);
    lemma_positions(cs, cs.len() as int);
    if (cs[i] as u32) >= 0x80 {
        assert(p.contains(i));
        let x = choose|x: int| 0 <= x < p.len() && p[x] == i;
        if x <= t {
            if x < t {
                assert(p[x] < p[t]);
            }
        } else if x > t + 1 {
            assert(p[t + 1] < p[x]);
        }
    }
}

/// Converting a byte offset to UTF-16 and back gives the byte offset again.
pub proof fn lemma_utf16_roundtrip(cs: Seq<char>, b: int)
    requires
        bytes_of(cs).len() <= u32::MAX,
        spec_byte_to_utf16(cs, b) is Ok,
    ensures
        spec_utf16_to_byte(cs, spec_byte_to_utf16(cs, b)->Ok_0 as int) == Ok::<usize, TextViewError>(
            b as usize,
        ),
{
    let n = cs.len() as int;
    let k = choose|k: int| 0 <= k <= n && byte_prefix(cs, k) == b;
    assert(cs.take(n) =~= cs);
    lemma_prefix_mono(cs, k, n);
    lemma_prefix_mono(cs, 0, k);
    let u = utf16_prefix(cs, k);
    assert(spec_byte_to_utf16(cs, b) == Ok::<usize, TextViewError>(u as usize));
    let k2 = choose|k2: int| 0 <= k2 <= n && utf16_prefix(cs, k2) == u;
    assert(0 <= k2 <= n && utf16_prefix(cs, k2) == u);
    if k2 < k {
        lemma_prefix_mono(cs, k2, k);
    } else if k2 > k {
        lemma_prefix_mono(cs, k, k2);
    }
}

#[derive(Debug, Clone, Copy)]
struct Utf16Anchor {
    byte_offset: u32,
    utf16_offset: u32,
    byte_len: u8,
    utf16_len: u8,
}

/// Anchor `a` records the non-ASCII character `p` of `cs`.
spec fn anchor_of(a: Utf16Anchor, cs: Seq<char>, p: int) -> bool {
    &&& a.byte_offset == byte_prefix(cs, p)
    &&& a.utf16_offset == utf16_prefix(cs, p)
    &&& a.byte_len == char_bytes(cs[p]).len()
    &&& a.utf16_len == utf16_units(cs[p])
}

/// Bidirectional UTF-8 byte offset and UTF-16 code unit offset mapping.
pub struct Utf16Mapping {
    anchors: Vec<Utf16Anchor>,
    total_bytes: u32,
    total_utf16: u32,
    text: Ghost<Seq<char>>,
}

impl View for Utf16Mapping {
    type V = Seq<char>;

    /// The characters of the mapped text.
    closed spec fn view(&self) -> Seq<char> {
        self.text@
    }
}

impl Utf16Mapping {
    #[verifier::type_invariant]
    closed spec fn inv(self) -> bool {
        let cs = self.text@;
        let p = non_ascii_positions(cs, cs.len() as int);
        &&& bytes_of(cs).len() <= u32::MAX
        &&& self.total_bytes == byte_prefix(cs, cs.len() as int)
        &&& self.total_utf16 == utf16_prefix(cs, cs.len() as int)
        &&& self.anchors@.len() == p.len()
        &&& forall|t: int| 0 <= t < p.len() ==> anchor_of(#[trigger] self.anchors@[t], cs, p[t])
    }

    pub fn new(text: &str) -> (m: Self)
        requires
            text.spec_bytes().len() <= u32::MAX,
        ensures
            m@ == text@,
    {
        let ghost cs = text@;
        let ghost n = cs.len() as int;
        let mut anchors: Vec<Utf16Anchor> = Vec::new();
        let mut byte_off: u32 = 0;
        let mut utf16_off: u32 = 0;
        let mut it = text.chars();
        let ghost mut i: int = 0;
        proof {
            assert(cs.take(n) =~= cs);
            assert(cs.take(0) =~= Seq::<char>::empty());
            assert(bytes_of(Seq::<char>::empty()) =~= Seq::<u8>::empty());
        }
        loop
            invariant
                cs == text@,
                n == cs.len(),
                bytes_of(cs).len() <= u32::MAX,
                cs.take(n) == cs,
                0 <= i <= n,
                vstd::std_specs::iter::IteratorSpec::remaining(&it) == cs.skip(i),
                byte_off == byte_prefix(cs, i),
                utf16_off == utf16_prefix(cs, i),
                anchors@.len() == non_ascii_positions(cs, i).len(),
                forall|t: int|
                    0 <= t < non_ascii_positions(cs, i).len() ==> anchor_of(
                        #[trigger] anchors@[t],
                        cs,
                        non_ascii_positions(cs, i)[t],
                    ),
            ensures
                i == n,
                byte_off == byte_prefix(cs, n),
                utf16_off == utf16_prefix(cs, n),
                anchors@.len() == non_ascii_positions(cs, n).len(),
                forall|t: int|
                    0 <= t < non_ascii_positions(cs, n).len() ==> anchor_of(
                        #[trigger] anchors@[t],
                        cs,
                        non_ascii_positions(cs, n)[t],
                    ),
            decreases n - i,
        {
            let ch = match it.next() {
                Some(c) => c,
                None => {
                    break;
                },
            };
            proof {
                assert(cs.skip(i)[0] == cs[i]);
                assert(cs.skip(i).drop_first() =~= cs.skip(i + 1));
                lemma_prefix_step(cs, i);
                lemma_prefix_mono(cs, i + 1, n);
                lemma_prefix_mono(cs, 0, i + 1);
                lemma_char_len(ch);
            }
            let byte_len = utf8_len(ch);
            let utf16_len: u32 = if (ch as u32) < 0x10000 {
                1
            } else {
                2
            };
            if byte_len != 1 {
                anchors.push(
                    Utf16Anchor {
                        byte_offset: byte_off,
                        utf16_offset: utf16_off,
                        byte_len: byte_len as u8,
                        utf16_len: utf16_len as u8,
                    },
                );
            }
            byte_off = byte_off + byte_len as u32;
            utf16_off = utf16_off + utf16_len;
            proof {
                i = i + 1;
            }
        }
        Utf16Mapping { anchors, total_bytes: byte_off, total_utf16: utf16_off, text: Ghost(cs) }
    }

    /// Convert a UTF-8 byte offset to a UTF-16 code unit offset.
    #[verifier::rlimit(40)]
    pub fn byte_to_utf16(&self, byte_offset: usize) -> (r: Result<usize, TextViewError>)
        ensures
            r == spec_byte_to_utf16(self@, byte_offset as int),
    {
        proof {
            use_type_invariant(self);
        }
        let ghost cs = self.text@;
        let ghost n = cs.len() as int;
        let ghost p = non_ascii_positions(cs, n);
        proof {
            lemma_positions(cs, n);
            lemma_prefix_mono(cs, 0, n);
            assert(cs.take(n) =~= cs);
        }
        let total = self.total_bytes as usize;
        if byte_offset > total {
            return Err(TextViewError::OffsetOutOfBounds { offset: byte_offset, len: total });
        }
        // Number of anchors at or before the offset.
        let mut lo: usize = 0;
        let mut hi: usize = self.anchors.len();
        while lo < hi
            invariant
                self.inv(),
                cs == self.text@,
                p == non_ascii_positions(cs, n),
                n == cs.len(),
                0 <= lo <= hi <= self.anchors@.len(),
                forall|t: int| 0 <= t < lo ==> self.anchors@[t].byte_offset <= byte_offset,
                forall|t: int|
                    hi <= t < self.anchors@.len() ==> self.anchors@[t].byte_offset > byte_offset,
            decreases hi - lo,
        {
            let mid = lo + (hi - lo) / 2;
            if (self.anchors[mid].byte_offset as usize) <= byte_offset {
                proof {
                    lemma_positions(cs, n);
                    assert forall|t: int| 0 <= t < mid + 1 implies self.anchors@[t].byte_offset
                        <= byte_offset by {
                        if t < mid {
                            assert(p[t] < p[mid as int]);
                            lemma_prefix_mono(cs, p[t], p[mid as int]);
                            assert(anchor_of(self.anchors@[t], cs, p[t]));
                            assert(anchor_of(self.anchors@[mid as int], cs, p[mid as int]));
                        }
                    }
                }
                lo = mid + 1;
            } else {
                proof {
                    lemma_positions(cs, n);
                    assert forall|t: int| mid <= t < self.anchors@.len() implies self.anchors@[t].byte_offset
                        > byte_offset by {
                        if t > mid {
                            assert(p[mid as int] < p[t]);
                            lemma_prefix_mono(cs, p[mid as int], p[t]);
                            assert(anchor_of(self.anchors@[t], cs, p[t]));
                            assert(anchor_of(self.anchors@[mid as int], cs, p[mid as int]));
                        }
                    }
                }
                hi = mid;
            }
        }
        let idx = lo;
        let ghost b = byte_offset as int;
        if idx == 0 {
            proof {
                // Every character before the first anchor is ASCII.
                let first = if p.len() > 0 { p[0] } else { n };
                assert forall|i: int| 0 <= i < first implies (cs[i] as u32) < 0x80 by {
                    lemma_positions_gap(cs, -1, i);
                }
                lemma_ascii_run(cs, 0, first);
                if p.len() > 0 {
                    assert(anchor_of(self.anchors@[0], cs, p[0]));
                }
                assert(b <= first);
                lemma_ascii_run(cs, 0, b);
                self.lemma_unique_byte(b, b);
            }
            return Ok(byte_offset);
        }
        let anchor = self.anchors[idx - 1];
        let ab = anchor.byte_offset as usize;
        let au = anchor.utf16_offset as usize;
        let blen = anchor.byte_len as usize;
        let ulen = anchor.utf16_len as usize;
        let ghost j = p[idx - 1];
        proof {
            assert(anchor_of(self.anchors@[idx - 1], cs, j));
            lemma_prefix_step(cs, j);
            lemma_prefix_mono(cs, j + 1, n);
        }
        if byte_offset > ab && byte_offset < ab + blen {
            proof {
                assert forall|k: int| 0 <= k <= n implies byte_prefix(cs, k) != b by {
                    if k <= j {
                        lemma_prefix_mono(cs, k, j);
                    } else {
                        lemma_prefix_mono(cs, j + 1, k);
                    }
                }
            }
            return Err(TextViewError::InvalidUtf8Boundary { offset: byte_offset });
        }
        if byte_offset == ab {
            proof {
                self.lemma_unique_byte(b, j);
            }
            return Ok(au);
        }
        let ascii_past = byte_offset - (ab + blen);
        proof {
            let next = if (idx as int) < p.len() { p[idx as int] } else { n };
            assert forall|i: int| j + 1 <= i < next implies (cs[i] as u32) < 0x80 by {
                lemma_positions_gap(cs, idx - 1, i);
            }
            lemma_ascii_run(cs, j + 1, next);
            if (idx as int) < p.len() {
                assert(anchor_of(self.anchors@[idx as int], cs, p[idx as int]));
            }
            let k = j + 1 + ascii_past;
            assert(k <= next);
            lemma_ascii_run(cs, j + 1, k);
            self.lemma_unique_byte(b, k);
        }
        Ok(au + ulen + ascii_past)
    }

    /// The character index at which byte offset `b` falls is `k`, and it is the
    /// only one.
    proof fn lemma_unique_byte(&self, b: int, k: int)
        requires
            self.inv(),
            0 <= k <= self.text@.len(),
            byte_prefix(self.text@, k) == b,
        ensures
            spec_byte_to_utf16(self.text@, b) == Ok::<usize, TextViewError>(
                utf16_prefix(self.text@, k) as usize,
            ),
    {
        let cs = self.text@;
        let n = cs.len() as int;
        assert(cs.take(n) =~= cs);
        lemma_prefix_mono(cs, k, n);
        let k2 = choose|k2: int| 0 <= k2 <= n && byte_prefix(cs, k2) == b;
        assert(0 <= k2 <= n && byte_prefix(cs, k2) == b);
        if k2 < k {
            lemma_prefix_mono(cs, k2, k);
        } else if k2 > k {
            lemma_prefix_mono(cs, k, k2);
        }
    }

    /// The character index at which UTF-16 offset `u` falls is `k`, and it is
    /// the only one.
    proof fn lemma_unique_utf16(&self, u: int, k: int)
        requires
            self.inv(),
            0 <= k <= self.text@.len(),
            utf16_prefix(self.text@, k) == u,
        ensures
            spec_utf16_to_byte(self.text@, u) == Ok::<usize, TextViewError>(
                byte_prefix(self.text@, k) as usize,
            ),
    {
        let cs = self.text@;
        let n = cs.len() as int;
        assert(cs.take(n) =~= cs);
        lemma_prefix_mono(cs, k, n);
        let k2 = choose|k2: int| 0 <= k2 <= n && utf16_prefix(cs, k2) == u;
        assert(0 <= k2 <= n && utf16_prefix(cs, k2) == u);
        if k2 < k {
            lemma_prefix_mono(cs, k2, k);
        } else if k2 > k {
            lemma_prefix_mono(cs, k, k2);
        }
    }

    /// Convert a UTF-16 code unit offset to a UTF-8 byte offset.
    #[verifier::rlimit(40)]
    pub fn utf16_to_byte(&self, utf16_offset: usize) -> (r: Result<usize, TextViewError>)
        ensures
            r == spec_utf16_to_byte(self@, utf16_offset as int),
    {
        proof {
            use_type_invariant(self);
        }
        let ghost cs = self.text@;
        let ghost n = cs.len() as int;
        let ghost p = non_ascii_positions(cs, n);
        proof {
            lemma_positions(cs, n);
            lemma_prefix_mono(cs, 0, n);
            assert(cs.take(n) =~= cs);
        }
        let total = self.total_utf16 as usize;
        if utf16_offset > total {
            return Err(TextViewError::Utf16OffsetOutOfBounds { offset: utf16_offset, total });
        }
        let mut lo: usize = 0;
        let mut hi: usize = self.anchors.len();
        while lo < hi
            invariant
                self.inv(),
                cs == self.text@,
                p == non_ascii_positions(cs, n),
                n == cs.len(),
                0 <= lo <= hi <= self.anchors@.len(),
                forall|t: int| 0 <= t < lo ==> self.anchors@[t].utf16_offset <= utf16_offset,
                forall|t: int|
                    hi <= t < self.anchors@.len() ==> self.anchors@[t].utf16_offset > utf16_offset,
            decreases hi - lo,
        {
            let mid = lo + (hi - lo) / 2;
            if (self.anchors[mid].utf16_offset as usize) <= utf16_offset {
                proof {
                    lemma_positions(cs, n);
                    assert forall|t: int| 0 <= t < mid + 1 implies self.anchors@[t].utf16_offset
                        <= utf16_offset by {
                        if t < mid {
                            assert(p[t] < p[mid as int]);
                            lemma_prefix_mono(cs, p[t], p[mid as int]);
                            assert(anchor_of(self.anchors@[t], cs, p[t]));
                            assert(anchor_of(self.anchors@[mid as int], cs, p[mid as int]));
                        }
                    }
                }
                lo = mid + 1;
            } else {
                proof {
                    lemma_positions(cs, n);
                    assert forall|t: int| mid <= t < self.anchors@.len() implies self.anchors@[t].utf16_offset
                        > utf16_offset by {
                        if t > mid {
                            assert(p[mid as int] < p[t]);
                            lemma_prefix_mono(cs, p[mid as int], p[t]);
                            assert(anchor_of(self.anchors@[t], cs, p[t]));
                            assert(anchor_of(self.anchors@[mid as int], cs, p[mid as int]));
                        }
                    }
                }
                hi = mid;
            }
        }
        let idx = lo;
        let ghost u = utf16_offset as int;
        if idx == 0 {
            proof {
                let first = if p.len() > 0 { p[0] } else { n };
                assert forall|i: int| 0 <= i < first implies (cs[i] as u32) < 0x80 by {
                    lemma_positions_gap(cs, -1, i);
                }
                lemma_ascii_run(cs, 0, first);
                if p.len() > 0 {
                    assert(anchor_of(self.anchors@[0], cs, p[0]));
                }
                assert(u <= first);
                lemma_ascii_run(cs, 0, u);
                self.lemma_unique_utf16(u, u);
            }
            return Ok(utf16_offset);
        }
        let anchor = self.anchors[idx - 1];
        let ab = anchor.byte_offset as usize;
        let au = anchor.utf16_offset as usize;
        let blen = anchor.byte_len as usize;
        let ulen = anchor.utf16_len as usize;
        let ghost j = p[idx - 1];
        proof {
            assert(anchor_of(self.anchors@[idx - 1], cs, j));
            lemma_prefix_step(cs, j);
            lemma_prefix_mono(cs, j + 1, n);
        }
        if utf16_offset > au && utf16_offset < au + ulen {
            proof {
                assert forall|k: int| 0 <= k <= n implies utf16_prefix(cs, k) != u by {
                    if k <= j {
                        lemma_prefix_mono(cs, k, j);
                    } else {
                        lemma_prefix_mono(cs, j + 1, k);
                    }
                }
            }
            return Err(TextViewError::Utf16OffsetOutOfBounds { offset: utf16_offset, total });
        }
        if utf16_offset == au {
            proof {
                self.lemma_unique_utf16(u, j);
            }
            return Ok(ab);
        }
        let ascii_past = utf16_offset - (au + ulen);
        proof {
            let next = if (idx as int) < p.len() { p[idx as int] } else { n };
            assert forall|i: int| j + 1 <= i < next implies (cs[i] as u32) < 0x80 by {
                lemma_positions_gap(cs, idx - 1, i);
            }
            lemma_ascii_run(cs, j + 1, next);
            if (idx as int) < p.len() {
                assert(anchor_of(self.anchors@[idx as int], cs, p[idx as int]));
            }
            let k = j + 1 + ascii_past;
            assert(k <= next);
            lemma_ascii_run(cs, j + 1, k);
            self.lemma_unique_utf16(u, k);
        }
        Ok(ab + blen + ascii_past)
    }
}

impl Clone for Utf16Mapping {
    fn clone(&self) -> (r: Self)
        ensures
            r@ == self@,
    {
        proof {
            use_type_invariant(self);
        }
        Utf16Mapping {
            anchors: self.anchors.clone(),
            total_bytes: self.total_bytes,
            total_utf16: self.total_utf16,
            text: Ghost(self.text@),
        }
    }
}

} // verus!
