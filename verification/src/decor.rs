//! Decoration data model: highlight, marker and widget ranges kept in a set
//! ordered by start offset that follows text changes.

use vstd::prelude::*;
use crate::textview::RangeChange;
use crate::strutil::{decimal, push_chars, push_decimal};

verus! {

/// Errors returned by decoration operations.
#[derive(Debug, Clone, PartialEq, Eq)]
pub enum DecorError {
    InvalidRange { start: usize, end: usize },
    EmptyHighlight { offset: usize },
}

impl DecorError {
    /// Human-readable description of the error.
    pub fn message(&self) -> (r: String)
        ensures
            match *self {
                DecorError::InvalidRange { start, end } => r@ == "invalid range: start "@ + decimal(
                    start as nat,
                ) + " > end "@ + decimal(end as nat),
                DecorError::EmptyHighlight { offset } => r@ == "empty highlight at offset "@
                    + decimal(offset as nat),
            },
    {
        let mut out = String::new();
        match *self {
            DecorError::InvalidRange { start, end } => {
                push_chars(&mut out, "invalid range: start ");
                push_decimal(&mut out, start as u64);
                push_chars(&mut out, " > end ");
                push_decimal(&mut out, end as u64);
            },
            DecorError::EmptyHighlight { offset } => {
                push_chars(&mut out, "empty highlight at offset ");
                push_decimal(&mut out, offset as u64);
            },
        }
        out
    }
}

/// Classification of a decoration range.
#[derive(Debug, Clone, Copy, PartialEq, Eq, Hash)]
pub enum DecorationKind {
    Highlight,
    Marker,
    Widget { block: bool },
}

/// One decoration instance with range, kind, tag, and stacking priority.
#[derive(Debug, Clone, Copy, PartialEq, Eq)]
pub struct Decoration {
    start: usize,
    end: usize,
    kind: DecorationKind,
    tag: u32,
    priority: i16,
}

impl Decoration {
    pub closed spec fn spec_start(self) -> usize {
        self.start
    }

    pub closed spec fn spec_end(self) -> usize {
        self.end
    }

    pub closed spec fn spec_kind(self) -> DecorationKind {
        self.kind
    }

    pub closed spec fn spec_tag(self) -> u32 {
        self.tag
    }

    pub closed spec fn spec_priority(self) -> i16 {
        self.priority
    }

    /// The decoration with the given fields.
    pub closed spec fn make(start: usize, end: usize, kind: DecorationKind, tag: u32, priority: i16) -> Self {
        Decoration { start, end, kind, tag, priority }
    }

    /// A made decoration has exactly the given fields.
    pub proof fn lemma_make(start: usize, end: usize, kind: DecorationKind, tag: u32, priority: i16)
        ensures
            Self::make(start, end, kind, tag, priority).spec_start() == start,
            Self::make(start, end, kind, tag, priority).spec_end() == end,
            Self::make(start, end, kind, tag, priority).spec_kind() == kind,
            Self::make(start, end, kind, tag, priority).spec_tag() == tag,
            Self::make(start, end, kind, tag, priority).spec_priority() == priority,
    {
    }

    pub fn highlight(start: usize, end: usize, tag: u32) -> (r: Result<Self, DecorError>)
        ensures
            start < end <==> r is Ok,
            r matches Ok(d) ==> d == Self::make(start, end, DecorationKind::Highlight, tag, 0),
            start > end ==> r == Err::<Self, DecorError>(DecorError::InvalidRange { start, end }),
            start == end ==> r == Err::<Self, DecorError>(DecorError::EmptyHighlight { offset: start }),
    {
        if start > end {
            return Err(DecorError::InvalidRange { start, end });
        }
        if start == end {
            return Err(DecorError::EmptyHighlight { offset: start });
        }
        Ok(Self { start, end, kind: DecorationKind::Highlight, tag, priority: 0 })
    }

    pub fn marker(line_start: usize, tag: u32) -> (d: Self)
        ensures
            d == Self::make(line_start, line_start, DecorationKind::Marker, tag, 0),
    {
        Self { start: line_start, end: line_start, kind: DecorationKind::Marker, tag, priority: 0 }
    }

    pub fn widget(start: usize, end: usize, tag: u32, block: bool) -> (r: Result<Self, DecorError>)
        ensures
            start <= end <==> r is Ok,
            r matches Ok(d) ==> d == Self::make(start, end, DecorationKind::Widget { block }, tag, 0),
            r matches Err(e) ==> e == (DecorError::InvalidRange { start, end }),
    {
        if start > end {
            return Err(DecorError::InvalidRange { start, end });
        }
        Ok(Self { start, end, kind: DecorationKind::Widget { block }, tag, priority: 0 })
    }

    pub fn with_priority(self, priority: i16) -> (d: Self)
        ensures
            d == Self::make(self.spec_start(), self.spec_end(), self.spec_kind(), self.spec_tag(), priority),
    {
        let mut d = self;
        d.priority = priority;
        d
    }

    pub fn start(&self) -> (r: usize)
        ensures
            r == self.spec_start(),
    {
        self.start
    }

    pub fn end(&self) -> (r: usize)
        ensures
            r == self.spec_end(),
    {
        self.end
    }

    pub fn kind(&self) -> (r: DecorationKind)
        ensures
            r == self.spec_kind(),
    {
        self.kind
    }

    pub fn tag(&self) -> (r: u32)
        ensures
            r == self.spec_tag(),
    {
        self.tag
    }

    pub fn priority(&self) -> (r: i16)
        ensures
            r == self.spec_priority(),
    {
        self.priority
    }
}

fn shift_exec(x: usize, old_end: usize, new_end: usize) -> (r: usize)
    ensures
        r == shift(x, old_end, new_end),
{
    if x >= old_end {
        let d = x - old_end;
        if d <= usize::MAX - new_end {
            d + new_end
        } else {
            new_end - (usize::MAX - d) - 1
        }
    } else {
        let d = old_end - x;
        if new_end >= d {
            new_end - d
        } else {
            usize::MAX - (d - new_end) + 1
        }
    }
}

fn map_one(d: Decoration, change_start: usize, old_end: usize, new_end: usize) -> (r: Option<
    Decoration,
>)
    ensures
        r == map_decoration(d, change_start, old_end, new_end),
{
    if d.end <= change_start {
        return Some(d);
    }
    if d.start >= old_end {
        return Some(
            Decoration {
                start: shift_exec(d.start, old_end, new_end),
                end: shift_exec(d.end, old_end, new_end),
                kind: d.kind,
                tag: d.tag,
                priority: d.priority,
            },
        );
    }
    let clamped_start = if d.start >= change_start {
        change_start
    } else {
        d.start
    };
    let clamped_end = if d.end > old_end {
        shift_exec(d.end, old_end, new_end)
    } else {
        new_end
    };
    match d.kind {
        DecorationKind::Highlight => {
            if clamped_start < clamped_end {
                Some(Decoration { start: clamped_start, end: clamped_end, kind: d.kind, tag: d.tag, priority: d.priority })
            } else {
                None
            }
        },
        DecorationKind::Marker => {
            if d.start >= change_start && d.start < old_end {
                None
            } else {
                Some(d)
            }
        },
        DecorationKind::Widget { .. } => {
            if d.start >= change_start && d.end <= old_end {
                None
            } else {
                Some(Decoration { start: clamped_start, end: clamped_end, kind: d.kind, tag: d.tag, priority: d.priority })
            }
        },
    }
}

/// Stable identifier assigned when a decoration is added to a set.
#[derive(Debug, Clone, Copy, PartialEq, Eq, Hash)]
pub struct DecorationId(u64);

impl DecorationId {
    pub closed spec fn spec_raw(self) -> u64 {
        self.0
    }

    /// Returns the underlying raw identifier for external boundaries.
    pub fn into_raw(self) -> (r: u64)
        ensures
            r == self.spec_raw(),
    {
        self.0
    }

    /// Reconstructs a decoration identifier from a raw value.
    pub fn from_raw(raw: u64) -> (id: Self)
        ensures
            id.spec_raw() == raw,
    {
        Self(raw)
    }
}

#[derive(Debug, Clone, Copy)]
struct DecorationEntry {
    id: DecorationId,
    decoration: Decoration,
}

/// Sorted container of decorations with range query and text-change tracking.
#[derive(Debug)]
pub struct DecorationSet {
    entries: Vec<DecorationEntry>,
    next_id: u64,
}

/// Raw identifiers of the entries.
pub open spec fn ids_of(es: Seq<(DecorationId, Decoration)>) -> Seq<u64> {
    es.map_values(|e: (DecorationId, Decoration)| e.0.spec_raw())
}

/// Every identifier occurs once and lies below `next`.
pub open spec fn ids_wf(es: Seq<(DecorationId, Decoration)>, next: u64) -> bool {
    &&& forall|i: int| 0 <= i < es.len() ==> (#[trigger] es[i]).0.spec_raw() < next
    &&& forall|i: int, j: int|
        0 <= i < j < es.len() ==> (#[trigger] es[i]).0.spec_raw() != (#[trigger] es[j]).0.spec_raw()
}

/// A decoration touches the query range `[start, end)`.
pub open spec fn in_range(d: Decoration, start: usize, end: usize) -> bool {
    if d.spec_start() == d.spec_end() {
        d.spec_start() >= start && d.spec_start() < end
    } else {
        d.spec_start() < end && d.spec_end() > start
    }
}

/// `x` moved by the change `old_end -> new_end`, in machine arithmetic modulo
/// the word size.
pub open spec fn shift(x: usize, old_end: usize, new_end: usize) -> usize {
    let v = x as int - old_end as int + new_end as int;
    (if v < 0 {
        v + usize::MAX + 1
    } else if v > usize::MAX {
        v - usize::MAX - 1
    } else {
        v
    }) as usize
}

/// A decoration after the text change `[change_start, old_end) -> [change_start, new_end)`:
/// untouched before the change, shifted after it; an overlapping highlight is
/// clamped and dropped when it becomes empty, an overlapping marker is dropped,
/// and a widget is dropped when the change covers it and clamped otherwise.
pub open spec fn map_decoration(d: Decoration, change_start: usize, old_end: usize, new_end: usize) -> Option<
    Decoration,
> {
    let s = d.spec_start();
    let e = d.spec_end();
    let clamped_start = if s >= change_start {
        change_start
    } else {
        s
    };
    let clamped_end = if e > old_end {
        shift(e, old_end, new_end)
    } else {
        new_end
    };
    if e <= change_start {
        Some(d)
    } else if s >= old_end {
        Some(
            Decoration::make(
                shift(s, old_end, new_end),
                shift(e, old_end, new_end),
                d.spec_kind(),
                d.spec_tag(),
                d.spec_priority(),
            ),
        )
    } else {
        match d.spec_kind() {
            DecorationKind::Highlight => if clamped_start < clamped_end {
                Some(
                    Decoration::make(
                        clamped_start,
                        clamped_end,
                        d.spec_kind(),
                        d.spec_tag(),
                        d.spec_priority(),
                    ),
                )
            } else {
                None
            },
            DecorationKind::Marker => if s >= change_start && s < old_end {
                None
            } else {
                Some(d)
            },
            DecorationKind::Widget { .. } => if s >= change_start && e <= old_end {
                None
            } else {
                Some(
                    Decoration::make(
                        clamped_start,
                        clamped_end,
                        d.spec_kind(),
                        d.spec_tag(),
                        d.spec_priority(),
                    ),
                )
            },
        }
    }
}

/// Mapping a decoration through the text change `[cs, oe) -> [cs, ne)` of a
/// text of `old_len` bytes moves it with the text around it: an end after
/// the replaced bytes moves by `ne - oe`, an end before the change stays, an
/// end inside the replaced bytes lands at the end of the replacement; a
/// start after the replaced bytes moves by `ne - oe` and a start before the
/// change stays. The result keeps its kind, tag and priority, starts no later
/// than it ends, and ends within the new text.
pub proof fn lemma_map_decoration_follows_text(d: Decoration, cs: usize, oe: usize, ne: usize, old_len: int)
    requires
        cs <= oe <= old_len,
        cs <= ne,
        d.spec_start() <= d.spec_end() <= old_len,
        d.spec_kind() is Marker ==> d.spec_start() == d.spec_end(),
        old_len - oe + ne <= usize::MAX,
    ensures
        d.spec_end() <= cs || (d.spec_start() >= oe && d.spec_end() > cs) ==> map_decoration(d, cs, oe, ne) is Some,
        d.spec_kind() is Highlight && d.spec_start() < cs && d.spec_end() > oe ==> map_decoration(d, cs, oe, ne) is Some,
        map_decoration(d, cs, oe, ne) matches Some(m) ==> {
            &&& d.spec_end() > oe ==> m.spec_end() == d.spec_end() - oe + ne
            &&& d.spec_end() <= cs ==> m.spec_end() == d.spec_end()
            &&& cs < d.spec_end() <= oe ==> m.spec_end() == ne
            &&& d.spec_start() >= oe && d.spec_end() > cs ==> m.spec_start() == d.spec_start() - oe + ne
            &&& d.spec_start() < cs ==> m.spec_start() == d.spec_start()
            &&& m.spec_start() <= m.spec_end() <= old_len - oe + ne
            &&& m.spec_kind() == d.spec_kind()
            &&& m.spec_tag() == d.spec_tag()
            &&& m.spec_priority() == d.spec_priority()
        },
{
    let s = d.spec_start();
    let e = d.spec_end();
    if e > oe {
        assert(shift(e, oe, ne) == e - oe + ne);
    }
    if s >= oe {
        assert(shift(s, oe, ne) == s - oe + ne);
    }
    if let Some(m) = map_decoration(d, cs, oe, ne) {
        if e <= cs {
        } else if s >= oe {
            Decoration::lemma_make(shift(s, oe, ne), shift(e, oe, ne), d.spec_kind(), d.spec_tag(), d.spec_priority());
        } else {
            let clamped_start = if s >= cs { cs } else { s };
            let clamped_end = if e > oe { shift(e, oe, ne) } else { ne };
            Decoration::lemma_make(clamped_start, clamped_end, d.spec_kind(), d.spec_tag(), d.spec_priority());
        }
    }
}

/// The entries after a text change: each decoration mapped, dropped ones removed.
pub open spec fn map_entries(
    es: Seq<(DecorationId, Decoration)>,
    change_start: usize,
    old_end: usize,
    new_end: usize,
) -> Seq<(DecorationId, Decoration)>
    decreases es.len(),
{
    if es.len() == 0 {
        Seq::empty()
    } else {
        let prev = map_entries(es.drop_last(), change_start, old_end, new_end);
        match map_decoration(es.last().1, change_start, old_end, new_end) {
            Some(d) => prev.push((es.last().0, d)),
            None => prev,
        }
    }
}

/// Well-formed decorations: each starts no later than it ends, and a marker
/// is empty.
pub open spec fn decorations_wf(es: Seq<(DecorationId, Decoration)>) -> bool {
    forall|i: int|
        0 <= i < es.len() ==> (#[trigger] es[i]).1.spec_start() <= es[i].1.spec_end() && (es[i].1.spec_kind() is Marker
            ==> es[i].1.spec_start() == es[i].1.spec_end())
}

/// A change that replaces nothing with nothing moves no decoration: every
/// decoration stays as it was, under its id and in its place.
pub proof fn lemma_map_empty_change_keeps(es: Seq<(DecorationId, Decoration)>, x: usize)
    requires
        decorations_wf(es),
    ensures
        map_entries(es, x, x, x) == es,
    decreases es.len(),
{
    if es.len() > 0 {
        let rest = es.drop_last();
        assert forall|i: int| 0 <= i < rest.len() implies (#[trigger] rest[i]).1.spec_start() <= rest[i].1.spec_end()
            && (rest[i].1.spec_kind() is Marker ==> rest[i].1.spec_start() == rest[i].1.spec_end()) by {
            assert(rest[i] == es[i]);
        }
        lemma_map_empty_change_keeps(rest, x);
        let d = es.last().1;
        assert(es[es.len() - 1] == es.last());
        assert(shift(d.spec_start(), x, x) == d.spec_start());
        assert(shift(d.spec_end(), x, x) == d.spec_end());
        assert(map_decoration(d, x, x, x) == Some(d));
        assert(rest.push(es.last()) =~= es);
    }
}

/// After a change, every entry is the mapping of an entry from before, under
/// the same id; an entry whose decoration survives the change is kept, and
/// there are no more entries than before.
pub proof fn lemma_map_entries_source(es: Seq<(DecorationId, Decoration)>, cs: usize, oe: usize, ne: usize)
    ensures
        map_entries(es, cs, oe, ne).len() <= es.len(),
        forall|k: int|
            0 <= k < map_entries(es, cs, oe, ne).len() ==> exists|i: int|
                0 <= i < es.len() && es[i].0 == (#[trigger] map_entries(es, cs, oe, ne)[k]).0
                    && map_decoration(es[i].1, cs, oe, ne) == Some(map_entries(es, cs, oe, ne)[k].1),
        forall|i: int|
            0 <= i < es.len() && (#[trigger] map_decoration(es[i].1, cs, oe, ne)) is Some ==> exists|k: int|
                0 <= k < map_entries(es, cs, oe, ne).len() && map_entries(es, cs, oe, ne)[k] == (
                    es[i].0,
                    map_decoration(es[i].1, cs, oe, ne)->0,
                ),
    decreases es.len(),
{
    if es.len() > 0 {
        let rest = es.drop_last();
        lemma_map_entries_source(rest, cs, oe, ne);
        let prev = map_entries(rest, cs, oe, ne);
        let r = map_entries(es, cs, oe, ne);
        let last = es[es.len() - 1];
        assert(es.last() == last);
        assert forall|k: int| 0 <= k < r.len() implies exists|i: int|
            0 <= i < es.len() && es[i].0 == (#[trigger] r[k]).0 && map_decoration(es[i].1, cs, oe, ne) == Some(r[k].1) by {
            if k < prev.len() {
                assert(r[k] == prev[k]);
                let i = choose|i: int|
                    0 <= i < rest.len() && rest[i].0 == prev[k].0 && map_decoration(rest[i].1, cs, oe, ne) == Some(prev[k].1);
                assert(es[i] == rest[i]);
            } else {
                assert(r[k] == (last.0, map_decoration(last.1, cs, oe, ne)->0));
            }
        }
        assert forall|i: int|
            0 <= i < es.len() && (#[trigger] map_decoration(es[i].1, cs, oe, ne)) is Some implies exists|k: int|
                0 <= k < r.len() && r[k] == (es[i].0, map_decoration(es[i].1, cs, oe, ne)->0) by {
            if i < es.len() - 1 {
                assert(es[i] == rest[i]);
                assert(map_decoration(rest[i].1, cs, oe, ne) is Some);
                let k = choose|k: int|
                    0 <= k < prev.len() && prev[k] == (rest[i].0, map_decoration(rest[i].1, cs, oe, ne)->0);
                assert(r[k] == prev[k]);
            } else {
                assert(r[prev.len() as int] == (last.0, map_decoration(last.1, cs, oe, ne)->0));
            }
        }
    }
}

/// The entries after a sequence of text changes, applied in order.
pub open spec fn map_entries_through(es: Seq<(DecorationId, Decoration)>, changes: Seq<RangeChange>) -> Seq<
    (DecorationId, Decoration),
>
    decreases changes.len(),
{
    if changes.len() == 0 {
        es
    } else {
        let c = changes.last();
        map_entries(
            map_entries_through(es, changes.drop_last()),
            c.spec_start(),
            c.spec_old_end(),
            c.spec_new_end(),
        )
    }
}

/// Entries are ordered by start offset.
pub open spec fn is_sorted(es: Seq<(DecorationId, Decoration)>) -> bool {
    forall|i: int, j: int|
        0 <= i < j < es.len() ==> (#[trigger] es[i]).1.spec_start() <= (#[trigger] es[j]).1.spec_start()
}

impl DecorationSet {
    /// The entries of the set in order, each with its identifier.
    pub closed spec fn spec_entries(self) -> Seq<(DecorationId, Decoration)> {
        self.entries@.map_values(|e: DecorationEntry| (e.id, e.decoration))
    }

    /// The identifiers handed out so far: all below the counter.
    pub open spec fn spec_issued(self) -> Set<u64> {
        Set::new(|x: u64| x < self.spec_next_id())
    }

    /// The identifier that the next added decoration receives.
    pub closed spec fn spec_next_id(self) -> u64 {
        self.next_id
    }

    #[verifier::type_invariant]
    closed spec fn inv(self) -> bool {
        ids_wf(self.spec_entries(), self.next_id)
    }

    pub fn new() -> (s: Self)
        ensures
            s.spec_entries() == Seq::<(DecorationId, Decoration)>::empty(),
            s.spec_next_id() == 0,
    {
        let s = Self { entries: Vec::new(), next_id: 0 };
        assert(s.spec_entries() =~= Seq::<(DecorationId, Decoration)>::empty());
        s
    }

    /// Decorations are added after every entry that starts at or before them.
    pub open spec fn insert_position_ok(self, p: int, start: usize) -> bool {
        &&& forall|i: int| 0 <= i < p ==> (#[trigger] self.spec_entries()[i]).1.spec_start() <= start
        &&& forall|i: int|
            p <= i < self.spec_entries().len() ==> (#[trigger] self.spec_entries()[i]).1.spec_start()
                > start
    }

    fn partition_point(&self, start: usize) -> (p: usize)
        ensures
            p <= self.spec_entries().len(),
            is_sorted(self.spec_entries()) ==> self.insert_position_ok(p as int, start),
    {
        let mut lo: usize = 0;
        let mut hi: usize = self.entries.len();
        while lo < hi
            invariant
                0 <= lo <= hi <= self.entries@.len(),
                self.spec_entries().len() == self.entries@.len(),
                is_sorted(self.spec_entries()) ==> (forall|i: int|
                    0 <= i < lo ==> (#[trigger] self.spec_entries()[i]).1.spec_start() <= start),
                is_sorted(self.spec_entries()) ==> (forall|i: int|
                    hi <= i < self.spec_entries().len() ==> (#[trigger] self.spec_entries()[i]).1.spec_start()
                        > start),
            decreases hi - lo,
        {
            let mid = lo + (hi - lo) / 2;
            assert(self.spec_entries()[mid as int].1 == self.entries@[mid as int].decoration);
            if self.entries[mid].decoration.start <= start {
                lo = mid + 1;
            } else {
                hi = mid;
            }
        }
        lo
    }

    /// Adds a decoration after all entries that start at or before it and
    /// returns its new identifier.
    pub fn add(&mut self, decoration: Decoration) -> (id: DecorationId)
        requires
            old(self).spec_next_id() < u64::MAX,
        ensures
            id.spec_raw() == old(self).spec_next_id(),
            final(self).spec_next_id() == old(self).spec_next_id() + 1,
            forall|i: int| 0 <= i < old(self).spec_entries().len() ==> (#[trigger] old(self).spec_entries()[i]).0 != id,
            !old(self).spec_issued().contains(id.spec_raw()),
            final(self).spec_issued() == old(self).spec_issued().insert(id.spec_raw()),
            exists|p: int|
                #![trigger old(self).spec_entries().insert(p, (id, decoration))]
                0 <= p <= old(self).spec_entries().len() && final(self).spec_entries()
                    == old(self).spec_entries().insert(p, (id, decoration)) && (is_sorted(
                    old(self).spec_entries(),
                ) ==> old(self).insert_position_ok(p, decoration.spec_start())),
            is_sorted(old(self).spec_entries()) ==> is_sorted(final(self).spec_entries()),
    {
        proof {
            use_type_invariant(&*self);
        }
        let id = DecorationId(self.next_id);
        let pos = self.partition_point(decoration.start);
        let ghost old_entries = self.spec_entries();
        let ghost old_self = *self;
        self.next_id = self.next_id + 1;
        let mut entries: Vec<DecorationEntry> = Vec::new();
        std::mem::swap(&mut entries, &mut self.entries);
        entries.insert(pos, DecorationEntry { id, decoration });
        assert(entries@.map_values(|e: DecorationEntry| (e.id, e.decoration)) =~= old_entries.insert(pos as int, (id, decoration)));
        self.entries = entries;
        assert(self.spec_entries() =~= old_entries.insert(pos as int, (id, decoration)));
        proof {
            let ne = self.spec_entries();
            if is_sorted(old_entries) {
            assert forall|i: int, j: int| 0 <= i < j < ne.len() implies (#[trigger] ne[i]).1.spec_start()
                <= (#[trigger] ne[j]).1.spec_start() by {
                    if j < pos {
                        assert(ne[i] == old_entries[i] && ne[j] == old_entries[j]);
                    } else if j == pos {
                        assert(ne[i] == old_entries[i]);
                    } else if i == pos {
                        assert(ne[j] == old_entries[j - 1]);
                    } else if i < pos {
                        assert(ne[i] == old_entries[i] && ne[j] == old_entries[j - 1]);
                    } else {
                        assert(ne[i] == old_entries[i - 1] && ne[j] == old_entries[j - 1]);
                    }
            }
            }
            assert(0 <= pos <= old_entries.len() && self.spec_entries() == old_entries.insert(pos as int, (id, decoration))
                && (is_sorted(old_entries) ==> old_self.insert_position_ok(pos as int, decoration.spec_start())));
        }
        id
    }

    /// The identifiers a set hands out never repeat: `add` returns the
    /// set's counter and raises it, and no operation lowers it, so an id
    /// returned on a set whose counter was `n0` differs from every id
    /// returned after the counter passed `n0`.
    pub proof fn lemma_ids_never_repeat(earlier: DecorationId, later: DecorationId, n0: u64, n1: u64)
        requires
            earlier.spec_raw() == n0,
            later.spec_raw() == n1,
            n0 < n1,
        ensures
            earlier != later,
    {
    }

    /// Removes the decoration with the given identifier; reports whether it was present.
    pub fn remove(&mut self, id: DecorationId) -> (r: bool)
        ensures
            r == ids_of(old(self).spec_entries()).contains(id.spec_raw()),
            r ==> exists|i: int|
                0 <= i < old(self).spec_entries().len() && (#[trigger] old(
                    self,
                ).spec_entries()[i]).0.spec_raw() == id.spec_raw() && final(self).spec_entries()
                    == old(self).spec_entries().remove(i),
            !r ==> final(self).spec_entries() == old(self).spec_entries(),
            final(self).spec_next_id() == old(self).spec_next_id(),
    {
        proof {
            use_type_invariant(&*self);
        }
        let ghost old_entries = self.spec_entries();
        let mut i: usize = 0;
        while i < self.entries.len()
            invariant
                0 <= i <= self.entries@.len(),
                old_entries == self.spec_entries(),
                old_entries == old(self).spec_entries(),
                self.spec_next_id() == old(self).spec_next_id(),
                ids_wf(old_entries, self.spec_next_id()),
                old_entries.len() == self.entries@.len(),
                forall|j: int| 0 <= j < i ==> (#[trigger] old_entries[j]).0.spec_raw() != id.spec_raw(),
            decreases self.entries@.len() - i,
        {
            assert(old_entries[i as int].0 == self.entries@[i as int].id);
            if self.entries[i].id.0 == id.0 {
                let mut entries: Vec<DecorationEntry> = Vec::new();
                std::mem::swap(&mut entries, &mut self.entries);
                entries.remove(i);
                let ghost ne = old_entries.remove(i as int);
                assert(entries@.map_values(|e: DecorationEntry| (e.id, e.decoration)) =~= ne);
                proof {
                    assert forall|a: int, b: int| 0 <= a < b < ne.len() implies (#[trigger] ne[a]).0.spec_raw()
                        != (#[trigger] ne[b]).0.spec_raw() by {
                        let a0 = if a < i { a } else { a + 1 };
                        let b0 = if b < i { b } else { b + 1 };
                        assert(ne[a] == old_entries[a0] && ne[b] == old_entries[b0]);
                    }
                    assert forall|a: int| 0 <= a < ne.len() implies (#[trigger] ne[a]).0.spec_raw() < self.next_id by {
                        let a0 = if a < i { a } else { a + 1 };
                        assert(ne[a] == old_entries[a0]);
                    }
                }
                self.entries = entries;
                assert(ids_of(old_entries)[i as int] == id.spec_raw());
                return true;
            }
            i = i + 1;
        }
        proof {
            if ids_of(old_entries).contains(id.spec_raw()) {
                let j = choose|j: int| 0 <= j < ids_of(old_entries).len() && ids_of(old_entries)[j] == id.spec_raw();
                assert(old_entries[j].0.spec_raw() == id.spec_raw());
            }
        }
        false
    }

    /// The decorations that touch `[start, end)`: empty ones that lie in it and
    /// non-empty ones that overlap it, in order.
    pub fn query_range(&self, start: usize, end: usize) -> (r: Vec<(DecorationId, &Decoration)>)
        ensures
            r@.map_values(|x: (DecorationId, &Decoration)| (x.0, *x.1)) == self.spec_entries().filter(
                |e: (DecorationId, Decoration)| in_range(e.1, start, end),
            ),
    {
        let ghost es = self.spec_entries();
        let ghost f = |e: (DecorationId, Decoration)| in_range(e.1, start, end);
        let mut out: Vec<(DecorationId, &Decoration)> = Vec::new();
        let mut i: usize = 0;
        assert(es.take(0) =~= Seq::<(DecorationId, Decoration)>::empty());
        while i < self.entries.len()
            invariant
                0 <= i <= self.entries@.len(),
                es == self.spec_entries(),
                es.len() == self.entries@.len(),
                f == (|e: (DecorationId, Decoration)| in_range(e.1, start, end)),
                out@.map_values(|x: (DecorationId, &Decoration)| (x.0, *x.1)) == es.take(i as int).filter(f),
            decreases self.entries@.len() - i,
        {
            reveal_with_fuel(Seq::<_>::filter, 1);
            let e = &self.entries[i];
            assert(es[i as int] == (e.id, e.decoration));
            let d = &e.decoration;
            let hit = if d.start == d.end {
                d.start >= start && d.start < end
            } else {
                d.start < end && d.end > start
            };
            if hit {
                out.push((e.id, d));
            }
            assert(es.take(i + 1).drop_last() =~= es.take(i as int));
            i = i + 1;
            assert(out@.map_values(|x: (DecorationId, &Decoration)| (x.0, *x.1)) =~= es.take(i as int).filter(f));
        }
        assert(es.take(i as int) =~= es);
        out
    }

    /// The decorations carrying `tag`, in order.
    pub fn query_tag(&self, tag: u32) -> (r: Vec<(DecorationId, &Decoration)>)
        ensures
            r@.map_values(|x: (DecorationId, &Decoration)| (x.0, *x.1)) == self.spec_entries().filter(
                |e: (DecorationId, Decoration)| e.1.spec_tag() == tag,
            ),
    {
        let ghost es = self.spec_entries();
        let ghost f = |e: (DecorationId, Decoration)| e.1.spec_tag() == tag;
        let mut out: Vec<(DecorationId, &Decoration)> = Vec::new();
        let mut i: usize = 0;
        assert(es.take(0) =~= Seq::<(DecorationId, Decoration)>::empty());
        while i < self.entries.len()
            invariant
                0 <= i <= self.entries@.len(),
                es == self.spec_entries(),
                es.len() == self.entries@.len(),
                f == (|e: (DecorationId, Decoration)| e.1.spec_tag() == tag),
                out@.map_values(|x: (DecorationId, &Decoration)| (x.0, *x.1)) == es.take(i as int).filter(f),
            decreases self.entries@.len() - i,
        {
            reveal_with_fuel(Seq::<_>::filter, 1);
            let e = &self.entries[i];
            assert(es[i as int] == (e.id, e.decoration));
            if e.decoration.tag == tag {
                out.push((e.id, &e.decoration));
            }
            assert(es.take(i + 1).drop_last() =~= es.take(i as int));
            i = i + 1;
            assert(out@.map_values(|x: (DecorationId, &Decoration)| (x.0, *x.1)) =~= es.take(i as int).filter(f));
        }
        assert(es.take(i as int) =~= es);
        out
    }

    /// All decorations in order, each with its identifier.
    pub fn entries(&self) -> (r: Vec<(DecorationId, &Decoration)>)
        ensures
            r@.map_values(|x: (DecorationId, &Decoration)| (x.0, *x.1)) == self.spec_entries(),
    {
        let ghost es = self.spec_entries();
        let mut out: Vec<(DecorationId, &Decoration)> = Vec::new();
        let mut i: usize = 0;
        assert(es.take(0) =~= Seq::<(DecorationId, Decoration)>::empty());
        while i < self.entries.len()
            invariant
                0 <= i <= self.entries@.len(),
                es == self.spec_entries(),
                es.len() == self.entries@.len(),
                out@.map_values(|x: (DecorationId, &Decoration)| (x.0, *x.1)) == es.take(i as int),
            decreases self.entries@.len() - i,
        {
            let e = &self.entries[i];
            assert(es[i as int] == (e.id, e.decoration));
            let d = &e.decoration;
            let ghost before = out@.map_values(|x: (DecorationId, &Decoration)| (x.0, *x.1));
            out.push((e.id, d));
            assert(out@.map_values(|x: (DecorationId, &Decoration)| (x.0, *x.1)) =~= before.push((e.id, e.decoration)));
            assert(es.take(i + 1) =~= es.take(i as int).push(es[i as int]));
            i = i + 1;
        }
        assert(es.take(i as int) =~= es);
        out
    }

    /// Iterates over all decorations in order, each with its identifier.
    pub fn iter(&self) -> (r: std::vec::IntoIter<(DecorationId, &Decoration)>)
        ensures
            vstd::std_specs::iter::IteratorSpec::remaining(&r).map_values(
                |x: (DecorationId, &Decoration)| (x.0, *x.1),
            ) == self.spec_entries(),
    {
        let v = self.entries();
        v.into_iter()
    }

    /// Shift every decoration through the text change
    /// `[change_start, old_end) -> [change_start, new_end)`.
    pub fn map_through_change(&mut self, change_start: usize, old_end: usize, new_end: usize)
        ensures
            final(self).spec_entries() == map_entries(
                old(self).spec_entries(),
                change_start,
                old_end,
                new_end,
            ),
            final(self).spec_next_id() == old(self).spec_next_id(),
    {
        proof {
            use_type_invariant(&*self);
        }
        let ghost es = self.spec_entries();
        let mut out: Vec<DecorationEntry> = Vec::new();
        let ghost mut src: Seq<int> = Seq::empty();
        let mut i: usize = 0;
        assert(es.take(0) =~= Seq::<(DecorationId, Decoration)>::empty());
        while i < self.entries.len()
            invariant
                0 <= i <= self.entries@.len(),
                es == self.spec_entries(),
                es == old(self).spec_entries(),
                self.spec_next_id() == old(self).spec_next_id(),
                ids_wf(es, self.spec_next_id()),
                es.len() == self.entries@.len(),
                out@.map_values(|e: DecorationEntry| (e.id, e.decoration)) == map_entries(
                    es.take(i as int),
                    change_start,
                    old_end,
                    new_end,
                ),
                src.len() == out@.len(),
                forall|k: int| 0 <= k < src.len() ==> 0 <= #[trigger] src[k] < i,
                forall|k: int, l: int| 0 <= k < l < src.len() ==> #[trigger] src[k] < #[trigger] src[l],
                forall|k: int| 0 <= k < src.len() ==> (#[trigger] out@[k]).id == es[src[k]].0,
            decreases self.entries@.len() - i,
        {
            let entry = self.entries[i];
            assert(es[i as int] == (entry.id, entry.decoration));
            let ghost before = out@.map_values(|e: DecorationEntry| (e.id, e.decoration));
            let mapped = map_one(entry.decoration, change_start, old_end, new_end);
            assert(es.take(i + 1).drop_last() =~= es.take(i as int));
            assert(es.take(i + 1).last() == es[i as int]);
            match mapped {
                Some(d) => {
                    out.push(DecorationEntry { id: entry.id, decoration: d });
                    proof {
                        src = src.push(i as int);
                    }
                    assert(out@.map_values(|e: DecorationEntry| (e.id, e.decoration)) =~= before.push((entry.id, d)));
                },
                None => {},
            }
            i = i + 1;
        }
        assert(es.take(i as int) =~= es);
        let ghost ne = out@.map_values(|e: DecorationEntry| (e.id, e.decoration));
        proof {
            assert forall|a: int, b: int| 0 <= a < b < ne.len() implies (#[trigger] ne[a]).0.spec_raw()
                != (#[trigger] ne[b]).0.spec_raw() by {
                assert(out@[a].id == es[src[a]].0);
                assert(out@[b].id == es[src[b]].0);
                assert(src[a] < src[b]);
            }
            assert forall|a: int| 0 <= a < ne.len() implies (#[trigger] ne[a]).0.spec_raw() < self.next_id by {
                assert(out@[a].id == es[src[a]].0);
            }
        }
        self.entries = out;
    }

    /// Shift every decoration through each change in turn.
    pub fn map_through_changes(&mut self, changes: &[RangeChange])
        ensures
            final(self).spec_entries() == map_entries_through(old(self).spec_entries(), changes@),
            final(self).spec_next_id() == old(self).spec_next_id(),
    {
        let mut k: usize = 0;
        assert(changes@.take(0) =~= Seq::<RangeChange>::empty());
        while k < changes.len()
            invariant
                0 <= k <= changes@.len(),
                self.spec_next_id() == old(self).spec_next_id(),
                self.spec_entries() == map_entries_through(old(self).spec_entries(), changes@.take(k as int)),
            decreases changes@.len() - k,
        {
            let change = &changes[k];
            self.map_through_change(change.start(), change.old_end(), change.new_end());
            assert(changes@.take(k + 1).drop_last() =~= changes@.take(k as int));
            assert(changes@.take(k + 1).last() == changes@[k as int]);
            k = k + 1;
        }
        assert(changes@.take(k as int) =~= changes@);
    }

    pub fn len(&self) -> (r: usize)
        ensures
            r == self.spec_entries().len(),
    {
        self.entries.len()
    }

    pub fn is_empty(&self) -> (r: bool)
        ensures
            r == (self.spec_entries().len() == 0),
    {
        self.entries.len() == 0
    }

    pub fn clear(&mut self)
        ensures
            final(self).spec_entries() == Seq::<(DecorationId, Decoration)>::empty(),
            final(self).spec_next_id() == old(self).spec_next_id(),
    {
        self.entries = Vec::new();
        assert(self.spec_entries() =~= Seq::<(DecorationId, Decoration)>::empty());
    }
}

impl Clone for DecorationSet {
    fn clone(&self) -> (r: Self)
        ensures
            r.spec_entries() == self.spec_entries(),
            r.spec_next_id() == self.spec_next_id(),
    {
        proof {
            use_type_invariant(self);
        }
        let mut entries: Vec<DecorationEntry> = Vec::new();
        let mut i: usize = 0;
        while i < self.entries.len()
            invariant
                0 <= i <= self.entries@.len(),
                entries@ == self.entries@.subrange(0, i as int),
            decreases self.entries@.len() - i,
        {
            entries.push(self.entries[i]);
            i = i + 1;
            assert(entries@ =~= self.entries@.subrange(0, i as int));
        }
        assert(entries@ =~= self.entries@);
        DecorationSet { entries, next_id: self.next_id }
    }
}

impl Default for DecorationSet {
    fn default() -> (s: Self)
        ensures
            s.spec_entries() == Seq::<(DecorationId, Decoration)>::empty(),
            s.spec_next_id() == 0,
    {
        Self::new()
    }
}

} // verus!
