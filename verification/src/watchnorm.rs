//! Host-agnostic file watcher event normalization and batch coalescing.

use vstd::prelude::*;

verus! {

/// Host-level watcher kind before normalization.
#[derive(Debug, Clone, Copy, PartialEq, Eq)]
pub enum RawWatchKind {
    Create,
    Remove,
    Modify,
    Rename,
}

/// Optional rename-side hint carried by the host event.
#[derive(Debug, Clone, Copy, PartialEq, Eq)]
pub enum RenameHint {
    From,
    To,
    Both,
    Any,
}

/// Host-agnostic watcher input.
#[derive(Debug, Clone, PartialEq, Eq)]
pub struct RawWatchEvent {
    pub kind: RawWatchKind,
    pub paths: Vec<String>,
    pub rename_from: Option<String>,
    pub rename_to: Option<String>,
    pub rename_hint: Option<RenameHint>,
    pub generation: u64,
}

/// Consumer-facing normalized watcher event.
#[derive(Debug, Clone, PartialEq, Eq)]
pub struct NormalizedWatchEvent {
    pub generation: u64,
    pub kind: NormalizedWatchKind,
}

/// Consumer-facing normalized watcher kind.
#[derive(Debug, Clone, PartialEq, Eq)]
pub enum NormalizedWatchKind {
    Create { path: String },
    Remove { path: String },
    Modify { path: String },
    Rename { from: String, to: String },
    PartialRename { from: Option<String>, to: Option<String> },
}

/// Result returned from a batch drain.
#[derive(Debug, Clone, PartialEq, Eq)]
pub struct FlushResult {
    pub events: Vec<NormalizedWatchEvent>,
    pub discarded_stale: usize,
}

/// Stateful batch normalizer for watcher events.
#[derive(Debug, Clone)]
pub struct WatchBatchNormalizer {
    pending: Vec<RawWatchEvent>,
}

// ---------------------------------------------------------------------------
// Abstract values
// ---------------------------------------------------------------------------

/// Abstract value of a raw event.
pub struct RawView {
    pub kind: RawWatchKind,
    pub paths: Seq<Seq<char>>,
    pub rename_from: Option<Seq<char>>,
    pub rename_to: Option<Seq<char>>,
    pub rename_hint: Option<RenameHint>,
    pub generation: u64,
}

/// Abstract value of a normalized kind.
pub enum KindView {
    Create(Seq<char>),
    Remove(Seq<char>),
    Modify(Seq<char>),
    Rename(Seq<char>, Seq<char>),
    PartialRename(Option<Seq<char>>, Option<Seq<char>>),
}

/// Abstract value of a normalized event.
pub struct EventView {
    pub generation: u64,
    pub kind: KindView,
}

pub open spec fn opt_view(o: Option<String>) -> Option<Seq<char>> {
    match o {
        Some(s) => Some(s@),
        None => None,
    }
}

pub open spec fn raw_view(e: RawWatchEvent) -> RawView {
    RawView {
        kind: e.kind,
        paths: e.paths@.map_values(|p: String| p@),
        rename_from: opt_view(e.rename_from),
        rename_to: opt_view(e.rename_to),
        rename_hint: e.rename_hint,
        generation: e.generation,
    }
}

pub open spec fn kind_view(k: NormalizedWatchKind) -> KindView {
    match k {
        NormalizedWatchKind::Create { path } => KindView::Create(path@),
        NormalizedWatchKind::Remove { path } => KindView::Remove(path@),
        NormalizedWatchKind::Modify { path } => KindView::Modify(path@),
        NormalizedWatchKind::Rename { from, to } => KindView::Rename(from@, to@),
        NormalizedWatchKind::PartialRename { from, to } => KindView::PartialRename(
            opt_view(from),
            opt_view(to),
        ),
    }
}

pub open spec fn event_view(e: NormalizedWatchEvent) -> EventView {
    EventView { generation: e.generation, kind: kind_view(e.kind) }
}

pub open spec fn events_view(es: Seq<NormalizedWatchEvent>) -> Seq<EventView> {
    es.map_values(|e: NormalizedWatchEvent| event_view(e))
}

pub open spec fn raws_view(es: Seq<RawWatchEvent>) -> Seq<RawView> {
    es.map_values(|e: RawWatchEvent| raw_view(e))
}

// ---------------------------------------------------------------------------
// Normalization rules
// ---------------------------------------------------------------------------

/// The two sides of a rename event: explicit sides when either is given, else
/// from the paths according to the hint (both sides need two paths).
pub open spec fn rename_sides(e: RawView) -> (Option<Seq<char>>, Option<Seq<char>>) {
    if e.rename_from is Some || e.rename_to is Some {
        (e.rename_from, e.rename_to)
    } else {
        match e.rename_hint {
            Some(RenameHint::From) => (
                if e.paths.len() > 0 {
                    Some(e.paths[0])
                } else {
                    None
                },
                None,
            ),
            Some(RenameHint::To) => (
                None,
                if e.paths.len() > 0 {
                    Some(e.paths[0])
                } else {
                    None
                },
            ),
            _ => if e.paths.len() > 1 {
                (Some(e.paths[0]), Some(e.paths[1]))
            } else {
                (None, None)
            },
        }
    }
}

/// A pending rename source that found no destination.
pub open spec fn partial_from(pending: (u64, Seq<char>)) -> EventView {
    EventView { generation: pending.0, kind: KindView::PartialRename(Some(pending.1), None) }
}

/// Normalizer state: the events so far and an unmatched rename source.
pub struct NormState {
    pub out: Seq<EventView>,
    pub pending: Option<(u64, Seq<char>)>,
}

/// One rename event: a complete pair is emitted (flushing an older source); a
/// lone source waits for its destination (flushing an older source); a lone
/// destination joins a waiting source of the same generation, and is partial otherwise.
pub open spec fn rename_step(st: NormState, e: RawView) -> NormState {
    let g = e.generation;
    match rename_sides(e) {
        (Some(from), Some(to)) => {
            let out = match st.pending {
                Some(p) => st.out.push(partial_from(p)),
                None => st.out,
            };
            NormState { out: out.push(EventView { generation: g, kind: KindView::Rename(from, to) }), pending: None }
        },
        (Some(from), None) => {
            let out = match st.pending {
                Some(p) => st.out.push(partial_from(p)),
                None => st.out,
            };
            NormState { out, pending: Some((g, from)) }
        },
        (None, Some(to)) => match st.pending {
            Some(p) => if p.0 == g {
                NormState {
                    out: st.out.push(EventView { generation: g, kind: KindView::Rename(p.1, to) }),
                    pending: None,
                }
            } else {
                NormState {
                    out: st.out.push(partial_from(p)).push(
                        EventView { generation: g, kind: KindView::PartialRename(None, Some(to)) },
                    ),
                    pending: None,
                }
            },
            None => NormState {
                out: st.out.push(
                    EventView { generation: g, kind: KindView::PartialRename(None, Some(to)) },
                ),
                pending: None,
            },
        },
        (None, None) => st,
    }
}

/// One event per path of a plain event, all of the same kind.
pub open spec fn path_events(e: RawView) -> Seq<EventView> {
    Seq::new(
        e.paths.len(),
        |i: int|
            EventView {
                generation: e.generation,
                kind: match e.kind {
                    RawWatchKind::Create => KindView::Create(e.paths[i]),
                    RawWatchKind::Remove => KindView::Remove(e.paths[i]),
                    _ => KindView::Modify(e.paths[i]),
                },
            },
    )
}

/// State after the events `es` at or above generation `current`, in order.
pub open spec fn normalize_prefix(es: Seq<RawView>, current: u64) -> NormState
    decreases es.len(),
{
    if es.len() == 0 {
        NormState { out: Seq::empty(), pending: None }
    } else {
        let st = normalize_prefix(es.drop_last(), current);
        let e = es.last();
        if e.generation < current {
            st
        } else if e.kind == RawWatchKind::Rename {
            rename_step(st, e)
        } else {
            NormState { out: st.out + path_events(e), pending: st.pending }
        }
    }
}

/// Normalized events of a batch, with an unmatched rename source emitted last.
pub open spec fn normalize_all(es: Seq<RawView>, current: u64) -> Seq<EventView> {
    let st = normalize_prefix(es, current);
    match st.pending {
        Some(p) => st.out.push(partial_from(p)),
        None => st.out,
    }
}

/// Number of events below generation `current`.
pub open spec fn stale_count(es: Seq<RawView>, current: u64) -> nat
    decreases es.len(),
{
    if es.len() == 0 {
        0
    } else {
        stale_count(es.drop_last(), current) + if es.last().generation < current {
            1nat
        } else {
            0nat
        }
    }
}

/// Coalescing one event onto the events kept so far: a modify directly after a
/// modify or create of the same path is absorbed; a remove discards all kept
/// modifies of its path.
pub open spec fn coalesce_step(kept: Seq<EventView>, e: EventView) -> Seq<EventView> {
    match e.kind {
        KindView::Modify(p) => {
            if kept.len() > 0 && (kept.last().kind == KindView::Modify(p) || kept.last().kind
                == KindView::Create(p)) {
                kept
            } else {
                kept.push(e)
            }
        },
        KindView::Remove(p) => kept.filter(|x: EventView| x.kind != KindView::Modify(p)).push(e),
        _ => kept.push(e),
    }
}

/// The coalesced events, processing `es` in order.
pub open spec fn coalesce(es: Seq<EventView>) -> Seq<EventView>
    decreases es.len(),
{
    if es.len() == 0 {
        Seq::empty()
    } else {
        coalesce_step(coalesce(es.drop_last()), es.last())
    }
}

// ---------------------------------------------------------------------------
// Executable normalizer
// ---------------------------------------------------------------------------

/// Abstract value of the normalizer's unmatched rename source.
pub open spec fn pending_view(p: Option<(u64, String)>) -> Option<(u64, Seq<char>)> {
    match p {
        Some(x) => Some((x.0, x.1@)),
        None => None,
    }
}

impl View for WatchBatchNormalizer {
    type V = Seq<RawView>;

    /// The queued raw events, oldest first.
    closed spec fn view(&self) -> Seq<RawView> {
        raws_view(self.pending@)
    }
}

impl Default for WatchBatchNormalizer {
    fn default() -> (r: Self)
        ensures
            r@ == Seq::<RawView>::empty(),
    {
        WatchBatchNormalizer::new()
    }
}

impl WatchBatchNormalizer {
    /// Create an empty normalizer.
    pub fn new() -> (r: Self)
        ensures
            r@ == Seq::<RawView>::empty(),
    {
        let r = WatchBatchNormalizer { pending: Vec::new() };
        assert(raws_view(r.pending@) =~= Seq::<RawView>::empty());
        r
    }

    /// Queue a raw host event for the next drain.
    pub fn push(&mut self, event: RawWatchEvent)
        ensures
            final(self)@ == old(self)@.push(raw_view(event)),
    {
        self.pending.push(event);
        assert(raws_view(self.pending@) =~= raws_view(old(self).pending@).push(raw_view(event)));
    }

    /// Normalize and coalesce queued events: events below `current_generation`
    /// are discarded and counted, the rest are normalized in order and coalesced.
    /// The queue is empty afterwards.
    pub fn drain(&mut self, current_generation: u64) -> (r: FlushResult)
        ensures
            final(self)@ == Seq::<RawView>::empty(),
            events_view(r.events@) == coalesce(normalize_all(old(self)@, current_generation)),
            r.discarded_stale == stale_count(old(self)@, current_generation),
    {
        let mut pending: Vec<RawWatchEvent> = Vec::new();
        std::mem::swap(&mut pending, &mut self.pending);
        assert(raws_view(self.pending@) =~= Seq::<RawView>::empty());
        let ghost es = raws_view(pending@);
        let mut discarded_stale: usize = 0;
        let mut normalized: Vec<NormalizedWatchEvent> = Vec::new();
        let mut pending_from: Option<(u64, String)> = None;
        let mut i: usize = 0;
        assert(es.take(0) =~= Seq::<RawView>::empty());
        assert(events_view(normalized@) =~= Seq::<EventView>::empty());
        while i < pending.len()
            invariant
                0 <= i <= pending@.len(),
                es == raws_view(pending@),
                events_view(normalized@) == normalize_prefix(es.take(i as int), current_generation).out,
                pending_view(pending_from) == normalize_prefix(es.take(i as int), current_generation).pending,
                discarded_stale == stale_count(es.take(i as int), current_generation),
                discarded_stale <= i,
            decreases pending@.len() - i,
        {
            let event = &pending[i];
            assert(es.take(i + 1).drop_last() =~= es.take(i as int));
            assert(es.take(i + 1).last() == raw_view(*event));
            if event.generation < current_generation {
                discarded_stale = discarded_stale + 1;
            } else {
                match event.kind {
                    RawWatchKind::Rename => {
                        normalize_rename_event(event, &mut pending_from, &mut normalized);
                    },
                    _ => {
                        push_path_events(event, &mut normalized);
                    },
                }
            }
            i = i + 1;
        }
        assert(es.take(i as int) =~= es);
        if let Some((generation, from)) = pending_from {
            normalized.push(
                NormalizedWatchEvent {
                    generation,
                    kind: NormalizedWatchKind::PartialRename { from: Some(from), to: None },
                },
            );
            assert(events_view(normalized@) =~= normalize_all(es, current_generation));
        } else {
            assert(events_view(normalized@) =~= normalize_all(es, current_generation));
        }
        FlushResult { events: coalesce_events(normalized), discarded_stale }
    }
}

/// One normalized event per path of a create, remove or modify event.
fn push_path_events(event: &RawWatchEvent, normalized: &mut Vec<NormalizedWatchEvent>)
    requires
        event.kind != RawWatchKind::Rename,
    ensures
        events_view(final(normalized)@) == events_view(old(normalized)@) + path_events(raw_view(*event)),
{
    let ghost base = events_view(normalized@);
    let ghost pe = path_events(raw_view(*event));
    let mut j: usize = 0;
    assert(pe.take(0) =~= Seq::<EventView>::empty());
    assert(base + pe.take(0) =~= base);
    while j < event.paths.len()
        invariant
            0 <= j <= event.paths@.len(),
            pe == path_events(raw_view(*event)),
            pe.len() == event.paths@.len(),
            event.kind != RawWatchKind::Rename,
            events_view(normalized@) == base + pe.take(j as int),
        decreases event.paths@.len() - j,
    {
        let path = event.paths[j].clone();
        let kind = match event.kind {
            RawWatchKind::Create => NormalizedWatchKind::Create { path },
            RawWatchKind::Remove => NormalizedWatchKind::Remove { path },
            _ => NormalizedWatchKind::Modify { path },
        };
        let ghost prev = normalized@;
        normalized.push(NormalizedWatchEvent { generation: event.generation, kind });
        assert(events_view(normalized@) =~= events_view(prev).push(pe[j as int]));
        assert(pe.take(j + 1) =~= pe.take(j as int).push(pe[j as int]));
        j = j + 1;
    }
    assert(pe.take(j as int) =~= pe);
}

/// Apply one rename event to the normalizer state (see `rename_step`).
fn normalize_rename_event(
    event: &RawWatchEvent,
    pending_rename_from: &mut Option<(u64, String)>,
    normalized: &mut Vec<NormalizedWatchEvent>,
)
    ensures
        ({
            let st = rename_step(
                NormState { out: events_view(old(normalized)@), pending: pending_view(*old(pending_rename_from)) },
                raw_view(*event),
            );
            events_view(final(normalized)@) == st.out && pending_view(*final(pending_rename_from)) == st.pending
        }),
{
    let generation = event.generation;
    let (rename_from, rename_to) = resolve_rename_paths(event);
    let ghost old_out = events_view(normalized@);
    match (rename_from, rename_to) {
        (Some(from), Some(to)) => {
            if let Some((pending_generation, pending_from)) = pending_rename_from.take() {
                normalized.push(
                    NormalizedWatchEvent {
                        generation: pending_generation,
                        kind: NormalizedWatchKind::PartialRename { from: Some(pending_from), to: None },
                    },
                );
            }
            normalized.push(NormalizedWatchEvent { generation, kind: NormalizedWatchKind::Rename { from, to } });
        },
        (Some(from), None) => {
            if let Some((pending_generation, pending_from)) = pending_rename_from.take() {
                normalized.push(
                    NormalizedWatchEvent {
                        generation: pending_generation,
                        kind: NormalizedWatchKind::PartialRename { from: Some(pending_from), to: None },
                    },
                );
            }
            *pending_rename_from = Some((generation, from));
        },
        (None, Some(to)) => {
            if let Some((pending_generation, from)) = pending_rename_from.take() {
                if pending_generation == generation {
                    normalized.push(NormalizedWatchEvent { generation, kind: NormalizedWatchKind::Rename { from, to } });
                } else {
                    normalized.push(
                        NormalizedWatchEvent {
                            generation: pending_generation,
                            kind: NormalizedWatchKind::PartialRename { from: Some(from), to: None },
                        },
                    );
                    normalized.push(
                        NormalizedWatchEvent {
                            generation,
                            kind: NormalizedWatchKind::PartialRename { from: None, to: Some(to) },
                        },
                    );
                }
            } else {
                normalized.push(
                    NormalizedWatchEvent {
                        generation,
                        kind: NormalizedWatchKind::PartialRename { from: None, to: Some(to) },
                    },
                );
            }
        },
        (None, None) => {},
    }
    assert(events_view(normalized@) =~= rename_step(
        NormState { out: old_out, pending: pending_view(*old(pending_rename_from)) },
        raw_view(*event),
    ).out);
}

/// The two sides of a rename event (see `rename_sides`).
fn resolve_rename_paths(event: &RawWatchEvent) -> (r: (Option<String>, Option<String>))
    ensures
        (opt_view(r.0), opt_view(r.1)) == rename_sides(raw_view(*event)),
{
    let explicit_from = event.rename_from.clone();
    let explicit_to = event.rename_to.clone();
    if explicit_from.is_some() || explicit_to.is_some() {
        return (explicit_from, explicit_to);
    }
    match event.rename_hint {
        Some(RenameHint::From) => (first_path(&event.paths, 0), None),
        Some(RenameHint::To) => (None, first_path(&event.paths, 0)),
        _ => {
            if event.paths.len() > 1 {
                (first_path(&event.paths, 0), first_path(&event.paths, 1))
            } else {
                (None, None)
            }
        },
    }
}

/// A copy of the path at `index`, if there is one.
fn first_path(paths: &Vec<String>, index: usize) -> (r: Option<String>)
    ensures
        opt_view(r) == (if index < paths@.len() {
            Some(paths@[index as int]@)
        } else {
            None::<Seq<char>>
        }),
{
    if index < paths.len() {
        Some(paths[index].clone())
    } else {
        None
    }
}

/// A copy of a normalized event.
fn copy_event(e: &NormalizedWatchEvent) -> (r: NormalizedWatchEvent)
    ensures
        event_view(r) == event_view(*e),
{
    let kind = match &e.kind {
        NormalizedWatchKind::Create { path } => NormalizedWatchKind::Create { path: path.clone() },
        NormalizedWatchKind::Remove { path } => NormalizedWatchKind::Remove { path: path.clone() },
        NormalizedWatchKind::Modify { path } => NormalizedWatchKind::Modify { path: path.clone() },
        NormalizedWatchKind::Rename { from, to } => NormalizedWatchKind::Rename {
            from: from.clone(),
            to: to.clone(),
        },
        NormalizedWatchKind::PartialRename { from, to } => NormalizedWatchKind::PartialRename {
            from: copy_opt(from),
            to: copy_opt(to),
        },
    };
    NormalizedWatchEvent { generation: e.generation, kind }
}

fn copy_opt(o: &Option<String>) -> (r: Option<String>)
    ensures
        opt_view(r) == opt_view(*o),
{
    match o {
        Some(s) => Some(s.clone()),
        None => None,
    }
}

/// Coalesce normalized events (see `coalesce`).
fn coalesce_events(events: Vec<NormalizedWatchEvent>) -> (r: Vec<NormalizedWatchEvent>)
    ensures
        events_view(r@) == coalesce(events_view(events@)),
{
    let ghost ev = events_view(events@);
    let mut coalesced: Vec<NormalizedWatchEvent> = Vec::new();
    let mut i: usize = 0;
    assert(ev.take(0) =~= Seq::<EventView>::empty());
    assert(events_view(coalesced@) =~= Seq::<EventView>::empty());
    while i < events.len()
        invariant
            0 <= i <= events@.len(),
            ev == events_view(events@),
            events_view(coalesced@) == coalesce(ev.take(i as int)),
        decreases events@.len() - i,
    {
        let event = &events[i];
        assert(ev.take(i + 1).drop_last() =~= ev.take(i as int));
        assert(ev.take(i + 1).last() == event_view(*event));
        let ghost kept = events_view(coalesced@);
        match &event.kind {
            NormalizedWatchKind::Modify { path } => {
                if last_is_modify_for_path(&coalesced, path) || last_is_create_for_path(&coalesced, path) {
                } else {
                    coalesced.push(copy_event(event));
                    assert(events_view(coalesced@) =~= kept.push(event_view(*event)));
                }
            },
            NormalizedWatchKind::Remove { path } => {
                remove_modifies_of(&mut coalesced, path);
                let ghost filtered = events_view(coalesced@);
                coalesced.push(copy_event(event));
                assert(events_view(coalesced@) =~= filtered.push(event_view(*event)));
            },
            _ => {
                coalesced.push(copy_event(event));
                assert(events_view(coalesced@) =~= kept.push(event_view(*event)));
            },
        }
        i = i + 1;
    }
    assert(ev.take(i as int) =~= ev);
    coalesced
}

/// Drop every modify event of `path`, keeping the rest in order.
fn remove_modifies_of(events: &mut Vec<NormalizedWatchEvent>, path: &String)
    ensures
        events_view(final(events)@) == events_view(old(events)@).filter(
            |x: EventView| x.kind != KindView::Modify(path@),
        ),
{
    let ghost ev = events_view(events@);
    let ghost f = |x: EventView| x.kind != KindView::Modify(path@);
    let mut kept: Vec<NormalizedWatchEvent> = Vec::new();
    let mut i: usize = 0;
    assert(ev.take(0) =~= Seq::<EventView>::empty());
    assert(events_view(kept@) =~= Seq::<EventView>::empty());
    while i < events.len()
        invariant
            0 <= i <= events@.len(),
            ev == events_view(events@),
            f == (|x: EventView| x.kind != KindView::Modify(path@)),
            events_view(kept@) == ev.take(i as int).filter(f),
        decreases events@.len() - i,
    {
        reveal_with_fuel(Seq::<_>::filter, 1);
        let item = &events[i];
        assert(ev[i as int] == event_view(*item));
        let is_modify_of_path = match &item.kind {
            NormalizedWatchKind::Modify { path: last_path } => *last_path == *path,
            _ => false,
        };
        let ghost prev = events_view(kept@);
        if !is_modify_of_path {
            kept.push(copy_event(item));
            assert(events_view(kept@) =~= prev.push(event_view(*item)));
        }
        assert(ev.take(i + 1).drop_last() =~= ev.take(i as int));
        i = i + 1;
        assert(events_view(kept@) =~= ev.take(i as int).filter(f));
    }
    assert(ev.take(i as int) =~= ev);
    *events = kept;
}

/// Whether the last kept event is a modify of `path`.
fn last_is_modify_for_path(events: &Vec<NormalizedWatchEvent>, path: &String) -> (r: bool)
    ensures
        r == (events@.len() > 0 && event_view(events@.last()).kind == KindView::Modify(path@)),
{
    if events.len() == 0 {
        return false;
    }
    match &events[events.len() - 1].kind {
        NormalizedWatchKind::Modify { path: last_path } => *last_path == *path,
        _ => false,
    }
}

/// Whether the last kept event is a create of `path`.
fn last_is_create_for_path(events: &Vec<NormalizedWatchEvent>, path: &String) -> (r: bool)
    ensures
        r == (events@.len() > 0 && event_view(events@.last()).kind == KindView::Create(path@)),
{
    if events.len() == 0 {
        return false;
    }
    match &events[events.len() - 1].kind {
        NormalizedWatchKind::Create { path: last_path } => *last_path == *path,
        _ => false,
    }
}

// ---------------------------------------------------------------------------
// Laws
// ---------------------------------------------------------------------------

/// Every event generation in `s` is at least `current`.
pub open spec fn all_current(s: Seq<EventView>, current: u64) -> bool {
    forall|i: int| 0 <= i < s.len() ==> #[trigger] s[i].generation >= current
}

/// A remove of a path comes after every modify of that path that survives.
pub open spec fn removes_after_modifies(s: Seq<EventView>) -> bool {
    forall|i: int, j: int|
        #![trigger s[i], s[j]]
        0 <= i < j < s.len() ==> (s[j].kind matches KindView::Remove(p) ==> s[i].kind
            != KindView::Modify(p))
}

/// No modify of a path directly follows a modify or a create of that path.
pub open spec fn modifies_collapsed(s: Seq<EventView>) -> bool {
    forall|i: int, j: int|
        #![trigger s[i], s[j]]
        0 <= i && j == i + 1 && j < s.len() ==> (s[j].kind matches KindView::Modify(p) ==> (
        s[i].kind != KindView::Modify(p) && s[i].kind != KindView::Create(p)))
}

proof fn lemma_normalize_prefix_current(es: Seq<RawView>, current: u64)
    ensures
        all_current(normalize_prefix(es, current).out, current),
        normalize_prefix(es, current).pending matches Some(p) ==> p.0 >= current,
    decreases es.len(),
{
    if es.len() > 0 {
        lemma_normalize_prefix_current(es.drop_last(), current);
        let st = normalize_prefix(es.drop_last(), current);
        let e = es.last();
        if e.generation >= current && e.kind != RawWatchKind::Rename {
            let pe = path_events(e);
            assert forall|i: int| 0 <= i < (st.out + pe).len() implies #[trigger] (st.out
                + pe)[i].generation >= current by {
                if i >= st.out.len() {
                    assert((st.out + pe)[i] == pe[i - st.out.len()]);
                }
            }
        }
    }
}

proof fn lemma_coalesce_current(es: Seq<EventView>, current: u64)
    requires
        all_current(es, current),
    ensures
        all_current(coalesce(es), current),
    decreases es.len(),
{
    if es.len() > 0 {
        lemma_coalesce_current(es.drop_last(), current);
        let kept = coalesce(es.drop_last());
        let e = es.last();
        if let KindView::Remove(p) = e.kind {
            let f = |x: EventView| x.kind != KindView::Modify(p);
            let fl = kept.filter(f);
            assert forall|i: int| 0 <= i < fl.len() implies #[trigger] fl[i].generation >= current by {
                assert(fl.contains(fl[i]));
                kept.lemma_filter_contains_rev(f, fl[i]);
            }
        }
    }
}

/// No event below the current generation survives a drain: every event of
/// `coalesce(normalize_all(es, current))` has a generation of at least `current`.
pub proof fn lemma_drain_drops_stale(es: Seq<RawView>, current: u64)
    ensures
        all_current(coalesce(normalize_all(es, current)), current),
{
    lemma_normalize_prefix_current(es, current);
    lemma_coalesce_current(normalize_all(es, current), current);
}

proof fn lemma_filter_keeps_removes_after(s: Seq<EventView>, f: spec_fn(EventView) -> bool)
    requires
        removes_after_modifies(s),
    ensures
        removes_after_modifies(s.filter(f)),
    decreases s.len(),
{
    reveal_with_fuel(Seq::<_>::filter, 1);
    if s.len() > 0 {
        let rest = s.drop_last();
        assert forall|i: int, j: int| #![trigger rest[i], rest[j]] 0 <= i < j < rest.len() implies (rest[j].kind matches KindView::Remove(p)
            ==> rest[i].kind != KindView::Modify(p)) by {
            assert(rest[i] == s[i] && rest[j] == s[j]);
        }
        lemma_filter_keeps_removes_after(rest, f);
        let sub = rest.filter(f);
        if f(s.last()) {
            let out = sub.push(s.last());
            assert forall|i: int, j: int| #![trigger out[i], out[j]] 0 <= i < j < out.len() implies (out[j].kind matches KindView::Remove(p)
                ==> out[i].kind != KindView::Modify(p)) by {
                if j == out.len() - 1 {
                    assert(sub.contains(out[i]));
                    rest.lemma_filter_contains_rev(f, out[i]);
                    let k = choose|k: int| 0 <= k < rest.len() && rest[k] == out[i];
                    assert(s[k] == out[i]);
                    assert(s[s.len() - 1] == out[j]);
                } else {
                    assert(out[i] == sub[i] && out[j] == sub[j]);
                }
            }
        }
    }
}

proof fn lemma_coalesce_removes_after(es: Seq<EventView>)
    ensures
        removes_after_modifies(coalesce(es)),
    decreases es.len(),
{
    if es.len() > 0 {
        lemma_coalesce_removes_after(es.drop_last());
        let kept = coalesce(es.drop_last());
        let e = es.last();
        match e.kind {
            KindView::Remove(p) => {
                let f = |x: EventView| x.kind != KindView::Modify(p);
                lemma_filter_keeps_removes_after(kept, f);
                let fl = kept.filter(f);
                let out = fl.push(e);
                assert forall|i: int, j: int| #![trigger out[i], out[j]] 0 <= i < j < out.len() implies (out[j].kind matches KindView::Remove(q)
                    ==> out[i].kind != KindView::Modify(q)) by {
                    if j == out.len() - 1 {
                        kept.lemma_filter_pred(f, i);
                    } else {
                        assert(out[i] == fl[i] && out[j] == fl[j]);
                    }
                }
            },
            _ => {
                let out = coalesce(es);
                assert forall|i: int, j: int| #![trigger out[i], out[j]] 0 <= i < j < out.len() implies (out[j].kind matches KindView::Remove(q)
                    ==> out[i].kind != KindView::Modify(q)) by {
                    if out.len() > kept.len() && j == out.len() - 1 {
                    } else {
                        assert(out[i] == kept[i] && out[j] == kept[j]);
                    }
                }
            },
        }
    }
}

/// After a drain, a remove of a path is never preceded by a modify of that
/// path: removes discard the earlier modifies of their path in the batch.
pub proof fn lemma_drain_remove_discards_modifies(es: Seq<RawView>, current: u64)
    ensures
        removes_after_modifies(coalesce(normalize_all(es, current))),
{
    lemma_coalesce_removes_after(normalize_all(es, current));
}

/// No event of `s` is a remove.
pub open spec fn no_removes(s: Seq<EventView>) -> bool {
    forall|i: int| 0 <= i < s.len() ==> !(#[trigger] s[i].kind is Remove)
}

proof fn lemma_normalize_prefix_no_removes(es: Seq<RawView>, current: u64)
    requires
        forall|i: int| 0 <= i < es.len() ==> #[trigger] es[i].kind != RawWatchKind::Remove,
    ensures
        no_removes(normalize_prefix(es, current).out),
    decreases es.len(),
{
    if es.len() > 0 {
        assert forall|i: int| 0 <= i < es.drop_last().len() implies #[trigger] es.drop_last()[i].kind
            != RawWatchKind::Remove by {
            assert(es.drop_last()[i] == es[i]);
        }
        lemma_normalize_prefix_no_removes(es.drop_last(), current);
        let st = normalize_prefix(es.drop_last(), current);
        let e = es.last();
        assert(e == es[es.len() - 1]);
        if e.generation >= current && e.kind != RawWatchKind::Rename {
            let pe = path_events(e);
            assert forall|i: int| 0 <= i < (st.out + pe).len() implies !(#[trigger] (st.out
                + pe)[i].kind is Remove) by {
                if i >= st.out.len() {
                    assert((st.out + pe)[i] == pe[i - st.out.len()]);
                }
            }
        }
    }
}

proof fn lemma_coalesce_collapses(es: Seq<EventView>)
    requires
        no_removes(es),
    ensures
        modifies_collapsed(coalesce(es)),
        coalesce(es).len() > 0 ==> es.len() > 0,
    decreases es.len(),
{
    if es.len() > 0 {
        assert forall|i: int| 0 <= i < es.drop_last().len() implies !(#[trigger] es.drop_last()[i].kind is Remove) by {
            assert(es.drop_last()[i] == es[i]);
        }
        lemma_coalesce_collapses(es.drop_last());
        let kept = coalesce(es.drop_last());
        let e = es.last();
        assert(e == es[es.len() - 1]);
        let out = coalesce(es);
        assert forall|i: int, j: int| #![trigger out[i], out[j]] 0 <= i && j == i + 1 && j < out.len() implies (out[j].kind matches KindView::Modify(p)
            ==> (out[i].kind != KindView::Modify(p) && out[i].kind != KindView::Create(p))) by {
            if out.len() > kept.len() && j == out.len() - 1 {
                assert(out[i] == kept.last());
            } else {
                assert(out[i] == kept[i] && out[j] == kept[j]);
            }
        }
    }
}

/// In a batch with no remove events, a drain collapses repeated modifies of a
/// path and absorbs a modify that directly follows a create of that path.
pub proof fn lemma_drain_collapses_modifies(es: Seq<RawView>, current: u64)
    requires
        forall|i: int| 0 <= i < es.len() ==> #[trigger] es[i].kind != RawWatchKind::Remove,
    ensures
        modifies_collapsed(coalesce(normalize_all(es, current))),
{
    lemma_normalize_prefix_no_removes(es, current);
    let st = normalize_prefix(es, current);
    let all = normalize_all(es, current);
    assert forall|i: int| 0 <= i < all.len() implies !(#[trigger] all[i].kind is Remove) by {
        if i < st.out.len() {
            assert(all[i] == st.out[i]);
        }
    }
    lemma_coalesce_collapses(all);
}

/// `ev` carries the generation of an event of `es` that is not stale.
pub open spec fn from_current_event(ev: EventView, es: Seq<RawView>, current: u64) -> bool {
    exists|i: int| 0 <= i < es.len() && #[trigger] es[i].generation >= current && es[i].generation == ev.generation
}

/// Every event of `s` carries the generation of a current event of `es`.
pub open spec fn all_from_current(s: Seq<EventView>, es: Seq<RawView>, current: u64) -> bool {
    forall|k: int| 0 <= k < s.len() ==> from_current_event(#[trigger] s[k], es, current)
}

proof fn lemma_from_current_lift(ev: EventView, es: Seq<RawView>, current: u64)
    requires
        es.len() > 0,
        from_current_event(ev, es.drop_last(), current),
    ensures
        from_current_event(ev, es, current),
{
    let i = choose|i: int| 0 <= i < es.drop_last().len() && #[trigger] es.drop_last()[i].generation >= current
        && es.drop_last()[i].generation == ev.generation;
    assert(es[i] == es.drop_last()[i]);
}

proof fn lemma_from_current_last(ev: EventView, es: Seq<RawView>, current: u64)
    requires
        es.len() > 0,
        es.last().generation >= current,
        ev.generation == es.last().generation,
    ensures
        from_current_event(ev, es, current),
{
    assert(es[es.len() - 1].generation >= current);
}

proof fn lemma_normalize_prefix_sources(es: Seq<RawView>, current: u64)
    ensures
        all_from_current(normalize_prefix(es, current).out, es, current),
        normalize_prefix(es, current).pending matches Some(p) ==> from_current_event(
            partial_from(p),
            es,
            current,
        ),
    decreases es.len(),
{
    if es.len() > 0 {
        let rest = es.drop_last();
        lemma_normalize_prefix_sources(rest, current);
        let st = normalize_prefix(rest, current);
        let e = es.last();
        assert forall|k: int| 0 <= k < st.out.len() implies from_current_event(#[trigger] st.out[k], es, current) by {
            lemma_from_current_lift(st.out[k], es, current);
        }
        if let Some(p) = st.pending {
            lemma_from_current_lift(partial_from(p), es, current);
        }
        let out = normalize_prefix(es, current).out;
        if e.generation >= current {
            assert forall|k: int| 0 <= k < out.len() implies from_current_event(#[trigger] out[k], es, current) by {
                if k < st.out.len() {
                    assert(out[k] == st.out[k]);
                } else if out[k].generation == e.generation {
                    lemma_from_current_last(out[k], es, current);
                } else {
                    assert(st.pending is Some && out[k] == partial_from(st.pending->0));
                }
            }
            if let Some(p) = normalize_prefix(es, current).pending {
                if st.pending != Some(p) {
                    lemma_from_current_last(partial_from(p), es, current);
                }
            }
        }
    }
}

proof fn lemma_coalesce_members(es: Seq<EventView>)
    ensures
        forall|k: int| 0 <= k < coalesce(es).len() ==> es.contains(#[trigger] coalesce(es)[k]),
    decreases es.len(),
{
    if es.len() > 0 {
        let rest = es.drop_last();
        lemma_coalesce_members(rest);
        let kept = coalesce(rest);
        let e = es.last();
        let out = coalesce(es);
        assert forall|k: int| 0 <= k < kept.len() implies es.contains(#[trigger] kept[k]) by {
            let j = choose|j: int| 0 <= j < rest.len() && rest[j] == kept[k];
            assert(es[j] == rest[j]);
        }
        assert(es[es.len() - 1] == e);
        assert forall|k: int| 0 <= k < out.len() implies es.contains(#[trigger] out[k]) by {
            match e.kind {
                KindView::Remove(p) => {
                    let f = |x: EventView| x.kind != KindView::Modify(p);
                    let fl = kept.filter(f);
                    if k < fl.len() {
                        assert(fl.contains(fl[k]));
                        kept.lemma_filter_contains_rev(f, fl[k]);
                        let j = choose|j: int| 0 <= j < kept.len() && kept[j] == fl[k];
                        assert(es.contains(kept[j]));
                    }
                },
                _ => {
                    if k < kept.len() {
                        assert(out[k] == kept[k]);
                    }
                },
            }
        }
    }
}

/// Every drained event stems from a pending event that was not stale: it
/// carries the generation of such an event.
pub proof fn lemma_drain_events_from_current(es: Seq<RawView>, current: u64)
    ensures
        all_from_current(coalesce(normalize_all(es, current)), es, current),
{
    lemma_normalize_prefix_sources(es, current);
    let st = normalize_prefix(es, current);
    let all = normalize_all(es, current);
    assert(all_from_current(all, es, current)) by {
        assert forall|k: int| 0 <= k < all.len() implies from_current_event(#[trigger] all[k], es, current) by {
            if k < st.out.len() {
                assert(all[k] == st.out[k]);
            }
        }
    }
    lemma_coalesce_members(all);
    let c = coalesce(all);
    assert forall|k: int| 0 <= k < c.len() implies from_current_event(#[trigger] c[k], es, current) by {
        assert(all.contains(c[k]));
        let j = choose|j: int| 0 <= j < all.len() && all[j] == c[k];
        assert(from_current_event(all[j], es, current));
    }
}

/// A drain keeps only current events, each stemming from a current pending
/// event: every drained event has a generation of at least `current`, and
/// that generation is the one of a pending event that was not stale.
pub proof fn lemma_drain_events_current_and_sourced(es: Seq<RawView>, current: u64)
    ensures
        all_current(coalesce(normalize_all(es, current)), current),
        all_from_current(coalesce(normalize_all(es, current)), es, current),
{
    lemma_drain_drops_stale(es, current);
    lemma_drain_events_from_current(es, current);
}

} // verus!
