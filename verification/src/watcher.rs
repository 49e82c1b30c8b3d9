//! The change-notification pipeline: the single active watch slot, the
//! time-limited pending-operation markers that suppress self-caused events,
//! the per-event filtering and classification, the debounced batcher, and
//! batch deduplication. A host task drives the pipeline: it forwards raw
//! native events into [`process_notify_event`] and calls the batcher on every
//! receive timeout; everything the pipeline decides is verified here.

use vstd::prelude::*;
use crate::models::VaultId;
use crate::models::FileEventType;
use crate::models::FileSystemEvent;
use crate::models::FileSystemEventV;
use crate::paths::spec_segments;
use crate::paths::path_has_component;
use crate::paths::joined;
use crate::paths::str_eq;
use crate::paths::strip_prefix;
use crate::fs_model::is_under;
use crate::fs_model::suffix_below;
use crate::fs_model::lemma_joined_injective;

verus! {

/// The debounce window: buffered events are emitted as one batch at most this
/// often, in milliseconds.
pub const DEBOUNCE_MS: i64 = 200;

/// How long a pending-operation marker suppresses events for its path, in
/// milliseconds. A heuristic race-avoidance window, not a guarantee: an event
/// arriving after expiry leaks through as an external change.
pub const PENDING_TTL_MS: i64 = 500;

/// The kind of a raw native filesystem notification, as the host receives it.
#[derive(Debug, Clone, Copy, PartialEq, Eq, Structural)]
pub enum RawEventKind {
    Create,
    Modify,
    Remove,
    Access,
    Any,
    Other,
}

/// One pending-operation marker: an absolute path and when it lapses.
pub struct PendingMark {
    pub path: String,
    pub expires_ms: i64,
}

pub ghost struct PendingMarkV {
    pub path: Seq<char>,
    pub expires_ms: i64,
}

impl View for PendingMark {
    type V = PendingMarkV;

    open spec fn view(&self) -> PendingMarkV {
        PendingMarkV { path: self.path@, expires_ms: self.expires_ms }
    }
}

/// Whether some unexpired marker covers `p` at time `now_ms`.
pub open spec fn pending_at(marks: Seq<PendingMarkV>, p: Seq<char>, now_ms: i64) -> bool {
    exists|i: int| 0 <= i < marks.len() && marks[i].path == p && now_ms < marks[i].expires_ms
}

/// The shared set of pending-operation markers. Registration happens before
/// the application's own write; each marker lapses [`PENDING_TTL_MS`] after
/// its registration.
pub struct PendingOps {
    pub marks: Vec<PendingMark>,
}

impl View for PendingOps {
    type V = Seq<PendingMarkV>;

    open spec fn view(&self) -> Seq<PendingMarkV> {
        Seq::new(self.marks@.len(), |i: int| self.marks@[i]@)
    }
}

impl PendingOps {
    /// No markers.
    pub fn new() -> (r: Self)
        ensures
            r@ =~= Seq::<PendingMarkV>::empty(),
    {
        PendingOps { marks: Vec::new() }
    }

    /// Register `path` as about to be written by the application itself; the
    /// marker lapses `PENDING_TTL_MS` after `now_ms`.
    pub fn mark(&mut self, path: String, now_ms: i64)
        requires
            now_ms <= i64::MAX - PENDING_TTL_MS,
        ensures
            final(self)@ == old(self)@.push(
                PendingMarkV { path: path@, expires_ms: (now_ms + PENDING_TTL_MS) as i64 },
            ),
    {
        let ghost pre = self@;
        self.marks.push(PendingMark { path, expires_ms: now_ms + PENDING_TTL_MS });
        proof {
            assert(final(self)@ =~= pre.push(final(self)@.last()));
        }
    }

    /// Whether an unexpired marker covers `p` at `now_ms`.
    pub fn is_pending(&self, p: &str, now_ms: i64) -> (r: bool)
        ensures
            r == pending_at(self@, p@, now_ms),
    {
        let n = self.marks.len();
        let mut i: usize = 0;
        while i < n
            invariant
                n == self@.len(),
                i <= n,
                forall|j: int|
                    0 <= j < i ==> !(self@[j].path == p@ && now_ms < self@[j].expires_ms),
            decreases n - i,
        {
            assert(self@[i as int].path == self.marks@[i as int].path@);
            if self.marks[i].expires_ms > now_ms && str_eq(self.marks[i].path.as_str(), p) {
                return true;
            }
            i = i + 1;
        }
        false
    }

    /// Drop every marker that has lapsed at `now_ms`.
    pub fn purge_expired(&mut self, now_ms: i64)
        ensures
            final(self)@ == purged(old(self)@, now_ms),
    {
        let ghost pre = self@;
        let n = self.marks.len();
        let mut out: Vec<PendingMark> = Vec::new();
        let mut i: usize = 0;
        while i < n
            invariant
                n == pre.len(),
                pre == self@,
                i <= n,
                Seq::new(out@.len(), |k: int| out@[k]@) =~= purged(pre.take(i as int), now_ms),
            decreases n - i,
        {
            proof {
                assert(pre.take(i as int + 1).drop_last() =~= pre.take(i as int));
                assert(pre.take(i as int + 1).last() == pre[i as int]);
                assert(pre[i as int].expires_ms == self.marks@[i as int].expires_ms);
            }
            if self.marks[i].expires_ms > now_ms {
                let m = PendingMark {
                    path: self.marks[i].path.clone(),
                    expires_ms: self.marks[i].expires_ms,
                };
                proof {
                    assert(m@ == pre[i as int]);
                }
                out.push(m);
                proof {
                    assert(Seq::new(out@.len(), |k: int| out@[k]@) =~= purged(
                        pre.take(i as int + 1),
                        now_ms,
                    ));
                }
            } else {
                proof {
                    assert(purged(pre.take(i as int + 1), now_ms) =~= purged(
                        pre.take(i as int),
                        now_ms,
                    ));
                }
            }
            i = i + 1;
        }
        self.marks = out;
        proof {
            assert(pre.take(n as int) =~= pre);
        }
    }
}

/// The marker set with everything lapsed at `now_ms` dropped, order kept.
pub open spec fn purged(marks: Seq<PendingMarkV>, now_ms: i64) -> Seq<PendingMarkV>
    decreases marks.len(),
{
    if marks.len() == 0 {
        Seq::empty()
    } else {
        let rest = purged(marks.drop_last(), now_ms);
        if now_ms < marks.last().expires_ms {
            rest.push(marks.last())
        } else {
            rest
        }
    }
}

/// Law: purging lapsed markers never changes what is pending now or later.
pub proof fn lemma_purged_pending(marks: Seq<PendingMarkV>, now_ms: i64, p: Seq<char>, t: i64)
    requires
        t >= now_ms,
    ensures
        pending_at(purged(marks, now_ms), p, t) == pending_at(marks, p, t),
    decreases marks.len(),
{
    if marks.len() > 0 {
        lemma_purged_pending(marks.drop_last(), now_ms, p, t);
        let out = purged(marks, now_ms);
        let sub = purged(marks.drop_last(), now_ms);
        if pending_at(out, p, t) {
            let k = choose|k: int|
                0 <= k < out.len() && out[k].path == p && t < out[k].expires_ms;
            if now_ms < marks.last().expires_ms && k == out.len() - 1 {
                assert(marks[marks.len() - 1] == marks.last());
                assert(pending_at(marks, p, t));
            } else {
                assert(sub[k] == out[k]);
                assert(pending_at(sub, p, t));
                let j = choose|j: int|
                    0 <= j < marks.drop_last().len() && marks.drop_last()[j].path == p && t
                        < marks.drop_last()[j].expires_ms;
                assert(marks[j] == marks.drop_last()[j]);
                assert(pending_at(marks, p, t));
            }
        }
        if pending_at(marks, p, t) {
            let j = choose|j: int|
                0 <= j < marks.len() && marks[j].path == p && t < marks[j].expires_ms;
            if j == marks.len() - 1 {
                assert(now_ms < marks.last().expires_ms);
                assert(out[out.len() - 1] == marks.last());
                assert(pending_at(out, p, t));
            } else {
                assert(marks.drop_last()[j] == marks[j]);
                assert(pending_at(marks.drop_last(), p, t));
                assert(pending_at(sub, p, t));
                let k = choose|k: int|
                    0 <= k < sub.len() && sub[k].path == p && t < sub[k].expires_ms;
                if now_ms < marks.last().expires_ms {
                    assert(out[k] == sub[k]);
                }
                assert(pending_at(out, p, t));
            }
        }
    }
}

/// How a raw native kind maps to a domain kind: anything but create, modify
/// and remove is dropped. `Rename` is never produced: a native rename arrives
/// as separate delete and create notifications.
pub open spec fn spec_map_kind(k: RawEventKind) -> Option<FileEventType> {
    match k {
        RawEventKind::Create => Some(FileEventType::Create),
        RawEventKind::Modify => Some(FileEventType::Modify),
        RawEventKind::Remove => Some(FileEventType::Delete),
        RawEventKind::Access => None,
        RawEventKind::Any => None,
        RawEventKind::Other => None,
    }
}

/// The path of `p` relative to the watched root `vp`: empty for the root
/// itself, the suffix for anything below it, nothing for a path outside.
pub open spec fn spec_relative(p: Seq<char>, vp: Seq<char>) -> Option<Seq<char>> {
    if p == vp {
        Some(Seq::empty())
    } else if is_under(p, vp) {
        Some(suffix_below(p, vp))
    } else {
        None
    }
}

/// What the pipeline does with one raw event, short-circuiting in order: drop
/// it when any touched path has an unexpired pending marker (self-caused);
/// drop it when any touched path has a component equal to the internal
/// metadata directory; drop unclassifiable kinds; drop events whose first
/// path cannot be expressed relative to the watched root; otherwise emit a
/// domain event with the relative path.
pub open spec fn spec_process(
    kind: RawEventKind,
    paths: Seq<Seq<char>>,
    vault_id: VaultId,
    vp: Seq<char>,
    marks: Seq<PendingMarkV>,
    now_ms: i64,
) -> Option<FileSystemEventV> {
    if exists|i: int| 0 <= i < paths.len() && pending_at(marks, paths[i], now_ms) {
        None
    } else if exists|i: int| 0 <= i < paths.len() && spec_segments(paths[i]).contains(".inkrypt"@) {
        None
    } else {
        match spec_map_kind(kind) {
            None => None,
            Some(t) => {
                if paths.len() == 0 {
                    None
                } else {
                    match spec_relative(paths[0], vp) {
                        Some(rel) => Some(
                            FileSystemEventV { event_type: t, path: rel, vault_id },
                        ),
                        None => None,
                    }
                }
            },
        }
    }
}

/// Filter and classify one raw native event against the watched vault.
#[verifier::loop_isolation(false)]
pub fn process_notify_event(
    kind: RawEventKind,
    event_paths: &Vec<String>,
    vault_id: VaultId,
    vault_path: &str,
    pending: &PendingOps,
    now_ms: i64,
) -> (r: Option<FileSystemEvent>)
    ensures
        match r {
            Some(e) => spec_process(
                kind,
                event_paths.deep_view(),
                vault_id,
                vault_path@,
                pending@,
                now_ms,
            ) == Some(e@),
            None => spec_process(
                kind,
                event_paths.deep_view(),
                vault_id,
                vault_path@,
                pending@,
                now_ms,
            ) is None,
        },
{
    let ghost pathsv = event_paths.deep_view();
    let n = event_paths.len();
    let mut i: usize = 0;
    while i < n
        invariant
            i <= n,
            forall|j: int| 0 <= j < i ==> !pending_at(pending@, pathsv[j], now_ms),
        decreases n - i,
    {
        proof {
            assert(pathsv[i as int] == event_paths@[i as int]@);
        }
        if pending.is_pending(event_paths[i].as_str(), now_ms) {
            return None;
        }
        i = i + 1;
    }
    let mut i: usize = 0;
    while i < n
        invariant
            i <= n,
            forall|j: int| 0 <= j < i ==> !spec_segments(pathsv[j]).contains(".inkrypt"@),
        decreases n - i,
    {
        proof {
            assert(pathsv[i as int] == event_paths@[i as int]@);
        }
        if path_has_component(event_paths[i].as_str(), ".inkrypt") {
            return None;
        }
        i = i + 1;
    }
    let event_type = match kind {
        RawEventKind::Create => FileEventType::Create,
        RawEventKind::Modify => FileEventType::Modify,
        RawEventKind::Remove => FileEventType::Delete,
        RawEventKind::Access => {
            return None;
        },
        RawEventKind::Any => {
            return None;
        },
        RawEventKind::Other => {
            return None;
        },
    };
    if event_paths.len() == 0 {
        return None;
    }
    let first = &event_paths[0];
    proof {
        assert(pathsv[0] == event_paths@[0]@);
    }
    if str_eq(first.as_str(), vault_path) {
        return Some(FileSystemEvent { event_type, path: String::new(), vault_id });
    }
    match strip_prefix(first.as_str(), vault_path) {
        Some(rel) => {
            proof {
                let sfx = suffix_below(pathsv[0], vault_path@);
                assert(pathsv[0] == joined(vault_path@, sfx));
                lemma_joined_injective(vault_path@, rel@, sfx);
            }
            Some(FileSystemEvent { event_type, path: rel, vault_id })
        },
        None => None,
    }
}

/// Law: while a pending marker for one of its paths is unexpired, a raw event
/// is dropped entirely.
pub proof fn lemma_pending_suppresses(
    kind: RawEventKind,
    paths: Seq<Seq<char>>,
    vault_id: VaultId,
    vp: Seq<char>,
    marks: Seq<PendingMarkV>,
    now_ms: i64,
    i: int,
)
    requires
        0 <= i < paths.len(),
        pending_at(marks, paths[i], now_ms),
    ensures
        spec_process(kind, paths, vault_id, vp, marks, now_ms) is None,
{
}

/// Law: registering a path and delivering a raw event for it strictly within
/// the marker's lifetime yields no emitted event, whatever else is marked.
pub proof fn lemma_suppression_window(
    kind: RawEventKind,
    paths: Seq<Seq<char>>,
    vault_id: VaultId,
    vp: Seq<char>,
    marks: Seq<PendingMarkV>,
    path: Seq<char>,
    t0: i64,
    t: i64,
    i: int,
)
    requires
        0 <= i < paths.len(),
        paths[i] == path,
        t0 <= t < t0 + PENDING_TTL_MS,
        t0 + PENDING_TTL_MS <= i64::MAX,
    ensures
        spec_process(
            kind,
            paths,
            vault_id,
            vp,
            marks.push(PendingMarkV { path, expires_ms: (t0 + PENDING_TTL_MS) as i64 }),
            t,
        ) is None,
{
    let ms = marks.push(PendingMarkV { path, expires_ms: (t0 + PENDING_TTL_MS) as i64 });
    assert(pending_at(ms, path, t)) by {
        assert(ms[ms.len() - 1].path == path && t < ms[ms.len() - 1].expires_ms);
    }
    lemma_pending_suppresses(kind, paths, vault_id, vp, ms, t, i);
}

/// Law: once every marker has lapsed, the pipeline treats a raw event exactly
/// as it would with no markers at all: a later event for a once-marked path
/// is classified and emitted normally.
pub proof fn lemma_expired_marks_ignored(
    kind: RawEventKind,
    paths: Seq<Seq<char>>,
    vault_id: VaultId,
    vp: Seq<char>,
    marks: Seq<PendingMarkV>,
    now_ms: i64,
)
    requires
        forall|i: int| 0 <= i < marks.len() ==> #[trigger] marks[i].expires_ms <= now_ms,
    ensures
        spec_process(kind, paths, vault_id, vp, marks, now_ms) == spec_process(
            kind,
            paths,
            vault_id,
            vp,
            Seq::<PendingMarkV>::empty(),
            now_ms,
        ),
{
    assert(forall|p: Seq<char>| !pending_at(marks, p, now_ms));
    assert(forall|p: Seq<char>| !pending_at(Seq::<PendingMarkV>::empty(), p, now_ms));
}

/// Whether two events fall together under deduplication: same vault, same
/// relative path.
pub open spec fn evt_key_match(a: FileSystemEventV, b: FileSystemEventV) -> bool {
    a.vault_id == b.vault_id && a.path == b.path
}

/// Deduplication: keep each event only when no later event in the batch
/// carries the same `(vault, path)` key, so rapid successive events on one
/// path collapse to the most recent one, and the kept events stay in
/// chronological order.
pub open spec fn spec_dedup(s: Seq<FileSystemEventV>) -> Seq<FileSystemEventV>
    decreases s.len(),
{
    if s.len() == 0 {
        Seq::empty()
    } else {
        let rest = spec_dedup(s.drop_first());
        if exists|j: int| 1 <= j < s.len() && evt_key_match(s[j], s[0]) {
            rest
        } else {
            seq![s[0]] + rest
        }
    }
}

/// Whether some later event shares `events[i]`'s key.
#[verifier::loop_isolation(false)]
fn superseded_later(events: &Vec<FileSystemEvent>, i: usize) -> (r: bool)
    requires
        i < events@.len(),
    ensures
        r == exists|j: int|
            i < j < events.deep_view().len() && evt_key_match(
                events.deep_view()[j],
                events.deep_view()[i as int],
            ),
{
    let ghost ev = events.deep_view();
    let n = events.len();
    let mut j: usize = i + 1;
    while j < n
        invariant
            i < j <= n,
            forall|k: int| i < k < j ==> !evt_key_match(ev[k], ev[i as int]),
        decreases n - j,
    {
        proof {
            assert(ev[j as int] == events@[j as int]@);
            assert(ev[i as int] == events@[i as int]@);
        }
        if events[j].vault_id == events[i].vault_id && str_eq(
            events[j].path.as_str(),
            events[i].path.as_str(),
        ) {
            return true;
        }
        j = j + 1;
    }
    false
}

/// Deduplicate a batch: scanning from most recent to oldest, keep only the
/// first-seen event per `(vault, path)` key, then restore chronological
/// order. Rapid create and modify events on one path within a window collapse
/// to a single event of the latest kind.
#[verifier::loop_isolation(false)]
pub fn deduplicate_events(events: &Vec<FileSystemEvent>) -> (r: Vec<FileSystemEvent>)
    ensures
        r.deep_view() == spec_dedup(events.deep_view()),
    decreases events@.len(),
{
    let ghost ev = events.deep_view();
    let n = events.len();
    let mut out: Vec<FileSystemEvent> = Vec::new();
    let mut i: usize = 0;
    proof {
        assert(ev.skip(0) =~= ev);
    }
    while i < n
        invariant
            i <= n,
            n == ev.len(),
            out.deep_view() + spec_dedup(ev.skip(i as int)) =~= spec_dedup(ev),
        decreases n - i,
    {
        proof {
            assert(ev.skip(i as int).drop_first() =~= ev.skip(i as int + 1));
            assert(ev.skip(i as int)[0] == ev[i as int]);
            assert(ev[i as int] == events@[i as int]@);
            assert forall|j: int|
                1 <= j < ev.skip(i as int).len() implies ev.skip(i as int)[j] == ev[i as int
                + j] by {}
        }
        let sup = superseded_later(events, i);
        proof {
            let tail = ev.skip(i as int);
            if sup {
                let j = choose|j: int|
                    i < j < ev.len() && evt_key_match(ev[j], ev[i as int]);
                assert(evt_key_match(tail[j - i], tail[0]));
                assert(exists|j2: int| 1 <= j2 < tail.len() && evt_key_match(tail[j2], tail[0]));
            } else {
                if exists|j2: int| 1 <= j2 < tail.len() && evt_key_match(tail[j2], tail[0]) {
                    let j2 = choose|j2: int|
                        1 <= j2 < tail.len() && evt_key_match(tail[j2], tail[0]);
                    assert(evt_key_match(ev[i as int + j2], ev[i as int]));
                }
            }
        }
        if !sup {
            let e = FileSystemEvent {
                event_type: events[i].event_type,
                path: events[i].path.clone(),
                vault_id: events[i].vault_id,
            };
            proof {
                assert(e@ == ev[i as int]);
            }
            out.push(e);
        }
        proof {
            assert(out.deep_view() + spec_dedup(ev.skip(i as int + 1)) =~= spec_dedup(ev));
        }
        i = i + 1;
    }
    proof {
        assert(ev.skip(n as int) =~= Seq::<FileSystemEventV>::empty());
        assert(spec_dedup(ev.skip(n as int)) =~= Seq::<FileSystemEventV>::empty());
        assert(out.deep_view() =~= spec_dedup(ev));
    }
    out
}

/// The debounced batch builder a consumer task drives: raw events that
/// survive filtering are buffered; on each receive timeout the buffer is
/// emitted as one deduplicated batch when it is non-empty and at least the
/// debounce window has passed since the last emission.
pub struct EventBatcher {
    pub buffer: Vec<FileSystemEvent>,
    pub last_emit_ms: i64,
}

impl EventBatcher {
    /// An empty buffer whose flush clock starts at `now_ms`.
    pub fn new(now_ms: i64) -> (r: Self)
        requires
            now_ms >= 0,
        ensures
            r.buffer.deep_view() =~= Seq::<FileSystemEventV>::empty(),
            r.last_emit_ms == now_ms,
    {
        EventBatcher { buffer: Vec::new(), last_emit_ms: now_ms }
    }

    /// Append one retained event. The flush clock does not reset on arrival:
    /// only the flush decision is time-gated.
    pub fn on_event(&mut self, e: FileSystemEvent)
        ensures
            final(self).buffer.deep_view() == old(self).buffer.deep_view().push(e@),
            final(self).last_emit_ms == old(self).last_emit_ms,
    {
        let ghost pre = self.buffer.deep_view();
        self.buffer.push(e);
        proof {
            assert(self.buffer.deep_view() =~= pre.push(self.buffer@.last()@));
        }
    }

    /// The flush decision on a receive timeout: when the buffer is non-empty
    /// and at least the debounce window has passed since the last emission,
    /// the deduplicated buffer is emitted as one batch, the buffer cleared
    /// and the flush clock reset; otherwise nothing happens.
    pub fn on_timeout(&mut self, now_ms: i64) -> (r: Option<Vec<FileSystemEvent>>)
        requires
            0 <= old(self).last_emit_ms <= now_ms,
        ensures
            if old(self).buffer.deep_view().len() > 0 && now_ms - old(self).last_emit_ms
                >= DEBOUNCE_MS {
                match r {
                    Some(batch) => batch.deep_view() == spec_dedup(old(self).buffer.deep_view())
                        && final(self).buffer.deep_view() =~= Seq::<FileSystemEventV>::empty()
                        && final(self).last_emit_ms == now_ms,
                    None => false,
                }
            } else {
                r is None && final(self).buffer == old(self).buffer && final(self).last_emit_ms
                    == old(self).last_emit_ms
            },
    {
        if self.buffer.len() > 0 && now_ms - self.last_emit_ms >= DEBOUNCE_MS {
            let batch = deduplicate_events(&self.buffer);
            self.buffer = Vec::new();
            self.last_emit_ms = now_ms;
            Some(batch)
        } else {
            None
        }
    }
}

/// The single active watch: at most one vault is watched process-wide.
pub struct WatchState {
    pub vault_id: VaultId,
    pub vault_path: String,
}

/// The watcher: the one optional watch slot and the shared pending-operation
/// markers. The host owns the native watch handle and the consumer task; this
/// state machine decides what they should do.
pub struct VaultWatcher {
    pub current: Option<WatchState>,
    pub pending: PendingOps,
}

impl VaultWatcher {
    /// Idle, with no markers.
    pub fn new() -> (r: Self)
        ensures
            r.current is None,
            r.pending@ =~= Seq::<PendingMarkV>::empty(),
    {
        VaultWatcher { current: None, pending: PendingOps::new() }
    }

    /// Stop any current watch.
    fn unwatch_current_vault(&mut self)
        ensures
            final(self).current is None,
            final(self).pending == old(self).pending,
    {
        self.current = None;
    }

    /// Watch a vault, implicitly stopping any watch that was active: the
    /// last caller wins the slot.
    pub fn watch_vault(&mut self, vault_id: VaultId, vault_path: String)
        ensures
            match final(self).current {
                Some(w) => w.vault_id == vault_id && w.vault_path@ == vault_path@,
                None => false,
            },
            final(self).pending == old(self).pending,
    {
        self.unwatch_current_vault();
        self.current = Some(WatchState { vault_id, vault_path });
    }

    /// Stop watching `vault_id`: a no-op when idle or when a different vault
    /// holds the slot.
    pub fn unwatch_vault(&mut self, vault_id: VaultId)
        ensures
            final(self).pending == old(self).pending,
            match old(self).current {
                Some(w) => if w.vault_id == vault_id {
                    final(self).current is None
                } else {
                    final(self).current == old(self).current
                },
                None => final(self).current is None,
            },
    {
        match &self.current {
            Some(w) => {
                if w.vault_id == vault_id {
                    self.current = None;
                }
            },
            None => {},
        }
    }

    /// Register a path the application is about to write, so the resulting
    /// notification is not echoed back as an external change.
    pub fn mark_pending_operation(&mut self, path: String, now_ms: i64)
        requires
            now_ms <= i64::MAX - PENDING_TTL_MS,
        ensures
            final(self).pending@ == old(self).pending@.push(
                PendingMarkV { path: path@, expires_ms: (now_ms + PENDING_TTL_MS) as i64 },
            ),
            final(self).current == old(self).current,
    {
        self.pending.mark(path, now_ms);
    }
}

} // verus!
