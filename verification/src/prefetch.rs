//! Serial background phone-history and attachment prefetch.
//!
//! Times are milliseconds on a monotonic clock; the caller reads the clock
//! and hands the reading in.
use vstd::prelude::*;
use crate::model::{Chat, ChatId};
use crate::ranking::{lemma_ranked_is_sorted_permutation, rank_newest_first, ranked};
use crate::text::{holds_text, opt_str_view, owned, same_text};
use vstd::arithmetic::power2::{lemma2_to64, pow2};

verus! {

/// How much phone history the background worker fetches.
#[derive(Clone, Copy, Debug, PartialEq, Eq, Structural)]
pub enum HistoryPrefetch {
    Off,
    Focused,
    RecentAndPinned,
}

/// Pause after a history page arrives before asking for the next one.
pub const HISTORY_GAP: u64 = 20_000;

/// Pause after a prefetched attachment before starting the next one.
pub const MEDIA_GAP: u64 = 3_000;

/// Largest attachment the prefetch downloads, in bytes.
pub const MEDIA_MAX: u64 = 64 * 1024 * 1024;

/// How many recently active unpinned chats the recent mode covers.
pub const RECENT_LIMIT: usize = 10;

// ---------------------------------------------------------------------------
// Which chats the prefetch visits
// ---------------------------------------------------------------------------

/// Each chat keyed by its pin stamp, with its position in the list.
pub open spec fn keyed_by_pin(chats: Seq<Chat>) -> Seq<(i64, usize)> {
    Seq::new(chats.len(), |i: int| (chats[i].pinned_at, i as usize))
}

/// Each chat keyed by its last activity, with its position in the list.
pub open spec fn keyed_by_activity(chats: Seq<Chat>) -> Seq<(i64, usize)> {
    Seq::new(chats.len(), |i: int| (chats[i].last_activity, i as usize))
}

/// The pinned chats, in list order, keyed by pin stamp.
pub open spec fn pin_entries(chats: Seq<Chat>) -> Seq<(i64, usize)> {
    keyed_by_pin(chats).filter(|e: (i64, usize)| chats[e.1 as int].pinned)
}

/// The unpinned, unarchived chats, in list order, keyed by last activity.
pub open spec fn recent_entries(chats: Seq<Chat>) -> Seq<(i64, usize)> {
    keyed_by_activity(chats).filter(
        |e: (i64, usize)| !chats[e.1 as int].pinned && !chats[e.1 as int].archived,
    )
}

/// The ids of the chats that the entries point at.
pub open spec fn entry_ids(chats: Seq<Chat>, entries: Seq<(i64, usize)>) -> Seq<Seq<char>> {
    entries.map_values(|e: (i64, usize)| chats[e.1 as int].id@)
}

/// The first `n` elements, or all of them when there are fewer.
pub open spec fn first_n<A>(s: Seq<A>, n: nat) -> Seq<A> {
    if s.len() <= n {
        s
    } else {
        s.take(n as int)
    }
}

/// Whether some chat in the list has this id.
pub open spec fn lists_chat(chats: Seq<Chat>, id: Seq<char>) -> bool {
    exists|i: int| 0 <= i < chats.len() && chats[i].id@ == id
}

/// The open chat, when it is in the list.
pub open spec fn open_chat_part(chats: Seq<Chat>, focused: Option<Seq<char>>) -> Seq<Seq<char>> {
    match focused {
        Some(f) => if lists_chat(chats, f) {
            seq![f]
        } else {
            Seq::empty()
        },
        None => Seq::empty(),
    }
}

/// The open chat, then the pinned chats by pin stamp (newest pin first),
/// then the ten most recently active unpinned chats that are not archived.
pub open spec fn recent_and_pinned_candidates(
    chats: Seq<Chat>,
    focused: Option<Seq<char>>,
) -> Seq<Seq<char>> {
    open_chat_part(chats, focused) + entry_ids(chats, ranked(pin_entries(chats))) + entry_ids(
        chats,
        first_n(ranked(recent_entries(chats)), RECENT_LIMIT as nat),
    )
}

/// The sequence with every element after its first occurrence dropped.
pub open spec fn without_repeats(s: Seq<Seq<char>>) -> Seq<Seq<char>>
    decreases s.len(),
{
    if s.len() == 0 {
        s
    } else {
        let kept = without_repeats(s.drop_last());
        if kept.contains(s.last()) {
            kept
        } else {
            kept.push(s.last())
        }
    }
}

/// The chats whose history the prefetch visits, in visiting order.
pub open spec fn prefetch_targets(
    chats: Seq<Chat>,
    mode: HistoryPrefetch,
    focused: Option<Seq<char>>,
) -> Seq<Seq<char>> {
    match mode {
        HistoryPrefetch::Off => Seq::empty(),
        HistoryPrefetch::Focused => match focused {
            Some(f) => seq![f],
            None => Seq::empty(),
        },
        HistoryPrefetch::RecentAndPinned => without_repeats(
            recent_and_pinned_candidates(chats, focused),
        ),
    }
}

proof fn lemma_without_repeats_single(f: Seq<char>)
    ensures
        without_repeats(seq![f]) == seq![f],
{
    assert(seq![f].drop_last() =~= Seq::<Seq<char>>::empty());
    assert(without_repeats(Seq::<Seq<char>>::empty()) == Seq::<Seq<char>>::empty());
    assert(Seq::<Seq<char>>::empty().push(f) =~= seq![f]);
}

/// Every entry of a ranking points into the list when every entry it ranks does.
proof fn lemma_ranked_positions(entries: Seq<(i64, usize)>, n: int)
    requires
        forall|k: int| 0 <= k < entries.len() ==> (#[trigger] entries[k]).1 < n,
    ensures
        forall|k: int| 0 <= k < ranked(entries).len() ==> (#[trigger] ranked(entries)[k]).1 < n,
{
    broadcast use vstd::seq_lib::group_to_multiset_ensures;

    lemma_ranked_is_sorted_permutation(entries);
    assert forall|k: int| 0 <= k < ranked(entries).len() implies (#[trigger] ranked(
        entries,
    )[k]).1 < n by {
        let x = ranked(entries)[k];
        assert(ranked(entries).contains(x));
        assert(ranked(entries).to_multiset().count(x) > 0);
        assert(entries.contains(x));
    }
}

/// Adding an id to the targets built so far keeps them free of repeats.
proof fn lemma_extend_candidates(
    prefix: Seq<Seq<char>>,
    chats: Seq<Chat>,
    entries: Seq<(i64, usize)>,
    k: int,
)
    requires
        0 <= k < entries.len(),
    ensures
        (prefix + entry_ids(chats, entries.take(k + 1))).drop_last() == prefix + entry_ids(
            chats,
            entries.take(k),
        ),
        (prefix + entry_ids(chats, entries.take(k + 1))).last() == chats[entries[k].1 as int].id@,
        (prefix + entry_ids(chats, entries.take(k + 1))).len() > 0,
{
    assert((prefix + entry_ids(chats, entries.take(k + 1))).drop_last() =~= prefix + entry_ids(
        chats,
        entries.take(k),
    ));
}

/// Adds `id` unless it is already there.
fn push_unique(out: &mut Vec<ChatId>, id: &str)
    ensures
        final(out).deep_view() == (if old(out).deep_view().contains(id@) {
            old(out).deep_view()
        } else {
            old(out).deep_view().push(id@)
        }),
{
    if !holds_text(out.as_slice(), id) {
        out.push(owned(id));
        assert(out.deep_view() =~= old(out).deep_view().push(id@));
    }
}

/// Open chat first when it belongs in the mode, then pinned (top first), then
/// the ten most recently active unpinned chats that are not archived.
pub fn targets(chats: &[Chat], mode: HistoryPrefetch, focused: Option<&str>) -> (r: Vec<ChatId>)
    ensures
        r.deep_view() == prefetch_targets(chats@, mode, opt_str_view(focused)),
{
    match mode {
        HistoryPrefetch::Off => {
            let r: Vec<ChatId> = Vec::new();
            assert(r.deep_view() =~= Seq::<Seq<char>>::empty());
            r
        },
        HistoryPrefetch::Focused => {
            let mut r: Vec<ChatId> = Vec::new();
            if let Some(id) = focused {
                r.push(owned(id));
                assert(r.deep_view() =~= seq![id@]);
            } else {
                assert(r.deep_view() =~= Seq::<Seq<char>>::empty());
            }
            r
        },
        HistoryPrefetch::RecentAndPinned => recent_and_pinned(chats, focused),
    }
}

/// Whether a chat with this id is in the list.
fn has_chat(chats: &[Chat], id: &str) -> (r: bool)
    ensures
        r == lists_chat(chats@, id@),
{
    let wanted = owned(id);
    let mut j: usize = 0;
    while j < chats.len()
        invariant
            j <= chats.len(),
            wanted@ == id@,
            forall|k: int| 0 <= k < j ==> chats@[k].id@ != id@,
        decreases chats.len() - j,
    {
        if chats[j].id == wanted {
            return true;
        }
        j = j + 1;
    }
    false
}

/// The entries of the chats that `pinned` (or, when false, the unpinned and
/// unarchived ones), keyed by pin stamp or by last activity.
fn collect_entries(chats: &[Chat], pinned: bool) -> (r: Vec<(i64, usize)>)
    ensures
        pinned ==> r@ == pin_entries(chats@),
        !pinned ==> r@ == recent_entries(chats@),
        forall|k: int| 0 <= k < r@.len() ==> (#[trigger] r@[k]).1 < chats@.len(),
{
    let ghost pin_pred = |e: (i64, usize)| chats@[e.1 as int].pinned;
    let ghost recent_pred = |e: (i64, usize)|
        !chats@[e.1 as int].pinned && !chats@[e.1 as int].archived;
    let mut out: Vec<(i64, usize)> = Vec::new();
    let mut i: usize = 0;
    proof {
        reveal(Seq::filter);
        assert(keyed_by_pin(chats@).take(0) =~= Seq::<(i64, usize)>::empty());
        assert(keyed_by_activity(chats@).take(0) =~= Seq::<(i64, usize)>::empty());
    }
    while i < chats.len()
        invariant
            i <= chats.len(),
            pinned ==> out@ == keyed_by_pin(chats@).take(i as int).filter(pin_pred),
            !pinned ==> out@ == keyed_by_activity(chats@).take(i as int).filter(recent_pred),
            pin_pred == (|e: (i64, usize)| chats@[e.1 as int].pinned),
            recent_pred == (|e: (i64, usize)|
                !chats@[e.1 as int].pinned && !chats@[e.1 as int].archived),
            forall|k: int| 0 <= k < out@.len() ==> (#[trigger] out@[k]).1 < i,
        decreases chats.len() - i,
    {
        let chat = &chats[i];
        proof {
            assert(keyed_by_pin(chats@).take(i + 1) =~= keyed_by_pin(chats@).take(i as int).push(
                (chat.pinned_at, i),
            ));
            assert(keyed_by_activity(chats@).take(i + 1) =~= keyed_by_activity(chats@).take(
                i as int,
            ).push((chat.last_activity, i)));
            keyed_by_pin(chats@).take(i as int).lemma_filter_push((chat.pinned_at, i), pin_pred);
            keyed_by_activity(chats@).take(i as int).lemma_filter_push(
                (chat.last_activity, i),
                recent_pred,
            );
        }
        if pinned {
            if chat.pinned {
                out.push((chat.pinned_at, i));
            }
        } else {
            if !chat.pinned && !chat.archived {
                out.push((chat.last_activity, i));
            }
        }
        i = i + 1;
    }
    proof {
        assert(keyed_by_pin(chats@).take(chats@.len() as int) =~= keyed_by_pin(chats@));
        assert(keyed_by_activity(chats@).take(chats@.len() as int) =~= keyed_by_activity(chats@));
    }
    out
}

/// Pushes the ids of the first `limit` ranked entries, skipping repeats.
fn push_ranked_ids(
    out: &mut Vec<ChatId>,
    chats: &[Chat],
    ranked_entries: &Vec<(i64, usize)>,
    limit: usize,
    Ghost(prefix): Ghost<Seq<Seq<char>>>,
)
    requires
        old(out).deep_view() == without_repeats(prefix),
        forall|k: int|
            0 <= k < ranked_entries@.len() ==> (#[trigger] ranked_entries@[k]).1 < chats@.len(),
    ensures
        final(out).deep_view() == without_repeats(
            prefix + entry_ids(chats@, first_n(ranked_entries@, limit as nat)),
        ),
{
    let mut k: usize = 0;
    proof {
        assert(prefix + entry_ids(chats@, ranked_entries@.take(0)) =~= prefix);
    }
    while k < ranked_entries.len() && k < limit
        invariant
            k <= ranked_entries@.len(),
            k <= limit,
            out.deep_view() == without_repeats(
                prefix + entry_ids(chats@, ranked_entries@.take(k as int)),
            ),
            forall|j: int|
                0 <= j < ranked_entries@.len() ==> (#[trigger] ranked_entries@[j]).1
                    < chats@.len(),
        decreases ranked_entries@.len() - k,
    {
        let e = ranked_entries[k];
        proof {
            lemma_extend_candidates(prefix, chats@, ranked_entries@, k as int);
        }
        push_unique(out, chats[e.1].id.as_str());
        k = k + 1;
    }
    proof {
        if ranked_entries@.len() <= limit {
            assert(ranked_entries@.take(k as int) =~= ranked_entries@);
        }
    }
}

fn recent_and_pinned(chats: &[Chat], focused: Option<&str>) -> (r: Vec<ChatId>)
    ensures
        r.deep_view() == without_repeats(
            recent_and_pinned_candidates(chats@, opt_str_view(focused)),
        ),
{
    let mut out: Vec<ChatId> = Vec::new();
    if let Some(id) = focused {
        if has_chat(chats, id) {
            out.push(owned(id));
            proof {
                assert(out.deep_view() =~= seq![id@]);
                lemma_without_repeats_single(id@);
            }
        }
    }
    let ghost open_part = open_chat_part(chats@, opt_str_view(focused));
    proof {
        if out.deep_view().len() == 0 {
            assert(out.deep_view() =~= Seq::<Seq<char>>::empty());
            assert(open_part =~= Seq::<Seq<char>>::empty());
        }
    }
    let pinned = collect_entries(chats, true);
    let pinned = rank_newest_first(&pinned);
    proof {
        lemma_ranked_positions(pin_entries(chats@), chats@.len() as int);
    }
    let ghost pinned_ids = entry_ids(chats@, ranked(pin_entries(chats@)));
    push_ranked_ids(&mut out, chats, &pinned, pinned.len(), Ghost(open_part));
    let recent = collect_entries(chats, false);
    let recent = rank_newest_first(&recent);
    proof {
        lemma_ranked_positions(recent_entries(chats@), chats@.len() as int);
    }
    push_ranked_ids(&mut out, chats, &recent, RECENT_LIMIT, Ghost(open_part + pinned_ids));
    out
}

// ---------------------------------------------------------------------------
// The prefetch worker's state
// ---------------------------------------------------------------------------

/// What the prefetch worker keeps between steps, as plain values.
pub struct PrefetchView {
    pub mode: HistoryPrefetch,
    pub focused: Option<Seq<char>>,
    /// Chats whose phone history has no more pages this session.
    pub exhausted: Set<Seq<char>>,
    /// No history request before this time.
    pub history_due: Option<u64>,
    /// Failed history requests in a row.
    pub history_failures: u32,
    /// The chat whose history request is in flight.
    pub history_chat: Option<Seq<char>>,
    /// No attachment download before this time.
    pub media_due: Option<u64>,
    /// The chat and message whose attachment download is in flight.
    pub media: Option<(Seq<char>, Seq<char>)>,
}

/// The state of a worker that has done nothing yet.
pub open spec fn fresh_prefetch() -> PrefetchView {
    PrefetchView {
        mode: HistoryPrefetch::Off,
        focused: None,
        exhausted: Set::empty(),
        history_due: None,
        history_failures: 0,
        history_chat: None,
        media_due: None,
        media: None,
    }
}

/// The failure count after one more failure (it stops at the top of `u32`).
pub open spec fn one_more_failure(failures: u32) -> u32 {
    if failures == u32::MAX {
        failures
    } else {
        (failures + 1) as u32
    }
}

/// The doubling step of the back-off: failures after the first, at most five.
pub open spec fn backoff_shift(failures: u32) -> nat {
    if failures <= 1 {
        0
    } else if failures - 1 >= 5 {
        5
    } else {
        (failures - 1) as nat
    }
}

/// Seconds to wait after `failures` failed history requests in a row:
/// 30 s, doubling with each further failure, at most 900 s.
pub open spec fn backoff_secs(failures: u32) -> nat {
    let doubled = 30 * pow2(backoff_shift(failures));
    if doubled > 900 {
        900
    } else {
        doubled
    }
}

/// The first target that is not in `skip`.
pub open spec fn first_not_in(targets: Seq<Seq<char>>, skip: Set<Seq<char>>) -> Option<Seq<char>>
    decreases targets.len(),
{
    if targets.len() == 0 {
        None
    } else if !skip.contains(targets[0]) {
        Some(targets[0])
    } else {
        first_not_in(targets.drop_first(), skip)
    }
}

impl PrefetchView {
    pub open spec fn configured(self, mode: HistoryPrefetch, focused: Option<Seq<char>>) -> Self {
        if mode == HistoryPrefetch::Off {
            PrefetchView { mode, focused, history_chat: None, media: None, ..self }
        } else {
            PrefetchView { mode, focused, ..self }
        }
    }

    pub open spec fn reconnected(self) -> Self {
        PrefetchView {
            exhausted: Set::empty(),
            history_failures: 0,
            history_due: None,
            history_chat: None,
            ..self
        }
    }

    pub open spec fn session_reset(self) -> Self {
        PrefetchView { mode: self.mode, focused: self.focused, ..fresh_prefetch() }
    }

    /// The chat whose history the worker asks for next, if it may ask now.
    pub open spec fn history_pick(self, now: u64, phone_busy: bool, targets: Seq<Seq<char>>) -> Option<
        Seq<char>,
    > {
        if self.mode == HistoryPrefetch::Off || phone_busy || self.history_chat is Some {
            None
        } else if self.history_due matches Some(due) && now < due {
            None
        } else {
            first_not_in(targets, self.exhausted)
        }
    }

    pub open spec fn history_started(self, chat: Seq<char>) -> Self {
        PrefetchView { history_chat: Some(chat), ..self }
    }

    /// The completion of `chat` belongs to the request in flight.
    pub open spec fn owns_history(self, chat: Seq<char>) -> bool {
        self.history_chat == Some(chat)
    }

    pub open spec fn history_finished(self, chat: Seq<char>, more: bool, now: u64) -> Self {
        if !self.owns_history(chat) {
            self
        } else {
            PrefetchView {
                history_chat: None,
                history_failures: 0,
                history_due: Some((now + HISTORY_GAP) as u64),
                exhausted: if more {
                    self.exhausted
                } else {
                    self.exhausted.insert(chat)
                },
                ..self
            }
        }
    }

    /// A failure taken at `now` sets a back-off end that the clock can hold.
    pub open spec fn history_fail_fits(self, now: u64) -> bool {
        now + backoff_secs(one_more_failure(self.history_failures)) * 1000 <= u64::MAX
    }

    pub open spec fn history_failed(self, chat: Seq<char>, now: u64) -> Self {
        if !self.owns_history(chat) {
            self
        } else {
            let failures = one_more_failure(self.history_failures);
            PrefetchView {
                history_chat: None,
                history_failures: failures,
                history_due: Some((now + backoff_secs(failures) * 1000) as u64),
                ..self
            }
        }
    }

    pub open spec fn media_ready(self, now: u64) -> bool {
        &&& self.mode != HistoryPrefetch::Off
        &&& self.media is None
        &&& (self.media_due matches Some(due) ==> now >= due)
    }

    pub open spec fn media_active(self, chat: Seq<char>, id: Seq<char>) -> bool {
        self.media == Some((chat, id))
    }

    pub open spec fn media_started(self, chat: Seq<char>, id: Seq<char>) -> Self {
        PrefetchView { media: Some((chat, id)), ..self }
    }

    pub open spec fn media_finished(self, chat: Seq<char>, id: Seq<char>, now: u64) -> Self {
        if !self.media_active(chat, id) {
            self
        } else {
            PrefetchView { media: None, media_due: Some((now + MEDIA_GAP) as u64), ..self }
        }
    }
}

/// The worker that fetches phone history and attachments one at a time in
/// the background.
pub struct State {
    pub mode: HistoryPrefetch,
    pub focused: Option<ChatId>,
    /// Chats whose phone history has no more pages this session; a chat may
    /// appear more than once without changing what the worker does.
    pub exhausted: Vec<ChatId>,
    pub history_due: Option<u64>,
    pub history_failures: u32,
    pub history_chat: Option<ChatId>,
    pub media_due: Option<u64>,
    pub media: Option<(ChatId, String)>,
}

impl View for State {
    type V = PrefetchView;

    open spec fn view(&self) -> PrefetchView {
        PrefetchView {
            mode: self.mode,
            focused: self.focused.deep_view(),
            exhausted: self.exhausted.deep_view().to_set(),
            history_due: self.history_due,
            history_failures: self.history_failures,
            history_chat: self.history_chat.deep_view(),
            media_due: self.media_due,
            media: match self.media {
                Some(m) => Some((m.0@, m.1@)),
                None => None,
            },
        }
    }
}

impl Default for State {
    fn default() -> (s: Self)
        ensures
            s@ == fresh_prefetch(),
    {
        let s = State {
            mode: HistoryPrefetch::Off,
            focused: None,
            exhausted: Vec::new(),
            history_due: None,
            history_failures: 0,
            history_chat: None,
            media_due: None,
            media: None,
        };
        assert(s.exhausted.deep_view().to_set() =~= Set::<Seq<char>>::empty());
        s
    }
}

proof fn lemma_push_to_set(s: Seq<Seq<char>>, x: Seq<char>)
    ensures
        s.push(x).to_set() == s.to_set().insert(x),
{
    assert(s + seq![x] =~= s.push(x));
    Seq::lemma_to_set_insert_commutes(s, x);
}

/// A copy of an optional chat id.
fn copy_chat(chat: &Option<ChatId>) -> (r: Option<ChatId>)
    ensures
        r.deep_view() == chat.deep_view(),
{
    match chat {
        Some(c) => Some(c.clone()),
        None => None,
    }
}

impl State {
    pub fn configure(&mut self, mode: HistoryPrefetch, focused: Option<ChatId>)
        ensures
            final(self)@ == old(self)@.configured(mode, focused.deep_view()),
    {
        self.mode = mode;
        self.focused = focused;
        if mode == HistoryPrefetch::Off {
            self.history_chat = None;
            self.media = None;
        }
    }

    /// After reconnect, phone history may be available again.
    pub fn on_connected(&mut self)
        ensures
            final(self)@ == old(self)@.reconnected(),
    {
        self.exhausted.clear();
        self.history_failures = 0;
        self.history_due = None;
        self.history_chat = None;
        assert(self.exhausted.deep_view().to_set() =~= Set::<Seq<char>>::empty());
    }

    pub fn reset_session(&mut self)
        ensures
            final(self)@ == old(self)@.session_reset(),
    {
        let mode = self.mode;
        let focused = copy_chat(&self.focused);
        *self = Self::default();
        self.mode = mode;
        self.focused = focused;
    }

    pub fn next_history(&self, now: u64, phone_busy: bool, targets: &[ChatId]) -> (r: Option<
        ChatId,
    >)
        ensures
            r.deep_view() == self@.history_pick(now, phone_busy, targets.deep_view()),
    {
        if self.mode == HistoryPrefetch::Off || phone_busy || self.history_chat.is_some() {
            return None;
        }
        if let Some(due) = self.history_due {
            if now < due {
                return None;
            }
        }
        let ghost skip = self@.exhausted;
        let ghost all = targets.deep_view();
        let mut j: usize = 0;
        assert(all.subrange(0, all.len() as int) =~= all);
        while j < targets.len()
            invariant
                j <= targets.len(),
                skip == self@.exhausted,
                all == targets.deep_view(),
                self@.history_pick(now, phone_busy, all) == first_not_in(all, skip),
                first_not_in(all, skip) == first_not_in(all.subrange(j as int, all.len() as int), skip),
            decreases targets.len() - j,
        {
            let chat = &targets[j];
            proof {
                assert(all.subrange(j as int, all.len() as int).drop_first() =~= all.subrange(
                    j + 1,
                    all.len() as int,
                ));
                assert(all.subrange(j as int, all.len() as int)[0] == chat@);
            }
            if !holds_text(self.exhausted.as_slice(), chat.as_str()) {
                let found = chat.clone();
                proof {
                    let rest = all.subrange(j as int, all.len() as int);
                    assert(!skip.contains(rest[0]));
                    assert(first_not_in(rest, skip) == Some(rest[0]));
                    assert(Some(found).deep_view() == Some(found@));
                }
                return Some(found);
            }
            j = j + 1;
        }
        proof {
            assert(all.subrange(j as int, all.len() as int).len() == 0);
        }
        None
    }

    pub fn start_history(&mut self, chat: ChatId)
        ensures
            final(self)@ == old(self)@.history_started(chat@),
    {
        self.history_chat = Some(chat);
    }

    /// Whether the in-flight history request is the one for `chat`.
    fn owns_history(&self, chat: &str) -> (r: bool)
        ensures
            r == self@.owns_history(chat@),
    {
        match &self.history_chat {
            Some(active) => same_text(active.as_str(), chat),
            None => false,
        }
    }

    /// True when this completion belongs to the prefetch request.
    pub fn finish_history(&mut self, chat: &str, more: bool, now: u64) -> (r: bool)
        requires
            old(self)@.owns_history(chat@) ==> now + HISTORY_GAP <= u64::MAX,
        ensures
            r == old(self)@.owns_history(chat@),
            final(self)@ == old(self)@.history_finished(chat@, more, now),
    {
        if !self.owns_history(chat) {
            return false;
        }
        self.history_chat = None;
        self.history_failures = 0;
        self.history_due = Some(now + HISTORY_GAP);
        if !more {
            if !holds_text(self.exhausted.as_slice(), chat) {
                let ghost before = self.exhausted.deep_view();
                self.exhausted.push(owned(chat));
                proof {
                    assert(self.exhausted.deep_view() =~= before.push(chat@));
                    lemma_push_to_set(before, chat@);
                }
            }
        }
        assert(self.exhausted.deep_view().to_set() =~= (if more {
            old(self)@.exhausted
        } else {
            old(self)@.exhausted.insert(chat@)
        }));
        true
    }

    pub fn fail_history(&mut self, chat: &str, now: u64) -> (r: bool)
        requires
            old(self)@.owns_history(chat@) ==> old(self)@.history_fail_fits(now),
        ensures
            r == old(self)@.owns_history(chat@),
            final(self)@ == old(self)@.history_failed(chat@, now),
    {
        if !self.owns_history(chat) {
            return false;
        }
        self.history_chat = None;
        self.history_failures = self.history_failures.saturating_add(1);
        let failures = self.history_failures;
        let shift: u32 = if failures - 1 < 5 { failures - 1 } else { 5 };
        let pow: u64 = 1_u64 << shift;
        proof {
            assert(shift <= 5 ==> (1u64 << shift) == (if shift == 0 {
                1u64
            } else if shift == 1 {
                2u64
            } else if shift == 2 {
                4u64
            } else if shift == 3 {
                8u64
            } else if shift == 4 {
                16u64
            } else {
                32u64
            })) by (bit_vector);
        }
        let doubled: u64 = 30 * pow;
        let delay: u64 = if doubled < 900 { doubled } else { 900 };
        proof {
            lemma2_to64();
            assert(shift == backoff_shift(failures));
            assert(delay == backoff_secs(failures));
        }
        self.history_due = Some(now + delay * 1000);
        true
    }

    pub fn next_media_ready(&self, now: u64) -> (r: bool)
        ensures
            r == self@.media_ready(now),
    {
        self.mode != HistoryPrefetch::Off && self.media.is_none() && match self.media_due {
            Some(due) => now >= due,
            None => true,
        }
    }

    /// Whether the download of this attachment is the one in flight.
    pub fn skip_media(&self, chat: &str, id: &str) -> (r: bool)
        ensures
            r == self@.media_active(chat@, id@),
    {
        match &self.media {
            Some(active) => same_text(active.0.as_str(), chat) && same_text(active.1.as_str(), id),
            None => false,
        }
    }

    pub fn start_media(&mut self, chat: ChatId, id: String)
        ensures
            final(self)@ == old(self)@.media_started(chat@, id@),
    {
        self.media = Some((chat, id));
    }

    /// True when this completion belongs to the prefetch download.
    pub fn finish_media(&mut self, chat: &str, id: &str, now: u64) -> (r: bool)
        requires
            old(self)@.media_active(chat@, id@) ==> now + MEDIA_GAP <= u64::MAX,
        ensures
            r == old(self)@.media_active(chat@, id@),
            final(self)@ == old(self)@.media_finished(chat@, id@, now),
    {
        if !self.skip_media(chat, id) {
            return false;
        }
        self.media = None;
        self.media_due = Some(now + MEDIA_GAP);
        true
    }
}

// ---------------------------------------------------------------------------
// Laws of the prefetch worker
// ---------------------------------------------------------------------------

/// The first target outside `skip` is a target and is not in `skip`.
pub proof fn lemma_first_not_in(targets: Seq<Seq<char>>, skip: Set<Seq<char>>)
    ensures
        first_not_in(targets, skip) matches Some(c) ==> targets.contains(c) && !skip.contains(c),
        first_not_in(targets, skip) is None ==> forall|i: int|
            0 <= i < targets.len() ==> skip.contains(#[trigger] targets[i]),
    decreases targets.len(),
{
    if targets.len() > 0 {
        lemma_first_not_in(targets.drop_first(), skip);
        if skip.contains(targets[0]) {
            if let Some(c) = first_not_in(targets, skip) {
                let i = choose|i: int| 0 <= i < targets.drop_first().len()
                    && targets.drop_first()[i] == c;
                assert(targets[i + 1] == c);
            } else {
                assert forall|i: int| 0 <= i < targets.len() implies skip.contains(
                    #[trigger] targets[i],
                ) by {
                    if i > 0 {
                        assert(targets[i] == targets.drop_first()[i - 1]);
                    }
                }
            }
        } else {
            assert(targets[0] == targets[0]);
        }
    }
}

/// A history completion that does not belong to the request in flight
/// changes nothing, whether it reports success or failure.
pub proof fn lemma_foreign_ack_changes_nothing(
    s: PrefetchView,
    chat: Seq<char>,
    more: bool,
    now: u64,
)
    requires
        !s.owns_history(chat),
    ensures
        s.history_finished(chat, more, now) == s,
        s.history_failed(chat, now) == s,
{
}

/// While a history request is in flight the worker asks for no other, and it
/// never asks while the user keeps the phone busy.
pub proof fn lemma_one_history_request_at_a_time(
    s: PrefetchView,
    chat: Seq<char>,
    now: u64,
    phone_busy: bool,
    targets: Seq<Seq<char>>,
)
    ensures
        s.history_started(chat).history_pick(now, phone_busy, targets) is None,
        s.history_pick(now, true, targets) is None,
{
}

/// A chat whose history has no more pages is never asked for again until the
/// session starts over.
pub proof fn lemma_exhausted_chat_is_not_asked_for(
    s: PrefetchView,
    chat: Seq<char>,
    now: u64,
    later: u64,
    phone_busy: bool,
    targets: Seq<Seq<char>>,
)
    requires
        s.owns_history(chat),
    ensures
        s.history_finished(chat, false, now).history_pick(later, phone_busy, targets) != Some(chat),
{
    let after = s.history_finished(chat, false, now);
    lemma_first_not_in(targets, after.exhausted);
}

/// After a history page the worker waits `HISTORY_GAP` before it asks again.
pub proof fn lemma_history_gap(
    s: PrefetchView,
    chat: Seq<char>,
    more: bool,
    now: u64,
    later: u64,
    targets: Seq<Seq<char>>,
)
    requires
        s.owns_history(chat),
        now + HISTORY_GAP <= u64::MAX,
    ensures
        later < now + HISTORY_GAP ==> s.history_finished(chat, more, now).history_pick(
            later,
            false,
            targets,
        ) is None,
        later >= now + HISTORY_GAP && s.mode != HistoryPrefetch::Off ==> s.history_finished(
            chat,
            more,
            now,
        ).history_pick(later, false, targets) == first_not_in(
            targets,
            s.history_finished(chat, more, now).exhausted,
        ),
{
}

/// The back-off after failed history requests: 30 s after the first failure,
/// doubling with each further one, and 900 s from the sixth on.
pub proof fn lemma_backoff_schedule(failures: u32)
    ensures
        failures <= 1 ==> backoff_secs(failures) == 30,
        failures == 2 ==> backoff_secs(failures) == 60,
        failures == 3 ==> backoff_secs(failures) == 120,
        failures == 4 ==> backoff_secs(failures) == 240,
        failures == 5 ==> backoff_secs(failures) == 480,
        failures >= 6 ==> backoff_secs(failures) == 900,
        30 <= backoff_secs(failures) <= 900,
{
    lemma2_to64();
}

/// More failures in a row never shorten the wait.
pub proof fn lemma_backoff_monotone(fewer: u32, more: u32)
    requires
        fewer <= more,
    ensures
        backoff_secs(fewer) <= backoff_secs(more),
{
    lemma_backoff_schedule(fewer);
    lemma_backoff_schedule(more);
}

/// After a failed history request the worker waits out the back-off before it
/// asks again.
pub proof fn lemma_history_backs_off(
    s: PrefetchView,
    chat: Seq<char>,
    now: u64,
    later: u64,
    targets: Seq<Seq<char>>,
)
    requires
        s.owns_history(chat),
        s.history_fail_fits(now),
        later < now + backoff_secs(one_more_failure(s.history_failures)) * 1000,
    ensures
        s.history_failed(chat, now).history_pick(later, false, targets) is None,
{
}

/// After a reconnect, or a new session, phone history may be available again:
/// the worker may ask at once for the first target.
pub proof fn lemma_fresh_history(s: PrefetchView, now: u64, targets: Seq<Seq<char>>)
    requires
        s.mode != HistoryPrefetch::Off,
        targets.len() > 0,
    ensures
        s.reconnected().history_pick(now, false, targets) == Some(targets[0]),
        s.session_reset().history_pick(now, false, targets) == Some(targets[0]),
{
}

/// Configuring a mode other than Off (the user opens another chat, or picks
/// another mode) changes only the mode and the open chat: the history request
/// and the download in flight stay in flight, so no second history request
/// starts beside the first, and the first one's completion is still taken.
pub proof fn lemma_configure_keeps_work_in_flight(
    s: PrefetchView,
    mode: HistoryPrefetch,
    focused: Option<Seq<char>>,
    chat: Seq<char>,
    now: u64,
    phone_busy: bool,
    targets: Seq<Seq<char>>,
)
    requires
        mode != HistoryPrefetch::Off,
    ensures
        s.configured(mode, focused).mode == mode,
        s.configured(mode, focused).focused == focused,
        s.configured(mode, focused).history_chat == s.history_chat,
        s.configured(mode, focused).media == s.media,
        s.configured(mode, focused).exhausted == s.exhausted,
        s.configured(mode, focused).history_due == s.history_due,
        s.configured(mode, focused).history_failures == s.history_failures,
        s.configured(mode, focused).media_due == s.media_due,
        s.history_started(chat).configured(mode, focused).owns_history(chat),
        s.history_started(chat).configured(mode, focused).history_pick(now, phone_busy, targets)
            is None,
{
}

/// After a reconnect every chat's history may be asked for again at once:
/// with the prefetch on and the phone free, the worker asks for the first
/// target; the mode, the open chat and the attachment work stay as they were.
pub proof fn lemma_reconnect_reopens_history(s: PrefetchView, now: u64, targets: Seq<Seq<char>>)
    requires
        s.mode != HistoryPrefetch::Off,
    ensures
        s.reconnected().history_pick(now, false, targets) == (if targets.len() > 0 {
            Some(targets[0])
        } else {
            None::<Seq<char>>
        }),
        s.reconnected().history_failures == 0,
        s.reconnected().mode == s.mode,
        s.reconnected().focused == s.focused,
        s.reconnected().media == s.media,
        s.reconnected().media_due == s.media_due,
{
}

/// A new session keeps only the mode and the open chat; everything else is
/// as a worker that has done nothing yet has it.
pub proof fn lemma_session_reset_starts_over(s: PrefetchView)
    ensures
        s.session_reset().mode == s.mode,
        s.session_reset().focused == s.focused,
        s.session_reset().exhausted.is_empty(),
        s.session_reset().history_due is None,
        s.session_reset().history_failures == 0,
        s.session_reset().history_chat is None,
        s.session_reset().media_due is None,
        s.session_reset().media is None,
{
}

/// Switching the prefetch off drops the work in flight, and nothing new starts.
pub proof fn lemma_off_stops_everything(
    s: PrefetchView,
    focused: Option<Seq<char>>,
    now: u64,
    phone_busy: bool,
    targets: Seq<Seq<char>>,
)
    ensures
        s.configured(HistoryPrefetch::Off, focused).history_chat is None,
        s.configured(HistoryPrefetch::Off, focused).media is None,
        s.configured(HistoryPrefetch::Off, focused).history_pick(now, phone_busy, targets) is None,
        !s.configured(HistoryPrefetch::Off, focused).media_ready(now),
{
}

/// A finished attachment is no longer skipped, and the next one may start
/// `MEDIA_GAP` later and not before.
pub proof fn lemma_finished_media(
    s: PrefetchView,
    chat: Seq<char>,
    id: Seq<char>,
    now: u64,
    later: u64,
)
    requires
        s.media_active(chat, id),
        now + MEDIA_GAP <= u64::MAX,
    ensures
        !s.media_finished(chat, id, now).media_active(chat, id),
        s.media_finished(chat, id, now).media_ready(later) <==> (s.mode != HistoryPrefetch::Off
            && later >= now + MEDIA_GAP),
{
}

// ---------------------------------------------------------------------------
// Laws of the visiting order
// ---------------------------------------------------------------------------

/// Dropping repeats keeps exactly the elements that were there.
pub proof fn lemma_without_repeats_contains(s: Seq<Seq<char>>)
    ensures
        forall|x: Seq<char>| without_repeats(s).contains(x) <==> s.contains(x),
        without_repeats(s).no_duplicates(),
    decreases s.len(),
{
    if s.len() > 0 {
        lemma_without_repeats_contains(s.drop_last());
        let kept = without_repeats(s.drop_last());
        assert forall|x: Seq<char>| without_repeats(s).contains(x) <==> s.contains(x) by {
            if s.contains(x) && x != s.last() {
                let i = choose|i: int| 0 <= i < s.len() && s[i] == x;
                assert(s.drop_last()[i] == x);
            }
            if s.drop_last().contains(x) {
                let i = choose|i: int| 0 <= i < s.drop_last().len() && s.drop_last()[i] == x;
                assert(s[i] == x);
            }
            if !kept.contains(s.last()) {
                assert(kept.push(s.last())[kept.len() as int] == s.last());
                if kept.contains(x) {
                    let i = choose|i: int| 0 <= i < kept.len() && kept[i] == x;
                    assert(kept.push(s.last())[i] == x);
                }
                if kept.push(s.last()).contains(x) && x != s.last() {
                    let i = choose|i: int| 0 <= i < kept.len() + 1 && kept.push(s.last())[i] == x;
                    assert(kept[i] == x);
                }
            }
            assert(s[s.len() - 1] == s.last());
        }
    }
}

/// The targets never name a chat twice.
pub proof fn lemma_targets_have_no_repeats(
    chats: Seq<Chat>,
    mode: HistoryPrefetch,
    focused: Option<Seq<char>>,
)
    ensures
        prefetch_targets(chats, mode, focused).no_duplicates(),
{
    lemma_without_repeats_contains(recent_and_pinned_candidates(chats, focused));
}

/// In the recent mode the open chat, when it is in the list, comes first.
pub proof fn lemma_open_chat_first(chats: Seq<Chat>, focused: Seq<char>)
    requires
        lists_chat(chats, focused),
    ensures
        prefetch_targets(chats, HistoryPrefetch::RecentAndPinned, Some(focused))[0] == focused,
        prefetch_targets(chats, HistoryPrefetch::Focused, Some(focused)) == seq![focused],
{
    let candidates = recent_and_pinned_candidates(chats, Some(focused));
    assert(candidates[0] == focused);
    lemma_prefix_survives(candidates, 1);
    lemma_without_repeats_single(focused);
    assert(candidates.take(1) =~= seq![focused]);
}

/// Dropping repeats from a longer sequence keeps what it kept of a prefix, in front.
proof fn lemma_prefix_survives(s: Seq<Seq<char>>, n: int)
    requires
        0 <= n <= s.len(),
    ensures
        without_repeats(s).len() >= without_repeats(s.take(n)).len(),
        forall|i: int|
            0 <= i < without_repeats(s.take(n)).len() ==> without_repeats(s)[i] == without_repeats(
                s.take(n),
            )[i],
    decreases s.len() - n,
{
    if n < s.len() {
        lemma_prefix_survives(s, n + 1);
        assert(s.take(n + 1).drop_last() =~= s.take(n));
    } else {
        assert(s.take(n) =~= s);
    }
}

/// In the recent mode every pinned chat is visited.
pub proof fn lemma_every_pinned_chat_is_visited(
    chats: Seq<Chat>,
    focused: Option<Seq<char>>,
    i: int,
)
    requires
        0 <= i < chats.len() <= usize::MAX,
        chats[i].pinned,
    ensures
        prefetch_targets(chats, HistoryPrefetch::RecentAndPinned, focused).contains(chats[i].id@),
{
    broadcast use vstd::seq_lib::group_to_multiset_ensures;

    let pred = |e: (i64, usize)| chats[e.1 as int].pinned;
    let entry = (chats[i].pinned_at, i as usize);
    assert(keyed_by_pin(chats)[i] == entry);
    keyed_by_pin(chats).lemma_filter_contains(pred, i);
    assert(pin_entries(chats).contains(entry));
    lemma_ranked_is_sorted_permutation(pin_entries(chats));
    assert(pin_entries(chats).to_multiset().count(entry) > 0);
    assert(ranked(pin_entries(chats)).contains(entry));
    let r = ranked(pin_entries(chats));
    let j = choose|j: int| 0 <= j < r.len() && r[j] == entry;
    let ids = entry_ids(chats, r);
    assert(ids[j] == chats[i].id@);
    let open_part = open_chat_part(chats, focused);
    let candidates = recent_and_pinned_candidates(chats, focused);
    assert(candidates[open_part.len() + j] == chats[i].id@);
    assert(candidates.contains(chats[i].id@));
    lemma_without_repeats_contains(candidates);
}

/// An entry of a ranking of filtered entries passed the filter and points into the list.
proof fn lemma_ranked_entry(
    chats: Seq<Chat>,
    keyed: Seq<(i64, usize)>,
    pred: spec_fn((i64, usize)) -> bool,
    e: (i64, usize),
)
    requires
        keyed.len() == chats.len(),
        forall|i: int| 0 <= i < keyed.len() ==> (#[trigger] keyed[i]).1 == i,
        ranked(keyed.filter(pred)).contains(e),
    ensures
        pred(e),
        e.1 < chats.len(),
{
    broadcast use vstd::seq_lib::group_to_multiset_ensures;

    let filtered = keyed.filter(pred);
    lemma_ranked_is_sorted_permutation(filtered);
    assert(ranked(filtered).to_multiset().count(e) > 0);
    assert(filtered.contains(e));
    let k = choose|k: int| 0 <= k < filtered.len() && filtered[k] == e;
    keyed.lemma_filter_pred(pred, k);
    keyed.lemma_filter_contains_rev(pred, e);
    let i = choose|i: int| 0 <= i < keyed.len() && keyed[i] == e;
}

/// Every target is the open chat, or a listed chat that is pinned, or one that
/// is neither pinned nor archived.
pub proof fn lemma_targets_are_eligible(
    chats: Seq<Chat>,
    focused: Option<Seq<char>>,
    t: Seq<char>,
)
    requires
        chats.len() <= usize::MAX,
        prefetch_targets(chats, HistoryPrefetch::RecentAndPinned, focused).contains(t),
    ensures
        focused == Some(t) || exists|i: int|
            0 <= i < chats.len() && #[trigger] chats[i].id@ == t && (chats[i].pinned || (
            !chats[i].pinned && !chats[i].archived)),
{
    let open_part = open_chat_part(chats, focused);
    let pinned = entry_ids(chats, ranked(pin_entries(chats)));
    let recent_ranked = first_n(ranked(recent_entries(chats)), RECENT_LIMIT as nat);
    let recent = entry_ids(chats, recent_ranked);
    let candidates = recent_and_pinned_candidates(chats, focused);
    lemma_without_repeats_contains(candidates);
    assert(candidates.contains(t));
    let k = choose|k: int| 0 <= k < candidates.len() && candidates[k] == t;
    assert(forall|i: int| 0 <= i < keyed_by_pin(chats).len() ==> (#[trigger] keyed_by_pin(chats)[i]).1 == i);
    assert(forall|i: int| 0 <= i < keyed_by_activity(chats).len() ==> (#[trigger] keyed_by_activity(chats)[i]).1 == i);
    if k < open_part.len() {
        assert(focused == Some(t));
    } else if k < open_part.len() + pinned.len() {
        let e = ranked(pin_entries(chats))[k - open_part.len()];
        assert(ranked(pin_entries(chats)).contains(e));
        lemma_ranked_entry(chats, keyed_by_pin(chats), |e: (i64, usize)| chats[e.1 as int].pinned, e);
        assert(chats[e.1 as int].id@ == t);
    } else {
        let j = k - open_part.len() - pinned.len();
        let e = recent_ranked[j];
        let all_recent = ranked(recent_entries(chats));
        assert(all_recent[j] == e);
        assert(all_recent.contains(e));
        lemma_ranked_entry(
            chats,
            keyed_by_activity(chats),
            |e: (i64, usize)| !chats[e.1 as int].pinned && !chats[e.1 as int].archived,
            e,
        );
        assert(chats[e.1 as int].id@ == t);
    }
}

/// Dropping repeats never lengthens a sequence.
proof fn lemma_without_repeats_len(s: Seq<Seq<char>>)
    ensures
        without_repeats(s).len() <= s.len(),
    decreases s.len(),
{
    if s.len() > 0 {
        lemma_without_repeats_len(s.drop_last());
    }
}

/// The recent mode visits at most the open chat, the pinned chats and ten more.
pub proof fn lemma_targets_bounded(chats: Seq<Chat>, focused: Option<Seq<char>>)
    ensures
        prefetch_targets(chats, HistoryPrefetch::RecentAndPinned, focused).len() <= 1
            + pin_entries(chats).len() + RECENT_LIMIT,
{
    let candidates = recent_and_pinned_candidates(chats, focused);
    lemma_without_repeats_len(candidates);
    lemma_ranked_is_sorted_permutation(pin_entries(chats));
}

} // verus!
