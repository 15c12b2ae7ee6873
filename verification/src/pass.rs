//! The fetch orchestrator: one enrichment pass over a feed.
//!
//! A pass selects the working set among the feed's links, takes from the
//! feed's cache what it already holds, and has the rest fetched, never more
//! than [`MAX_IN_FLIGHT`] at a time. The fetching itself is the caller's: the
//! pass hands out the addresses one by one and takes back what came of each.

use crate::cache::ArticleCache;
use crate::extract::{extract_content, extracted};
use crate::options::FurssOptions;
use crate::rewrite::{add_content_to_item, feed_output, rewritten};
use crate::scan::{feed_links, parse_rss_feed};
use crate::xml::{bytes_view, feed_lexemes, text_from_utf8, text_view, FeedError, Lexeme};
use vstd::prelude::*;
use vstd::utf8::*;

verus! {

/// The number of fetches that one pass may have under way at the same time.
pub const MAX_IN_FLIGHT: usize = 8;

/// How far the fetch of one address has got.
#[derive(Clone, Copy, Debug, PartialEq, Eq, Structural)]
pub enum SlotState {
    /// Not handed out yet.
    Waiting,
    /// Handed out, and nothing has come back.
    InFlight,
    /// The article came back and had a content block.
    Delivered,
    /// The fetch failed, or the page had no content block.
    Failed,
}

/// The links that a pass works on: all of them, or the first `limit`.
pub open spec fn working_set(links: Seq<Seq<char>>, all: bool, limit: nat) -> Seq<Seq<char>> {
    if all || limit >= links.len() {
        links
    } else {
        links.take(limit as int)
    }
}

/// The addresses of `working` for which `cache` has nothing, in order and
/// with their repetitions.
pub open spec fn missing(working: Seq<Seq<char>>, cache: Map<Seq<char>, Seq<char>>) -> Seq<
    Seq<char>,
>
    decreases working.len(),
{
    if working.len() == 0 {
        Seq::empty()
    } else {
        let before = missing(working.drop_last(), cache);
        if cache.contains_key(working.last()) {
            before
        } else {
            before.push(working.last())
        }
    }
}

/// The number of slots that are in flight.
pub open spec fn count_in_flight(slots: Seq<SlotState>) -> nat
    decreases slots.len(),
{
    if slots.len() == 0 {
        0
    } else {
        count_in_flight(slots.drop_last()) + if slots.last() == SlotState::InFlight {
            1nat
        } else {
            0nat
        }
    }
}

/// What a fetched body yields: the content block of the page, where the body
/// came, is valid UTF-8 and has one.
pub open spec fn body_content(body: Option<Seq<u8>>) -> Option<Seq<char>> {
    match body {
        Some(bytes) => if valid_utf8(bytes) {
            match extracted(decode_utf8(bytes)) {
                Ok(content) => Some(content),
                Err(_) => None,
            }
        } else {
            None
        },
        None => None,
    }
}

/// The state of a pass.
pub ghost struct PassState {
    /// The working set.
    pub working: Seq<Seq<char>>,
    /// The addresses to fetch.
    pub queue: Seq<Seq<char>>,
    /// How far the fetch of each address of `queue` has got.
    pub slots: Seq<SlotState>,
    /// How many addresses have been handed out.
    pub issued: nat,
    /// The content found so far, by address.
    pub articles: Map<Seq<char>, Seq<char>>,
    /// The cache of the feed.
    pub cache: Map<Seq<char>, Seq<char>>,
}

impl PassState {
    /// The number of fetches under way.
    pub open spec fn in_flight(self) -> nat {
        count_in_flight(self.slots)
    }

    /// Whether some fetch of `url` has delivered content.
    pub open spec fn delivered(self, url: Seq<char>) -> bool {
        exists|i: int|
            0 <= i < self.slots.len() && 0 <= i < self.queue.len() && #[trigger] self.queue[i]
                == url && self.slots[i] == SlotState::Delivered
    }

    /// What holds of a pass at every moment.
    pub open spec fn valid(self) -> bool {
        &&& self.slots.len() == self.queue.len()
        &&& self.issued <= self.queue.len()
        &&& forall|i: int|
            0 <= i < self.slots.len() ==> (#[trigger] self.slots[i] == SlotState::Waiting <==> i
                >= self.issued)
        &&& self.in_flight() <= MAX_IN_FLIGHT
        &&& forall|i: int|
            0 <= i < self.queue.len() ==> self.working.contains(#[trigger] self.queue[i])
        &&& forall|url: Seq<char>| #[trigger]
            self.cache.contains_key(url) <==> self.working.contains(url) && (!self.queue.contains(
                url,
            ) || self.delivered(url))
        &&& self.articles == self.cache
    }

    /// Whether another address can be handed out.
    pub open spec fn can_issue(self) -> bool {
        self.issued < self.queue.len() && self.in_flight() < MAX_IN_FLIGHT
    }

    /// The state after the next address was handed out.
    pub open spec fn issue(self) -> PassState {
        if self.can_issue() {
            PassState {
                slots: self.slots.update(self.issued as int, SlotState::InFlight),
                issued: self.issued + 1,
                ..self
            }
        } else {
            self
        }
    }

    /// Whether the fetch of slot `slot` is under way.
    pub open spec fn awaits(self, slot: int) -> bool {
        0 <= slot < self.slots.len() && 0 <= slot < self.queue.len() && self.slots[slot]
            == SlotState::InFlight
    }

    /// The state after the fetch of slot `slot` ended with `content`. Content
    /// goes into the result and into the cache; a failure leaves both as they
    /// are. Nothing changes where that fetch is not under way.
    pub open spec fn record(self, slot: int, content: Option<Seq<char>>) -> PassState {
        if self.awaits(slot) {
            match content {
                Some(content) => PassState {
                    slots: self.slots.update(slot, SlotState::Delivered),
                    articles: self.articles.insert(self.queue[slot], content),
                    cache: self.cache.insert(self.queue[slot], content),
                    ..self
                },
                None => PassState { slots: self.slots.update(slot, SlotState::Failed), ..self },
            }
        } else {
            self
        }
    }

    /// Whether every address was handed out and every fetch has ended.
    pub open spec fn is_done(self) -> bool {
        self.issued == self.queue.len() && self.in_flight() == 0
    }
}

/// The state in which a pass over `links` begins, given the cache of the feed:
/// the cache is cut down to the working set, and what is left of it is the
/// result so far.
pub open spec fn begun(
    links: Seq<Seq<char>>,
    all: bool,
    limit: nat,
    cache: Map<Seq<char>, Seq<char>>,
) -> PassState {
    let working = working_set(links, all, limit);
    let queue = missing(working, cache);
    PassState {
        working,
        queue,
        slots: Seq::new(queue.len(), |i: int| SlotState::Waiting),
        issued: 0,
        articles: cache.restrict(working.to_set()),
        cache: cache.restrict(working.to_set()),
    }
}

/// What a pass over `working` ends with, where the feed's cache was `cache`
/// and `source` has, for each address, the content that fetching it yields:
/// for each address of the working set, what the cache had, or else what the
/// source has.
pub open spec fn pass_outcome(
    working: Seq<Seq<char>>,
    cache: Map<Seq<char>, Seq<char>>,
    source: Map<Seq<char>, Seq<char>>,
) -> Map<Seq<char>, Seq<char>> {
    Map::new(
        |url: Seq<char>| working.contains(url) && (cache.contains_key(url) || source.contains_key(url)),
        |url: Seq<char>|
            if cache.contains_key(url) {
                cache[url]
            } else {
                source[url]
            },
    )
}

/// What fetching `url` from `source` yields.
pub open spec fn source_gives(source: Map<Seq<char>, Seq<char>>, url: Seq<char>) -> Option<
    Seq<char>,
> {
    if source.contains_key(url) {
        Some(source[url])
    } else {
        None
    }
}

/// Whether a pass that began with the cache `cache` has so far recorded what
/// `source` yields, and nothing else.
pub open spec fn follows(
    state: PassState,
    cache: Map<Seq<char>, Seq<char>>,
    source: Map<Seq<char>, Seq<char>>,
) -> bool {
    &&& state.queue == missing(state.working, cache)
    &&& forall|i: int|
        0 <= i < state.slots.len() && #[trigger] state.slots[i] == SlotState::Delivered
            ==> source.contains_key(state.queue[i])
    &&& forall|i: int|
        0 <= i < state.slots.len() && #[trigger] state.slots[i] == SlotState::Failed
            ==> !source.contains_key(state.queue[i])
    &&& forall|url: Seq<char>| #[trigger]
        state.cache.contains_key(url) ==> state.cache[url] == pass_outcome(
            state.working,
            cache,
            source,
        )[url]
}

/// An address is to be fetched exactly if it is in the working set and the
/// cache has nothing for it.
pub proof fn lemma_missing_contains(
    working: Seq<Seq<char>>,
    cache: Map<Seq<char>, Seq<char>>,
    url: Seq<char>,
)
    ensures
        missing(working, cache).contains(url) <==> working.contains(url) && !cache.contains_key(
            url,
        ),
    decreases working.len(),
{
    if working.len() > 0 {
        let front = working.drop_last();
        let before = missing(front, cache);
        lemma_missing_contains(front, cache, url);
        if working.contains(url) {
            let i = choose|i: int| 0 <= i < working.len() && working[i] == url;
            if i < working.len() - 1 {
                assert(front[i] == url);
            }
        }
        if front.contains(url) {
            let i = choose|i: int| 0 <= i < front.len() && front[i] == url;
            assert(working[i] == url);
        }
        if cache.contains_key(working.last()) {
        } else {
            let all = before.push(working.last());
            if before.contains(url) {
                let i = choose|i: int| 0 <= i < before.len() && before[i] == url;
                assert(all[i] == url);
            }
            if all.contains(url) {
                let i = choose|i: int| 0 <= i < all.len() && all[i] == url;
                if i < before.len() {
                    assert(before[i] == url);
                }
            }
            assert(all[all.len() - 1] == working.last());
            assert(working[working.len() - 1] == working.last());
        }
    }
}

/// Changing one slot changes the number in flight by what that slot gives
/// and takes.
pub proof fn lemma_count_update(slots: Seq<SlotState>, i: int, to: SlotState)
    requires
        0 <= i < slots.len(),
    ensures
        count_in_flight(slots.update(i, to)) + (if slots[i] == SlotState::InFlight {
            1nat
        } else {
            0nat
        }) == count_in_flight(slots) + (if to == SlotState::InFlight {
            1nat
        } else {
            0nat
        }),
    decreases slots.len(),
{
    let after = slots.update(i, to);
    if i == slots.len() - 1 {
        assert(after.drop_last() =~= slots.drop_last());
    } else {
        assert(after.drop_last() =~= slots.drop_last().update(i, to));
        lemma_count_update(slots.drop_last(), i, to);
    }
}

/// Where no slot is in flight, none is counted; where one is, the count is
/// not zero.
pub proof fn lemma_count_zero(slots: Seq<SlotState>)
    ensures
        count_in_flight(slots) == 0 <==> forall|i: int|
            0 <= i < slots.len() ==> #[trigger] slots[i] != SlotState::InFlight,
    decreases slots.len(),
{
    if slots.len() > 0 {
        let front = slots.drop_last();
        lemma_count_zero(front);
        if count_in_flight(slots) == 0 {
            assert forall|i: int| 0 <= i < slots.len() implies #[trigger] slots[i]
                != SlotState::InFlight by {
                if i < front.len() {
                    assert(front[i] == slots[i]);
                }
            }
        }
        if forall|i: int| 0 <= i < slots.len() ==> #[trigger] slots[i] != SlotState::InFlight {
            assert forall|i: int| 0 <= i < front.len() implies #[trigger] front[i]
                != SlotState::InFlight by {
                assert(front[i] == slots[i]);
            }
            assert(slots[slots.len() - 1] != SlotState::InFlight);
        }
    }
}

/// A pass begins in a valid state.
pub proof fn lemma_begun_valid(
    links: Seq<Seq<char>>,
    all: bool,
    limit: nat,
    cache: Map<Seq<char>, Seq<char>>,
)
    ensures
        begun(links, all, limit, cache).valid(),
        begun(links, all, limit, cache).in_flight() == 0,
{
    let state = begun(links, all, limit, cache);
    lemma_count_zero(state.slots);
    assert forall|i: int| 0 <= i < state.queue.len() implies state.working.contains(
        #[trigger] state.queue[i],
    ) by {
        lemma_missing_contains(state.working, cache, state.queue[i]);
    }
    assert forall|url: Seq<char>| #[trigger]
        state.cache.contains_key(url) <==> state.working.contains(url) && (!state.queue.contains(
            url,
        ) || state.delivered(url)) by {
        lemma_missing_contains(state.working, cache, url);
    }
}

/// Handing out an address keeps the state valid.
pub proof fn lemma_issue_valid(state: PassState)
    requires
        state.valid(),
    ensures
        state.issue().valid(),
        state.can_issue() ==> state.issue().in_flight() == state.in_flight() + 1,
{
    if state.can_issue() {
        let next = state.issue();
        lemma_count_update(state.slots, state.issued as int, SlotState::InFlight);
        assert forall|url: Seq<char>| state.delivered(url) == next.delivered(url) by {
            if state.delivered(url) {
                let i = choose|i: int|
                    0 <= i < state.slots.len() && 0 <= i < state.queue.len()
                        && #[trigger] state.queue[i] == url && state.slots[i]
                        == SlotState::Delivered;
                assert(next.queue[i] == url && next.slots[i] == SlotState::Delivered);
            }
            if next.delivered(url) {
                let i = choose|i: int|
                    0 <= i < next.slots.len() && 0 <= i < next.queue.len()
                        && #[trigger] next.queue[i] == url && next.slots[i]
                        == SlotState::Delivered;
                assert(state.queue[i] == url && state.slots[i] == SlotState::Delivered);
            }
        }
    }
}

/// Recording the end of a fetch keeps the state valid.
pub proof fn lemma_record_valid(state: PassState, slot: int, content: Option<Seq<char>>)
    requires
        state.valid(),
    ensures
        state.record(slot, content).valid(),
        state.awaits(slot) ==> state.record(slot, content).in_flight() + 1 == state.in_flight(),
{
    if state.awaits(slot) {
        let next = state.record(slot, content);
        let to = if content is Some {
            SlotState::Delivered
        } else {
            SlotState::Failed
        };
        lemma_count_update(state.slots, slot, to);
        let target = state.queue[slot];
        assert(state.queue.contains(target));
        assert forall|url: Seq<char>| #[trigger]
            next.cache.contains_key(url) <==> next.working.contains(url) && (!next.queue.contains(
                url,
            ) || next.delivered(url)) by {
            if state.delivered(url) {
                let i = choose|i: int|
                    0 <= i < state.slots.len() && 0 <= i < state.queue.len()
                        && #[trigger] state.queue[i] == url && state.slots[i]
                        == SlotState::Delivered;
                assert(next.queue[i] == url && next.slots[i] == SlotState::Delivered);
            }
            if next.delivered(url) {
                let i = choose|i: int|
                    0 <= i < next.slots.len() && 0 <= i < next.queue.len()
                        && #[trigger] next.queue[i] == url && next.slots[i]
                        == SlotState::Delivered;
                if i != slot {
                    assert(state.queue[i] == url && state.slots[i] == SlotState::Delivered);
                }
            }
            if content is Some && url == target {
                assert(next.queue[slot] == url && next.slots[slot] == SlotState::Delivered);
            }
            assert(state.cache.contains_key(url) <==> state.working.contains(url) && (
            !state.queue.contains(url) || state.delivered(url)));
        }
    }
}

/// An address for which the cache has content at the start of a pass is not
/// among those that the pass has fetched.
pub proof fn lemma_hits_are_not_fetched(
    links: Seq<Seq<char>>,
    all: bool,
    limit: nat,
    cache: Map<Seq<char>, Seq<char>>,
    url: Seq<char>,
)
    requires
        cache.contains_key(url),
    ensures
        !begun(links, all, limit, cache).queue.contains(url),
        working_set(links, all, limit).contains(url) ==> begun(
            links,
            all,
            limit,
            cache,
        ).articles.contains_key(url) && begun(links, all, limit, cache).articles[url] == cache[url],
{
    lemma_missing_contains(working_set(links, all, limit), cache, url);
}

/// The cache never holds an address from outside the working set. After a
/// pass in which every fetch delivered content, the cache holds exactly the
/// addresses of the working set.
pub proof fn lemma_cache_holds_working_set(state: PassState)
    requires
        state.valid(),
    ensures
        state.cache.dom().subset_of(state.working.to_set()),
        (forall|i: int| 0 <= i < state.slots.len() ==> state.slots[i] == SlotState::Delivered)
            ==> state.cache.dom() == state.working.to_set(),
{
    assert forall|url: Seq<char>| state.cache.dom().contains(url) implies state.working.to_set().contains(
        url,
    ) by {
        assert(state.cache.contains_key(url));
    }
    if forall|i: int| 0 <= i < state.slots.len() ==> state.slots[i] == SlotState::Delivered {
        assert forall|url: Seq<char>| state.working.to_set().contains(url) implies state.cache.dom().contains(
            url,
        ) by {
            if state.queue.contains(url) {
                let i = choose|i: int| 0 <= i < state.queue.len() && state.queue[i] == url;
                assert(state.slots[i] == SlotState::Delivered);
                assert(state.delivered(url));
            }
            assert(state.cache.contains_key(url));
        }
        assert(state.cache.dom() =~= state.working.to_set());
    }
}

/// A pass begins in agreement with every source.
pub proof fn lemma_begun_follows(
    links: Seq<Seq<char>>,
    all: bool,
    limit: nat,
    cache: Map<Seq<char>, Seq<char>>,
    source: Map<Seq<char>, Seq<char>>,
)
    ensures
        follows(begun(links, all, limit, cache), cache, source),
{
}

/// Handing out an address keeps the pass in agreement with the source.
pub proof fn lemma_issue_follows(
    state: PassState,
    cache: Map<Seq<char>, Seq<char>>,
    source: Map<Seq<char>, Seq<char>>,
)
    requires
        state.valid(),
        follows(state, cache, source),
    ensures
        follows(state.issue(), cache, source),
{
}

/// Recording what the source yields for the address of a slot keeps the pass
/// in agreement with the source.
pub proof fn lemma_record_follows(
    state: PassState,
    slot: int,
    content: Option<Seq<char>>,
    cache: Map<Seq<char>, Seq<char>>,
    source: Map<Seq<char>, Seq<char>>,
)
    requires
        state.valid(),
        follows(state, cache, source),
        state.awaits(slot) ==> content == source_gives(source, state.queue[slot]),
    ensures
        follows(state.record(slot, content), cache, source),
{
    if state.awaits(slot) {
        let next = state.record(slot, content);
        let target = state.queue[slot];
        assert(state.queue.contains(target));
        lemma_missing_contains(state.working, cache, target);
        assert forall|url: Seq<char>| #[trigger] next.cache.contains_key(url) implies next.cache[url]
            == pass_outcome(next.working, cache, source)[url] by {
            if url != target {
                assert(state.cache.contains_key(url));
            }
        }
    }
}

/// A pass that has ended in agreement with a source has found, for each
/// address of its working set, what the cache had or else what the source
/// yields; and that is also what the cache holds after it.
pub proof fn lemma_done_outcome(
    state: PassState,
    cache: Map<Seq<char>, Seq<char>>,
    source: Map<Seq<char>, Seq<char>>,
)
    requires
        state.valid(),
        state.is_done(),
        follows(state, cache, source),
    ensures
        state.articles == pass_outcome(state.working, cache, source),
        state.cache == pass_outcome(state.working, cache, source),
{
    let outcome = pass_outcome(state.working, cache, source);
    lemma_count_zero(state.slots);
    assert forall|url: Seq<char>| state.cache.contains_key(url) == outcome.contains_key(url) by {
        lemma_missing_contains(state.working, cache, url);
        assert(state.cache.contains_key(url) <==> state.working.contains(url) && (
        !state.queue.contains(url) || state.delivered(url)));
        if state.working.contains(url) && !cache.contains_key(url) {
            let i = choose|i: int| 0 <= i < state.queue.len() && state.queue[i] == url;
            assert(state.slots[i] != SlotState::Waiting);
            assert(state.slots[i] != SlotState::InFlight);
            if source.contains_key(url) {
                assert(state.slots[i] == SlotState::Delivered);
                assert(state.delivered(url));
            }
            if state.delivered(url) {
                let j = choose|j: int|
                    0 <= j < state.slots.len() && 0 <= j < state.queue.len()
                        && #[trigger] state.queue[j] == url && state.slots[j]
                        == SlotState::Delivered;
                assert(source.contains_key(state.queue[j]));
            }
        }
    }
    assert(state.cache =~= outcome);
}

/// Something that happens to a pass.
pub ghost enum PassEvent {
    /// The next address is handed out, if one can be.
    Issue,
    /// The fetch of slot `slot` ends with `content`.
    Record { slot: int, content: Option<Seq<char>> },
}

/// The state after `event`.
pub open spec fn step(state: PassState, event: PassEvent) -> PassState {
    match event {
        PassEvent::Issue => state.issue(),
        PassEvent::Record { slot, content } => state.record(slot, content),
    }
}

/// The state after `events`, in their order.
pub open spec fn run(state: PassState, events: Seq<PassEvent>) -> PassState
    decreases events.len(),
{
    if events.len() == 0 {
        state
    } else {
        step(run(state, events.drop_last()), events.last())
    }
}

/// Whether every fetch among `events` ends with what `source` yields for its
/// address.
pub open spec fn faithful(
    queue: Seq<Seq<char>>,
    events: Seq<PassEvent>,
    source: Map<Seq<char>, Seq<char>>,
) -> bool {
    forall|i: int|
        0 <= i < events.len() ==> match #[trigger] events[i] {
            PassEvent::Record { slot, content } => 0 <= slot < queue.len() ==> content
                == source_gives(source, queue[slot]),
            PassEvent::Issue => true,
        }
}

/// Whatever happens to a pass, its state stays valid, and its working set and
/// the addresses that it fetches stay what they were.
pub proof fn lemma_run_valid(state: PassState, events: Seq<PassEvent>)
    requires
        state.valid(),
    ensures
        run(state, events).valid(),
        run(state, events).working == state.working,
        run(state, events).queue == state.queue,
    decreases events.len(),
{
    if events.len() > 0 {
        let before = run(state, events.drop_last());
        lemma_run_valid(state, events.drop_last());
        match events.last() {
            PassEvent::Issue => {
                lemma_issue_valid(before);
            },
            PassEvent::Record { slot, content } => {
                lemma_record_valid(before, slot, content);
            },
        }
    }
}

/// Whatever happens to a pass that is fed by a source, it stays in agreement
/// with the source.
pub proof fn lemma_run_follows(
    state: PassState,
    events: Seq<PassEvent>,
    cache: Map<Seq<char>, Seq<char>>,
    source: Map<Seq<char>, Seq<char>>,
)
    requires
        state.valid(),
        follows(state, cache, source),
        faithful(state.queue, events, source),
    ensures
        follows(run(state, events), cache, source),
    decreases events.len(),
{
    if events.len() > 0 {
        let front = events.drop_last();
        let before = run(state, front);
        assert(faithful(state.queue, front, source)) by {
            assert forall|i: int| 0 <= i < front.len() implies match #[trigger] front[i] {
                PassEvent::Record { slot, content } => 0 <= slot < state.queue.len() ==> content
                    == source_gives(source, state.queue[slot]),
                PassEvent::Issue => true,
            } by {
                assert(front[i] == events[i]);
            }
        }
        lemma_run_valid(state, front);
        lemma_run_follows(state, front, cache, source);
        assert(events[events.len() - 1] == events.last());
        match events.last() {
            PassEvent::Issue => {
                lemma_issue_follows(before, cache, source);
            },
            PassEvent::Record { slot, content } => {
                lemma_record_follows(before, slot, content, cache, source);
            },
        }
    }
}

/// Whatever happens to a pass from its beginning on, never more than
/// `MAX_IN_FLIGHT` of its fetches are under way.
pub proof fn lemma_in_flight_is_bounded(
    links: Seq<Seq<char>>,
    all: bool,
    limit: nat,
    cache: Map<Seq<char>, Seq<char>>,
    events: Seq<PassEvent>,
)
    ensures
        run(begun(links, all, limit, cache), events).in_flight() <= MAX_IN_FLIGHT,
{
    lemma_begun_valid(links, all, limit, cache);
    lemma_run_valid(begun(links, all, limit, cache), events);
}

/// In whatever order the addresses are handed out and the fetches end: a pass
/// that is fed by a source and has ended has found, for each address of its
/// working set, what the cache had or else what the source yields; and that
/// is also what the cache holds after it.
pub proof fn lemma_pass_outcome(
    links: Seq<Seq<char>>,
    all: bool,
    limit: nat,
    cache: Map<Seq<char>, Seq<char>>,
    source: Map<Seq<char>, Seq<char>>,
    events: Seq<PassEvent>,
)
    requires
        faithful(begun(links, all, limit, cache).queue, events, source),
        run(begun(links, all, limit, cache), events).is_done(),
    ensures
        run(begun(links, all, limit, cache), events).articles == pass_outcome(
            working_set(links, all, limit),
            cache,
            source,
        ),
        run(begun(links, all, limit, cache), events).cache == pass_outcome(
            working_set(links, all, limit),
            cache,
            source,
        ),
{
    let start = begun(links, all, limit, cache);
    lemma_begun_valid(links, all, limit, cache);
    lemma_begun_follows(links, all, limit, cache, source);
    lemma_run_valid(start, events);
    lemma_run_follows(start, events, cache, source);
    lemma_done_outcome(run(start, events), cache, source);
}

/// Running the pipeline twice on a feed and a source that do not change
/// rewrites the feed to the same bytes the second time: the second pass,
/// begun with the cache that the first one left, ends with the same content
/// for every address, whatever the cache was at first and in whatever order
/// the fetches of either pass ended.
pub proof fn lemma_second_pass_gives_same(
    lexemes: Seq<Lexeme>,
    links: Seq<Seq<char>>,
    all: bool,
    limit: nat,
    cache: Map<Seq<char>, Seq<char>>,
    source: Map<Seq<char>, Seq<char>>,
    first: Seq<PassEvent>,
    second: Seq<PassEvent>,
)
    requires
        faithful(begun(links, all, limit, cache).queue, first, source),
        run(begun(links, all, limit, cache), first).is_done(),
        faithful(
            begun(links, all, limit, run(begun(links, all, limit, cache), first).cache).queue,
            second,
            source,
        ),
        run(
            begun(links, all, limit, run(begun(links, all, limit, cache), first).cache),
            second,
        ).is_done(),
    ensures
        run(
            begun(links, all, limit, run(begun(links, all, limit, cache), first).cache),
            second,
        ).articles == run(begun(links, all, limit, cache), first).articles,
        rewritten(
            lexemes,
            run(
                begun(links, all, limit, run(begun(links, all, limit, cache), first).cache),
                second,
            ).articles,
        ) == rewritten(lexemes, run(begun(links, all, limit, cache), first).articles),
{
    let working = working_set(links, all, limit);
    let once = pass_outcome(working, cache, source);
    let twice = pass_outcome(working, once, source);
    lemma_pass_outcome(links, all, limit, cache, source, first);
    lemma_pass_outcome(links, all, limit, once, source, second);
    assert(twice =~= once);
}

/// The working set among `links`: all of them where the options ask for
/// that, and else the first ones, as many as the options allow.
pub fn select_working_set(links: Vec<String>, options: &FurssOptions) -> (res: Vec<String>)
    ensures
        res.deep_view() == working_set(links.deep_view(), options.wants_all(), options.limit()),
{
    if options.is_full() {
        links
    } else {
        let limit = options.item_limit();
        let mut links = links;
        let ghost before = links.deep_view();
        if limit < links.len() {
            links.truncate(limit);
            assert(links.deep_view() =~= before.take(limit as int));
        }
        links
    }
}

/// An address to fetch, and the slot under which to report what came of it.
#[derive(Debug)]
pub struct Fetch {
    pub slot: usize,
    pub url: String,
}

/// What a pass ends with.
pub struct PassOutcome {
    /// The content found, by address: what the rewriter puts into the feed.
    pub articles: ArticleCache,
    /// The cache of the feed after the pass.
    pub cache: ArticleCache,
}

/// One enrichment pass.
pub struct Pass {
    working: Vec<String>,
    queue: Vec<String>,
    slots: Vec<SlotState>,
    issued: usize,
    in_flight: usize,
    articles: ArticleCache,
    cache: ArticleCache,
}

impl View for Pass {
    type V = PassState;

    closed spec fn view(&self) -> PassState {
        PassState {
            working: self.working.deep_view(),
            queue: self.queue.deep_view(),
            slots: self.slots@,
            issued: self.issued as nat,
            articles: self.articles@,
            cache: self.cache@,
        }
    }
}

impl Pass {
    /// Whether the pass counts its fetches rightly.
    pub closed spec fn counts(&self) -> bool {
        self.in_flight == count_in_flight(self.slots@)
    }

    /// What holds of a pass between any two calls.
    pub open spec fn wf(&self) -> bool {
        self@.valid() && self.counts()
    }

    /// Begins a pass over `links` with the cache of the feed. The links that
    /// the cache has content for are answered from it; the others are queued
    /// for fetching, in order. The cache is cut down to the working set.
    pub fn begin(links: Vec<String>, options: &FurssOptions, cache: ArticleCache) -> (res: Pass)
        ensures
            res.wf(),
            res@ == begun(links.deep_view(), options.wants_all(), options.limit(), cache@),
            forall|i: int|
                0 <= i < res@.queue.len() ==> !cache@.contains_key(#[trigger] res@.queue[i]),
    {
        let working = select_working_set(links, options);
        let mut queue: Vec<String> = Vec::new();
        let mut slots: Vec<SlotState> = Vec::new();
        let mut i: usize = 0;
        assert(working.deep_view().take(0) =~= Seq::<Seq<char>>::empty());
        assert(queue.deep_view() =~= Seq::<Seq<char>>::empty());
        while i < working.len()
            invariant
                i <= working.len(),
                queue.deep_view() == missing(working.deep_view().take(i as int), cache@),
                slots@.len() == queue@.len(),
                forall|j: int| 0 <= j < slots@.len() ==> slots@[j] == SlotState::Waiting,
            decreases working.len() - i,
        {
            let ghost seen = working.deep_view().take(i as int);
            let ghost more = working.deep_view().take(i + 1);
            let ghost before = queue.deep_view();
            assert(more.drop_last() =~= seen);
            assert(more.last() == working@[i as int]@);
            if !cache.contains(working[i].as_str()) {
                queue.push(working[i].clone());
                slots.push(SlotState::Waiting);
                assert(queue.deep_view() =~= before.push(working@[i as int]@));
            }
            i += 1;
        }
        assert(working.deep_view().take(i as int) =~= working.deep_view());
        let mut cache = cache;
        let ghost given = cache@;
        cache.prune(&working);
        let articles = cache.duplicate();
        let res = Pass { working, queue, slots, issued: 0, in_flight: 0, articles, cache };
        proof {
            let state = begun(links.deep_view(), options.wants_all(), options.limit(), given);
            assert(res@.slots =~= state.slots);
            lemma_begun_valid(links.deep_view(), options.wants_all(), options.limit(), given);
            assert forall|i: int| 0 <= i < res@.queue.len() implies !given.contains_key(
                #[trigger] res@.queue[i],
            ) by {
                assert(state.queue.contains(state.queue[i]));
                lemma_missing_contains(state.working, given, state.queue[i]);
            }
        }
        res
    }

    /// The working set of the pass.
    pub fn working_set(&self) -> (res: &Vec<String>)
        ensures
            res.deep_view() == self@.working,
    {
        &self.working
    }

    /// The number of fetches under way.
    pub fn in_flight(&self) -> (res: usize)
        requires
            self.wf(),
        ensures
            res == self@.in_flight(),
            res <= MAX_IN_FLIGHT,
    {
        self.in_flight
    }

    /// Whether every address was handed out and every fetch has ended.
    pub fn is_done(&self) -> (res: bool)
        requires
            self.wf(),
        ensures
            res == self@.is_done(),
    {
        self.issued == self.queue.len() && self.in_flight == 0
    }

    /// Hands out the next address to fetch, if there is one and fewer than
    /// `MAX_IN_FLIGHT` fetches are under way.
    pub fn next_fetch(&mut self) -> (res: Option<Fetch>)
        requires
            old(self).wf(),
        ensures
            final(self).wf(),
            final(self)@ == old(self)@.issue(),
            match res {
                Some(fetch) => old(self)@.can_issue() && fetch.slot == old(self)@.issued
                    && fetch.url@ == old(self)@.queue[fetch.slot as int],
                None => !old(self)@.can_issue(),
            },
    {
        if self.issued < self.queue.len() && self.in_flight < MAX_IN_FLIGHT {
            proof {
                lemma_issue_valid(self@);
            }
            let slot = self.issued;
            let url = self.queue[slot].clone();
            self.slots.set(slot, SlotState::InFlight);
            self.issued = self.issued + 1;
            self.in_flight = self.in_flight + 1;
            Some(Fetch { slot, url })
        } else {
            None
        }
    }

    /// Records what came of the fetch of slot `slot`: the content of the
    /// article, or nothing where the fetch failed or the page had no content
    /// block. Returns whether that fetch was under way; where it was not,
    /// nothing is recorded.
    pub fn record(&mut self, slot: usize, content: Option<String>) -> (res: bool)
        requires
            old(self).wf(),
        ensures
            final(self).wf(),
            res == old(self)@.awaits(slot as int),
            final(self)@ == old(self)@.record(
                slot as int,
                text_view(content),
            ),
    {
        if slot >= self.slots.len() {
            return false;
        }
        match self.slots[slot] {
            SlotState::InFlight => {},
            _ => {
                return false;
            },
        }
        proof {
            lemma_record_valid(
                self@,
                slot as int,
                text_view(content),
            );
        }
        match content {
            Some(text) => {
                self.slots.set(slot, SlotState::Delivered);
                self.articles.insert(self.queue[slot].clone(), text.clone());
                self.cache.insert(self.queue[slot].clone(), text);
            },
            None => {
                self.slots.set(slot, SlotState::Failed);
            },
        }
        self.in_flight = self.in_flight - 1;
        true
    }

    /// Records what came of the fetch of slot `slot`: the body of the page,
    /// or nothing where the fetch failed. The content block is taken out of
    /// the body and recorded.
    pub fn complete(&mut self, slot: usize, body: Option<Vec<u8>>) -> (res: bool)
        requires
            old(self).wf(),
        ensures
            final(self).wf(),
            res == old(self)@.awaits(slot as int),
            final(self)@ == old(self)@.record(
                slot as int,
                body_content(
                    bytes_view(body),
                ),
            ),
    {
        let content = article_of_body(body);
        self.record(slot, content)
    }

    /// Ends the pass and gives what it found and the cache of the feed.
    pub fn finish(self) -> (res: PassOutcome)
        requires
            self.wf(),
        ensures
            res.articles@ == self@.articles,
            res.cache@ == self@.cache,
            res.articles@ == res.cache@,
            res.cache@.dom().subset_of(self@.working.to_set()),
    {
        proof {
            lemma_cache_holds_working_set(self@);
        }
        PassOutcome { articles: self.articles, cache: self.cache }
    }
}

/// The content block of a fetched page, where the body came, is valid UTF-8
/// and has one.
pub fn article_of_body(body: Option<Vec<u8>>) -> (res: Option<String>)
    ensures
        match res {
            Some(text) => body_content(
                bytes_view(body),
            ) == Some(text@),
            None => body_content(
                bytes_view(body),
            ) is None,
        },
{
    match body {
        Some(bytes) => match text_from_utf8(bytes) {
            Some(page) => match extract_content(page.as_str()) {
                Ok(content) => Some(content),
                Err(_) => None,
            },
            None => None,
        },
        None => None,
    }
}

/// Scans the feed `content` and begins a pass over its links with a copy of
/// the feed's cache. The cache itself is left as it is, whether the pass
/// begins or not.
pub fn begin_pass(content: &str, options: &FurssOptions, cache: &ArticleCache) -> (res: Result<
    Pass,
    FeedError,
>)
    ensures
        match res {
            Ok(pass) => feed_links(feed_lexemes(content@)) matches Some(links) && pass.wf()
                && pass@ == begun(links, options.wants_all(), options.limit(), cache@),
            Err(e) => e == FeedError::Malformed && feed_links(feed_lexemes(content@)) is None,
        },
{
    match parse_rss_feed(content) {
        Ok(links) => Ok(Pass::begin(links, options, cache.duplicate())),
        Err(e) => Err(e),
    }
}

/// Ends a pass over the feed `content`: the feed rewritten with what the pass
/// found, and the cache of the feed after the pass.
pub fn end_pass(content: &str, pass: Pass) -> (res: (Result<String, FeedError>, ArticleCache))
    requires
        pass.wf(),
    ensures
        res.1@ == pass@.cache,
        match res.0 {
            Ok(text) => feed_output(content@, pass@.articles) matches Some(bytes) && valid_utf8(
                bytes,
            ) && text@ == decode_utf8(bytes),
            Err(FeedError::Malformed) => feed_output(content@, pass@.articles) is None,
            Err(FeedError::Encoding) => feed_output(content@, pass@.articles) matches Some(bytes)
                && !valid_utf8(bytes),
        },
{
    let outcome = pass.finish();
    let text = add_content_to_item(content, &outcome.articles);
    (text, outcome.cache)
}

} // verus!
