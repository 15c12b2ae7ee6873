//! The article cache of one feed: what was extracted from each article, by
//! the article's address; and the caches of all feeds, by the feed's address.

use crate::xml::bytes_eq;
use vstd::prelude::*;
use vstd::string::*;
use vstd::utf8::*;

verus! {

/// Whether two texts are the same.
pub fn text_eq(a: &str, b: &str) -> (res: bool)
    ensures
        res == (a@ == b@),
{
    proof {
        encode_utf8_decode_utf8(a@);
        encode_utf8_decode_utf8(b@);
    }
    bytes_eq(a.as_bytes(), b.as_bytes())
}

/// Whether `url` is among `urls`.
pub fn lists(urls: &Vec<String>, url: &str) -> (res: bool)
    ensures
        res == urls.deep_view().contains(url@),
{
    let mut i: usize = 0;
    while i < urls.len()
        invariant
            i <= urls.len(),
            forall|j: int| 0 <= j < i ==> urls.deep_view()[j] != url@,
        decreases urls.len() - i,
    {
        if text_eq(urls[i].as_str(), url) {
            assert(urls.deep_view()[i as int] == url@);
            return true;
        }
        i += 1;
    }
    false
}

/// One article: its address and what was extracted from it.
struct CacheEntry {
    url: String,
    content: String,
}

/// Whether some entry has the address `url`.
spec fn has_entry(entries: Seq<CacheEntry>, url: Seq<char>) -> bool {
    exists|i: int| 0 <= i < entries.len() && #[trigger] entries[i].url@ == url
}

/// The place of an entry with the address `url`.
spec fn entry_index(entries: Seq<CacheEntry>, url: Seq<char>) -> int {
    choose|i: int| 0 <= i < entries.len() && #[trigger] entries[i].url@ == url
}

/// Whether some entry has the address and the content of `entry`.
spec fn holds(entries: Seq<CacheEntry>, entry: CacheEntry) -> bool {
    exists|i: int|
        0 <= i < entries.len() && #[trigger] entries[i].url@ == entry.url@ && entries[i].content@
            == entry.content@
}

/// Whether no two entries have the same address.
spec fn distinct_urls(entries: Seq<CacheEntry>) -> bool {
    forall|i: int, j: int|
        0 <= i < j < entries.len() ==> #[trigger] entries[i].url@ != #[trigger] entries[j].url@
}

/// The mapping that a list of entries stands for.
spec fn entries_map(entries: Seq<CacheEntry>) -> Map<Seq<char>, Seq<char>> {
    Map::new(
        |url: Seq<char>| has_entry(entries, url),
        |url: Seq<char>| entries[entry_index(entries, url)].content@,
    )
}

/// With distinct addresses, each entry is what the mapping has at its address.
proof fn lemma_entry_in_map(entries: Seq<CacheEntry>, i: int)
    requires
        distinct_urls(entries),
        0 <= i < entries.len(),
    ensures
        entries_map(entries).contains_key(entries[i].url@),
        entries_map(entries)[entries[i].url@] == entries[i].content@,
{
    let j = entry_index(entries, entries[i].url@);
    assert(0 <= j < entries.len() && entries[j].url@ == entries[i].url@);
    assert(i == j);
}

/// With distinct addresses, the mapping has as many addresses as there are
/// entries.
proof fn lemma_entries_count(entries: Seq<CacheEntry>)
    requires
        distinct_urls(entries),
    ensures
        entries_map(entries).dom().finite(),
        entries_map(entries).dom().len() == entries.len(),
    decreases entries.len(),
{
    if entries.len() == 0 {
        assert(entries_map(entries).dom() =~= Set::<Seq<char>>::empty());
    } else {
        let front = entries.drop_last();
        let last = entries.last().url@;
        lemma_entries_count(front);
        assert forall|url: Seq<char>| has_entry(entries, url) == (has_entry(front, url) || url
            == last) by {
            if has_entry(front, url) {
                let i = entry_index(front, url);
                assert(entries[i].url@ == url);
            }
            if url == last {
                assert(entries[entries.len() - 1].url@ == url);
            }
            if has_entry(entries, url) {
                let i = entry_index(entries, url);
                if i < front.len() {
                    assert(front[i].url@ == url);
                }
            }
        }
        assert(!has_entry(front, last)) by {
            if has_entry(front, last) {
                let i = entry_index(front, last);
                assert(entries[i].url@ == entries[entries.len() - 1].url@);
            }
        }
        assert(entries_map(entries).dom() =~= entries_map(front).dom().insert(last));
    }
}

/// The article cache of one feed: at most one content for each address.
pub struct ArticleCache {
    entries: Vec<CacheEntry>,
}

impl View for ArticleCache {
    type V = Map<Seq<char>, Seq<char>>;

    closed spec fn view(&self) -> Map<Seq<char>, Seq<char>> {
        entries_map(self.entries@)
    }
}

impl ArticleCache {
    #[verifier::type_invariant]
    spec fn distinct(self) -> bool {
        distinct_urls(self.entries@)
    }

    /// A cache that holds nothing.
    pub fn new() -> (res: Self)
        ensures
            res@ == Map::<Seq<char>, Seq<char>>::empty(),
    {
        let res = ArticleCache { entries: Vec::new() };
        assert(res@ =~= Map::<Seq<char>, Seq<char>>::empty());
        res
    }

    /// The number of articles held.
    pub fn len(&self) -> (res: usize)
        ensures
            self@.dom().finite(),
            res == self@.dom().len(),
    {
        proof {
            use_type_invariant(self);
            lemma_entries_count(self.entries@);
        }
        self.entries.len()
    }

    /// Takes the entries out, leaving the cache empty.
    fn take_entries(&mut self) -> (res: Vec<CacheEntry>)
        ensures
            res@ == old(self).entries@,
            final(self).entries@.len() == 0,
    {
        let mut taken = ArticleCache { entries: Vec::new() };
        core::mem::swap(self, &mut taken);
        taken.entries
    }

    /// Where the entry for `url` stands, if there is one.
    fn position(&self, url: &str) -> (res: Option<usize>)
        ensures
            match res {
                Some(i) => i < self.entries@.len() && self.entries@[i as int].url@ == url@,
                None => !has_entry(self.entries@, url@),
            },
    {
        let mut i: usize = 0;
        while i < self.entries.len()
            invariant
                i <= self.entries@.len(),
                forall|j: int| 0 <= j < i ==> self.entries@[j].url@ != url@,
            decreases self.entries@.len() - i,
        {
            if text_eq(self.entries[i].url.as_str(), url) {
                return Some(i);
            }
            i += 1;
        }
        None
    }

    /// Whether the cache has content for `url`.
    pub fn contains(&self, url: &str) -> (res: bool)
        ensures
            res == self@.contains_key(url@),
    {
        self.position(url).is_some()
    }

    /// The content cached for `url`, if any.
    pub fn lookup(&self, url: &str) -> (res: Option<&String>)
        ensures
            match res {
                Some(content) => self@.contains_key(url@) && content@ == self@[url@],
                None => !self@.contains_key(url@),
            },
    {
        proof {
            use_type_invariant(self);
        }
        match self.position(url) {
            Some(i) => {
                proof {
                    lemma_entry_in_map(self.entries@, i as int);
                }
                Some(&self.entries[i].content)
            },
            None => None,
        }
    }

    /// Puts `content` under `url`, in place of what was there.
    pub fn insert(&mut self, url: String, content: String)
        ensures
            final(self)@ == old(self)@.insert(url@, content@),
    {
        proof {
            use_type_invariant(&*self);
        }
        let ghost before = self.entries@;
        let found = self.position(url.as_str());
        let mut entries = self.take_entries();
        match found {
            Some(i) => {
                entries.set(i, CacheEntry { url, content });
                proof {
                    let after = entries@;
                    assert forall|k: Seq<char>| has_entry(after, k) == (has_entry(before, k) || k
                        == url@) by {
                        if has_entry(before, k) {
                            let j = entry_index(before, k);
                            assert(after[j].url@ == k);
                        }
                        if k == url@ {
                            assert(after[i as int].url@ == k);
                        }
                        if has_entry(after, k) {
                            let j = entry_index(after, k);
                            assert(before[j].url@ == k);
                        }
                    }
                    assert forall|k: Seq<char>| has_entry(after, k) implies #[trigger] entries_map(
                        after,
                    )[k] == old(self)@.insert(url@, content@)[k] by {
                        let j = entry_index(after, k);
                        lemma_entry_in_map(after, j);
                        if j != i {
                            assert(before[j].url@ == k);
                            lemma_entry_in_map(before, j);
                        }
                    }
                    assert(entries_map(after) =~= old(self)@.insert(url@, content@));
                }
            },
            None => {
                entries.push(CacheEntry { url, content });
                proof {
                    let after = entries@;
                    let last = after.len() - 1;
                    assert forall|k: Seq<char>| has_entry(after, k) == (has_entry(before, k) || k
                        == url@) by {
                        if has_entry(before, k) {
                            let j = entry_index(before, k);
                            assert(after[j].url@ == k);
                        }
                        if k == url@ {
                            assert(after[last].url@ == k);
                        }
                        if has_entry(after, k) {
                            let j = entry_index(after, k);
                            if j < last {
                                assert(before[j].url@ == k);
                            }
                        }
                    }
                    assert forall|k: Seq<char>| has_entry(after, k) implies #[trigger] entries_map(
                        after,
                    )[k] == old(self)@.insert(url@, content@)[k] by {
                        let j = entry_index(after, k);
                        lemma_entry_in_map(after, j);
                        if j < last {
                            assert(before[j].url@ == k);
                            lemma_entry_in_map(before, j);
                        }
                    }
                    assert(entries_map(after) =~= old(self)@.insert(url@, content@));
                }
            },
        }
        self.entries = entries;
    }

    /// Puts every entry of `other` into this cache, in place of what was
    /// there under the same address.
    pub fn merge(&mut self, other: &ArticleCache)
        ensures
            final(self)@ == old(self)@.union_prefer_right(other@),
    {
        proof {
            use_type_invariant(other);
        }
        let mut i: usize = 0;
        while i < other.entries.len()
            invariant
                i <= other.entries@.len(),
                distinct_urls(other.entries@),
                self@ == old(self)@.union_prefer_right(
                    entries_map(other.entries@.subrange(0, i as int)),
                ),
            decreases other.entries@.len() - i,
        {
            let ghost mid = self@;
            let ghost done = other.entries@.subrange(0, i as int);
            let ghost next = other.entries@.subrange(0, i + 1);
            let entry = &other.entries[i];
            self.insert(entry.url.clone(), entry.content.clone());
            proof {
                assert(distinct_urls(next));
                assert forall|k: Seq<char>| has_entry(next, k) == (has_entry(done, k) || k
                    == entry.url@) by {
                    if has_entry(done, k) {
                        let j = entry_index(done, k);
                        assert(next[j].url@ == k);
                    }
                    if k == entry.url@ {
                        assert(next[i as int].url@ == k);
                    }
                    if has_entry(next, k) {
                        let j = entry_index(next, k);
                        if j < i {
                            assert(done[j].url@ == k);
                        }
                    }
                }
                assert forall|k: Seq<char>| has_entry(next, k) implies #[trigger] entries_map(
                    next,
                )[k] == entries_map(done).insert(entry.url@, entry.content@)[k] by {
                    let j = entry_index(next, k);
                    lemma_entry_in_map(next, j);
                    if j < i {
                        assert(done[j].url@ == k);
                        assert(distinct_urls(done));
                        lemma_entry_in_map(done, j);
                    }
                }
                assert(entries_map(next) =~= entries_map(done).insert(entry.url@, entry.content@));
                assert(self@ =~= old(self)@.union_prefer_right(entries_map(next)));
            }
            i += 1;
        }
        assert(other.entries@.subrange(0, i as int) =~= other.entries@);
    }

    /// Removes every entry whose address is not among `working`.
    pub fn prune(&mut self, working: &Vec<String>)
        ensures
            final(self)@ == old(self)@.restrict(working.deep_view().to_set()),
    {
        proof {
            use_type_invariant(&*self);
        }
        let mut kept: Vec<CacheEntry> = Vec::new();
        let mut i: usize = 0;
        while i < self.entries.len()
            invariant
                i <= self.entries@.len(),
                self.entries@ == old(self).entries@,
                distinct_urls(self.entries@),
                distinct_urls(kept@),
                forall|j: int|
                    0 <= j < kept@.len() ==> holds(
                        self.entries@.subrange(0, i as int),
                        #[trigger] kept@[j],
                    ),
                forall|j: int| 0 <= j < kept@.len() ==> working.deep_view().to_set().contains(#[trigger] kept@[j].url@),
                forall|k: int|
                    0 <= k < i && working.deep_view().to_set().contains(#[trigger] self.entries@[k].url@)
                        ==> has_entry(kept@, self.entries@[k].url@),
            decreases self.entries@.len() - i,
        {
            let entry = &self.entries[i];
            if lists(working, entry.url.as_str()) {
                let ghost before = kept@;
                kept.push(CacheEntry { url: entry.url.clone(), content: entry.content.clone() });
                proof {
                    let seen = self.entries@.subrange(0, i as int);
                    assert forall|j: int| 0 <= j < before.len() implies #[trigger] before[j].url@
                        != entry.url@ by {
                        assert(holds(seen, before[j]));
                        let k = choose|k: int|
                            0 <= k < seen.len() && #[trigger] seen[k].url@ == before[j].url@
                                && seen[k].content@ == before[j].content@;
                        assert(self.entries@[k].url@ == before[j].url@);
                    }
                    assert(distinct_urls(kept@));
                    assert forall|k: int|
                        0 <= k < i + 1 && working.deep_view().to_set().contains(
                            #[trigger] self.entries@[k].url@,
                        ) implies has_entry(kept@, self.entries@[k].url@) by {
                        if k < i {
                            let j = entry_index(before, self.entries@[k].url@);
                            assert(kept@[j].url@ == self.entries@[k].url@);
                        } else {
                            assert(kept@[kept@.len() - 1].url@ == self.entries@[k].url@);
                        }
                    }
                }
            }
            proof {
                let seen = self.entries@.subrange(0, i as int);
                let more = self.entries@.subrange(0, i + 1);
                assert forall|j: int| 0 <= j < kept@.len() implies holds(
                    more,
                    #[trigger] kept@[j],
                ) by {
                    if holds(seen, kept@[j]) {
                        let k = choose|k: int|
                            0 <= k < seen.len() && #[trigger] seen[k].url@ == kept@[j].url@
                                && seen[k].content@ == kept@[j].content@;
                        assert(more[k].url@ == kept@[j].url@);
                    } else {
                        assert(more[i as int].url@ == kept@[j].url@);
                    }
                }
            }
            i += 1;
        }
        proof {
            let before = self.entries@;
            assert(before.subrange(0, i as int) =~= before);
            let wanted = old(self)@.restrict(working.deep_view().to_set());
            assert forall|k: Seq<char>| has_entry(kept@, k) == wanted.contains_key(k) by {
                if has_entry(kept@, k) {
                    let j = entry_index(kept@, k);
                    assert(holds(before, kept@[j]));
                    assert(has_entry(before, k));
                }
                if wanted.contains_key(k) {
                    let s = entry_index(before, k);
                    assert(working.deep_view().to_set().contains(before[s].url@));
                }
            }
            assert forall|k: Seq<char>| has_entry(kept@, k) implies #[trigger] entries_map(kept@)[k]
                == wanted[k] by {
                let j = entry_index(kept@, k);
                lemma_entry_in_map(kept@, j);
                assert(holds(before, kept@[j]));
                let src = choose|s: int|
                    0 <= s < before.len() && #[trigger] before[s].url@ == kept@[j].url@
                        && before[s].content@ == kept@[j].content@;
                lemma_entry_in_map(before, src);
            }
            assert(entries_map(kept@) =~= wanted);
        }
        self.entries = kept;
    }

    /// A copy of this cache.
    pub fn duplicate(&self) -> (res: ArticleCache)
        ensures
            res@ == self@,
    {
        let mut res = ArticleCache::new();
        res.merge(self);
        assert(res@ =~= self@);
        res
    }
}

/// One feed: its address and its article cache.
struct FeedEntry {
    url: String,
    cache: ArticleCache,
}

/// Whether some feed has the address `url`.
spec fn has_feed(feeds: Seq<FeedEntry>, url: Seq<char>) -> bool {
    exists|i: int| 0 <= i < feeds.len() && #[trigger] feeds[i].url@ == url
}

/// The place of a feed with the address `url`.
spec fn feed_index(feeds: Seq<FeedEntry>, url: Seq<char>) -> int {
    choose|i: int| 0 <= i < feeds.len() && #[trigger] feeds[i].url@ == url
}

/// Whether no two feeds have the same address.
spec fn distinct_feeds(feeds: Seq<FeedEntry>) -> bool {
    forall|i: int, j: int|
        0 <= i < j < feeds.len() ==> #[trigger] feeds[i].url@ != #[trigger] feeds[j].url@
}

/// The mapping that a list of feeds stands for.
spec fn feeds_map(feeds: Seq<FeedEntry>) -> Map<Seq<char>, Map<Seq<char>, Seq<char>>> {
    Map::new(
        |url: Seq<char>| has_feed(feeds, url),
        |url: Seq<char>| feeds[feed_index(feeds, url)].cache@,
    )
}

/// With distinct addresses, each feed is what the mapping has at its address.
proof fn lemma_feed_in_map(feeds: Seq<FeedEntry>, i: int)
    requires
        distinct_feeds(feeds),
        0 <= i < feeds.len(),
    ensures
        feeds_map(feeds).contains_key(feeds[i].url@),
        feeds_map(feeds)[feeds[i].url@] == feeds[i].cache@,
{
    let j = feed_index(feeds, feeds[i].url@);
    assert(0 <= j < feeds.len() && feeds[j].url@ == feeds[i].url@);
    assert(i == j);
}

/// Putting a feed in the place of the one with the same address, or at the
/// end where there is none, puts its cache under its address.
proof fn lemma_feed_put(
    before: Seq<FeedEntry>,
    after: Seq<FeedEntry>,
    found: Option<int>,
    entry: FeedEntry,
)
    requires
        distinct_feeds(before),
        match found {
            Some(i) => 0 <= i < before.len() && before[i].url@ == entry.url@ && after
                == before.update(i, entry),
            None => !has_feed(before, entry.url@) && after == before.push(entry),
        },
    ensures
        distinct_feeds(after),
        feeds_map(after) == feeds_map(before).insert(entry.url@, entry.cache@),
{
    let at = match found {
        Some(i) => i,
        None => before.len() as int,
    };
    assert(after[at] == entry);
    assert forall|i: int, j: int| 0 <= i < j < after.len() implies #[trigger] after[i].url@
        != #[trigger] after[j].url@ by {
        if i != at && j != at {
            assert(before[i].url@ != before[j].url@);
        } else if i == at {
            if found is Some {
                assert(before[i].url@ != before[j].url@);
            }
        } else {
            if found is Some {
                assert(before[i].url@ != before[j].url@);
            } else {
                assert(before[i].url@ != entry.url@);
            }
        }
    }
    assert forall|k: Seq<char>| has_feed(after, k) == (has_feed(before, k) || k
        == entry.url@) by {
        if has_feed(before, k) {
            let j = feed_index(before, k);
            assert(after[j].url@ == k);
        }
        if k == entry.url@ {
            assert(after[at].url@ == k);
        }
        if has_feed(after, k) {
            let j = feed_index(after, k);
            if j != at {
                assert(before[j].url@ == k);
            }
        }
    }
    assert forall|k: Seq<char>| has_feed(after, k) implies #[trigger] feeds_map(after)[k]
        == feeds_map(before).insert(entry.url@, entry.cache@)[k] by {
        let j = feed_index(after, k);
        lemma_feed_in_map(after, j);
        if j != at {
            assert(before[j].url@ == k);
            lemma_feed_in_map(before, j);
        }
    }
    assert(feeds_map(after) =~= feeds_map(before).insert(entry.url@, entry.cache@));
}

/// The caches of all feeds that the service has been asked for: at most one
/// article cache for each feed address.
pub struct FeedCache {
    feeds: Vec<FeedEntry>,
}

impl View for FeedCache {
    type V = Map<Seq<char>, Map<Seq<char>, Seq<char>>>;

    closed spec fn view(&self) -> Map<Seq<char>, Map<Seq<char>, Seq<char>>> {
        feeds_map(self.feeds@)
    }
}

impl FeedCache {
    #[verifier::type_invariant]
    spec fn distinct(self) -> bool {
        distinct_feeds(self.feeds@)
    }

    /// What the caches of all feeds are once the cache of `url` was asked
    /// for: as they were, with an empty cache for `url` where it had none.
    pub open spec fn with_feed(
        feeds: Map<Seq<char>, Map<Seq<char>, Seq<char>>>,
        url: Seq<char>,
    ) -> Map<Seq<char>, Map<Seq<char>, Seq<char>>> {
        if feeds.contains_key(url) {
            feeds
        } else {
            feeds.insert(url, Map::empty())
        }
    }

    /// No cache for any feed.
    pub fn new() -> (res: Self)
        ensures
            res@ == Map::<Seq<char>, Map<Seq<char>, Seq<char>>>::empty(),
    {
        let res = FeedCache { feeds: Vec::new() };
        assert(res@ =~= Map::<Seq<char>, Map<Seq<char>, Seq<char>>>::empty());
        res
    }

    /// Takes the feeds out, leaving none.
    fn take_feeds(&mut self) -> (res: Vec<FeedEntry>)
        ensures
            res@ == old(self).feeds@,
            final(self).feeds@.len() == 0,
    {
        let mut taken = FeedCache { feeds: Vec::new() };
        core::mem::swap(self, &mut taken);
        taken.feeds
    }

    /// Where the feed `url` stands, if it is there.
    fn position(&self, url: &str) -> (res: Option<usize>)
        ensures
            match res {
                Some(i) => i < self.feeds@.len() && self.feeds@[i as int].url@ == url@,
                None => !has_feed(self.feeds@, url@),
            },
    {
        let mut i: usize = 0;
        while i < self.feeds.len()
            invariant
                i <= self.feeds@.len(),
                forall|j: int| 0 <= j < i ==> self.feeds@[j].url@ != url@,
            decreases self.feeds@.len() - i,
        {
            if text_eq(self.feeds[i].url.as_str(), url) {
                return Some(i);
            }
            i += 1;
        }
        None
    }

    /// Whether a cache is kept for the feed `url`.
    pub fn contains(&self, url: &str) -> (res: bool)
        ensures
            res == self@.contains_key(url@),
    {
        self.position(url).is_some()
    }

    /// A copy of the article cache of the feed `url`. A feed that is asked
    /// for the first time gets an empty cache, which is kept from then on.
    pub fn cache_of(&mut self, url: &str) -> (res: ArticleCache)
        ensures
            final(self)@ == Self::with_feed(old(self)@, url@),
            final(self)@.contains_key(url@),
            res@ == final(self)@[url@],
    {
        proof {
            use_type_invariant(&*self);
        }
        match self.position(url) {
            Some(i) => {
                proof {
                    lemma_feed_in_map(self.feeds@, i as int);
                }
                self.feeds[i].cache.duplicate()
            },
            None => {
                let ghost before = self.feeds@;
                let mut feeds = self.take_feeds();
                let entry = FeedEntry { url: url.to_owned(), cache: ArticleCache::new() };
                proof {
                    lemma_feed_put(before, before.push(entry), None, entry);
                }
                feeds.push(entry);
                self.feeds = feeds;
                ArticleCache::new()
            },
        }
    }

    /// Keeps `cache` as the article cache of the feed `url`, in place of the
    /// one that was kept for it.
    pub fn store(&mut self, url: String, cache: ArticleCache)
        ensures
            final(self)@ == old(self)@.insert(url@, cache@),
    {
        proof {
            use_type_invariant(&*self);
        }
        let ghost before = self.feeds@;
        let found = self.position(url.as_str());
        let mut feeds = self.take_feeds();
        let entry = FeedEntry { url, cache };
        match found {
            Some(i) => {
                proof {
                    lemma_feed_put(before, before.update(i as int, entry), Some(i as int), entry);
                }
                feeds.set(i, entry);
            },
            None => {
                proof {
                    lemma_feed_put(before, before.push(entry), None, entry);
                }
                feeds.push(entry);
            },
        }
        self.feeds = feeds;
    }
}

} // verus!
