//! The page cache: a bounded map from page numbers to the rows of those
//! pages, which forgets the page that was used least recently when a new one
//! does not fit.

use lru::LruCache;
use std::num::NonZeroUsize;
use vstd::prelude::*;

verus! {

/// The rows of one page: for each row its fields, as owned text.
pub type PageRows = Vec<Vec<String>>;

/// The rows of one page as mathematical text.
pub type PageText = Seq<Seq<Seq<char>>>;

/// How many pages a cache holds unless told otherwise.
pub const DEFAULT_CAPACITY: usize = 10;

/// `lru::LruCache`, whose inside stays hidden: what it holds is spoken of
/// through [`lru_entries`] and [`lru_capacity`] only.
#[verifier::external_type_specification]
#[verifier::external_body]
#[verifier::reject_recursive_types(K)]
#[verifier::reject_recursive_types(V)]
#[verifier::reject_recursive_types(S)]
pub struct ExLruCache<K, V, S>(LruCache<K, V, S>);

/// `lru::DefaultHasher`, the hasher that an `LruCache` uses unless told
/// otherwise; nothing is said of it.
#[verifier::external_type_specification]
#[verifier::external_body]
pub struct ExLruHasher(lru::DefaultHasher);

/// What an LRU cache of pages holds: its entries, the most recently used
/// first.
pub uninterp spec fn lru_entries(cache: LruCache<usize, PageRows>) -> Seq<(usize, PageText)>;

/// The number of entries that an LRU cache of pages was made to hold at most.
pub uninterp spec fn lru_capacity(cache: LruCache<usize, PageRows>) -> nat;

/// The position of the first entry for `page`, or -1 where there is none.
pub open spec fn page_rank(entries: Seq<(usize, PageText)>, page: usize) -> int
    decreases entries.len(),
{
    if entries.len() == 0 {
        -1
    } else if entries[0].0 == page {
        0
    } else {
        let rest = page_rank(entries.subrange(1, entries.len() as int), page);
        if rest < 0 {
            -1
        } else {
            rest + 1
        }
    }
}

/// The entries after `page` was used: its entry has moved to the front.
pub open spec fn touched(entries: Seq<(usize, PageText)>, page: usize) -> Seq<(usize, PageText)> {
    let i = page_rank(entries, page);
    if i < 0 {
        entries
    } else {
        seq![entries[i]] + entries.remove(i)
    }
}

/// The entries after `rows` were stored for `page` in a cache that holds at
/// most `capacity` entries: the new entry stands at the front; an older
/// entry for the page is gone; and where the page is new and the cache was
/// full, the entry used least recently is gone.
pub open spec fn stored(
    entries: Seq<(usize, PageText)>,
    capacity: nat,
    page: usize,
    rows: PageText,
) -> Seq<(usize, PageText)> {
    let i = page_rank(entries, page);
    if i >= 0 {
        seq![(page, rows)] + entries.remove(i)
    } else if entries.len() >= capacity && entries.len() > 0 {
        seq![(page, rows)] + entries.subrange(0, entries.len() - 1)
    } else {
        seq![(page, rows)] + entries
    }
}

/// `LruCache::new` makes an empty cache that holds at most `capacity`
/// entries.
#[verifier::external_body]
fn lru_new(capacity: usize) -> (r: LruCache<usize, PageRows>)
    requires
        capacity > 0,
    ensures
        lru_entries(r) == Seq::<(usize, PageText)>::empty(),
        lru_capacity(r) == capacity,
{
    LruCache::new(NonZeroUsize::new(capacity).unwrap())
}

/// `LruCache::get` hands out the value stored for the key, if there is one,
/// and moves that entry to the front; this wrapper hands out a copy.
#[verifier::external_body]
fn lru_get(cache: &mut LruCache<usize, PageRows>, page: usize) -> (r: Option<PageRows>)
    ensures
        lru_entries(*final(cache)) == touched(lru_entries(*old(cache)), page),
        lru_capacity(*final(cache)) == lru_capacity(*old(cache)),
        page_rank(lru_entries(*old(cache)), page) < 0 ==> r is None,
        page_rank(lru_entries(*old(cache)), page) >= 0 ==> (r matches Some(rows)
            && rows.deep_view() == lru_entries(*old(cache))[page_rank(
            lru_entries(*old(cache)),
            page,
        )].1),
{
    cache.get(&page).cloned()
}

/// `LruCache::put` stores the value for the key at the front: it replaces
/// the value of an entry that the key already has, and otherwise, where the
/// cache is full, first drops the entry at the back.
#[verifier::external_body]
fn lru_put(cache: &mut LruCache<usize, PageRows>, page: usize, rows: PageRows)
    ensures
        lru_entries(*final(cache)) == stored(
            lru_entries(*old(cache)),
            lru_capacity(*old(cache)),
            page,
            rows.deep_view(),
        ),
        lru_capacity(*final(cache)) == lru_capacity(*old(cache)),
{
    cache.put(page, rows);
}

/// `LruCache::clear` drops every entry.
#[verifier::external_body]
fn lru_clear(cache: &mut LruCache<usize, PageRows>)
    ensures
        lru_entries(*final(cache)) == Seq::<(usize, PageText)>::empty(),
        lru_capacity(*final(cache)) == lru_capacity(*old(cache)),
{
    cache.clear();
}

/// `LruCache::len` is the number of entries.
#[verifier::external_body]
fn lru_len(cache: &LruCache<usize, PageRows>) -> (r: usize)
    ensures
        r == lru_entries(*cache).len(),
{
    cache.len()
}

/// A bounded cache of pages.
pub struct PageCache {
    cache: LruCache<usize, PageRows>,
}

/// No page has two entries.
pub open spec fn distinct_pages(entries: Seq<(usize, PageText)>) -> bool {
    forall|i: int, j: int| 0 <= i < j < entries.len() ==> entries[i].0 != entries[j].0
}

/// What the rank of a page says: the entry at a rank that is not negative is
/// one for the page, and no entry before it is; with a negative rank no entry
/// is for the page.
pub proof fn lemma_page_rank(entries: Seq<(usize, PageText)>, page: usize)
    ensures
        -1 <= page_rank(entries, page) < entries.len(),
        page_rank(entries, page) >= 0 ==> entries[page_rank(entries, page)].0 == page,
        forall|i: int|
            0 <= i < entries.len() && (i < page_rank(entries, page) || page_rank(entries, page)
                < 0) ==> (#[trigger] entries[i]).0 != page,
    decreases entries.len(),
{
    if entries.len() > 0 && entries[0].0 != page {
        let rest = entries.subrange(1, entries.len() as int);
        lemma_page_rank(rest, page);
        assert forall|i: int|
            0 <= i < entries.len() && (i < page_rank(entries, page) || page_rank(entries, page)
                < 0) implies (#[trigger] entries[i]).0 != page by {
            if i > 0 {
                assert(rest[i - 1] == entries[i]);
            }
        }
    }
}

impl PageCache {
    /// The entries, the most recently used first.
    pub closed spec fn view(&self) -> Seq<(usize, PageText)> {
        lru_entries(self.cache)
    }

    /// The number of pages that the cache holds at most.
    pub closed spec fn capacity(&self) -> nat {
        lru_capacity(self.cache)
    }

    /// The invariant: no page twice, and never more pages than the capacity,
    /// which is at least one.
    pub open spec fn wf(&self) -> bool {
        &&& self.capacity() > 0
        &&& self@.len() <= self.capacity()
        &&& distinct_pages(self@)
    }

    /// The rows stored for `page`, if any.
    pub open spec fn lookup(&self, page: usize) -> Option<PageText> {
        let i = page_rank(self@, page);
        if i < 0 {
            None
        } else {
            Some(self@[i].1)
        }
    }

    /// A cache for `capacity` pages; for one page where `capacity` is 0.
    pub fn new(capacity: usize) -> (r: Self)
        ensures
            r.wf(),
            r@.len() == 0,
            r.capacity() == if capacity == 0 {
                1
            } else {
                capacity as nat
            },
    {
        let cap: usize = if capacity == 0 {
            1
        } else {
            capacity
        };
        PageCache { cache: lru_new(cap) }
    }

    /// The rows stored for `page`, which counts as a use of the page.
    pub fn get(&mut self, page: &usize) -> (r: Option<PageRows>)
        requires
            old(self).wf(),
        ensures
            final(self).wf(),
            final(self)@ == touched(old(self)@, *page),
            final(self).capacity() == old(self).capacity(),
            match r {
                Some(rows) => Some(rows.deep_view()) == old(self).lookup(*page),
                None => old(self).lookup(*page) is None,
            },
            forall|p: usize| final(self).lookup(p) == old(self).lookup(p),
    {
        proof {
            lemma_page_rank(self@, *page);
            lemma_touched(self@, *page);
        }
        lru_get(&mut self.cache, *page)
    }

    /// Stores `rows` for `page`, in place of what was stored for it before.
    /// A full cache forgets the page used least recently.
    pub fn put(&mut self, page: usize, rows: PageRows)
        requires
            old(self).wf(),
        ensures
            final(self).wf(),
            final(self)@ == stored(old(self)@, old(self).capacity(), page, rows.deep_view()),
            final(self).capacity() == old(self).capacity(),
            final(self).lookup(page) == Some(rows.deep_view()),
            forall|p: usize|
                p != page && final(self).lookup(p) is Some ==> final(self).lookup(p) == old(
                    self,
                ).lookup(p),
    {
        proof {
            lemma_page_rank(self@, page);
            lemma_stored(self@, self.capacity(), page, rows.deep_view());
        }
        lru_put(&mut self.cache, page, rows);
    }

    /// Forgets every page.
    pub fn clear(&mut self)
        requires
            old(self).wf(),
        ensures
            final(self).wf(),
            final(self)@.len() == 0,
            final(self).capacity() == old(self).capacity(),
            forall|p: usize| final(self).lookup(p) is None,
    {
        lru_clear(&mut self.cache);
    }

    /// The number of pages stored.
    pub fn len(&self) -> (r: usize)
        ensures
            r == self@.len(),
    {
        lru_len(&self.cache)
    }

    /// Whether no page is stored.
    pub fn is_empty(&self) -> (r: bool)
        ensures
            r == (self@.len() == 0),
    {
        lru_len(&self.cache) == 0
    }
}

impl Default for PageCache {
    /// A cache for [`DEFAULT_CAPACITY`] pages.
    fn default() -> (r: Self)
        ensures
            r.wf(),
            r@.len() == 0,
            r.capacity() == DEFAULT_CAPACITY,
    {
        PageCache::new(DEFAULT_CAPACITY)
    }
}

/// Using a page changes the order of the entries and nothing else: the
/// pages stay distinct, and each page keeps its rows.
pub proof fn lemma_touched(entries: Seq<(usize, PageText)>, page: usize)
    requires
        distinct_pages(entries),
    ensures
        distinct_pages(touched(entries, page)),
        touched(entries, page).len() == entries.len(),
        forall|p: usize|
            page_rank(touched(entries, page), p) >= 0 <==> page_rank(entries, p) >= 0,
        forall|p: usize|
            page_rank(entries, p) >= 0 ==> touched(entries, page)[page_rank(
                touched(entries, page),
                p,
            )].1 == entries[page_rank(entries, p)].1,
{
    let i = page_rank(entries, page);
    let after = touched(entries, page);
    lemma_page_rank(entries, page);
    if i >= 0 {
        assert forall|a: int, b: int| 0 <= a < b < after.len() implies after[a].0
            != after[b].0 by {
            let ia = if a == 0 { i } else if a - 1 < i { a - 1 } else { a };
            let ib = if b - 1 < i { b - 1 } else { b };
            assert(after[a] == entries[ia]);
            assert(after[b] == entries[ib]);
        }
    }
    assert forall|p: usize| (page_rank(after, p) >= 0 <==> page_rank(entries, p) >= 0) && (
    page_rank(entries, p) >= 0 ==> after[page_rank(after, p)].1 == entries[page_rank(
        entries,
        p,
    )].1) by {
        lemma_page_rank(entries, p);
        lemma_page_rank(after, p);
        let r = page_rank(entries, p);
        let q = page_rank(after, p);
        if i >= 0 {
            if r >= 0 {
                let moved = if r == i { 0 } else if r < i { r + 1 } else { r };
                assert(after[moved] == entries[r]);
            }
            if q >= 0 {
                let origin = if q == 0 { i } else if q - 1 < i { q - 1 } else { q };
                assert(after[q] == entries[origin]);
                if r >= 0 && origin != r {
                    assert(entries[origin].0 == entries[r].0);
                }
            }
        }
    }
}

/// Storing a page keeps the pages distinct and within the capacity, makes
/// the new rows those of the page, and leaves the rows of every other page
/// that is still there as they were.
pub proof fn lemma_stored(
    entries: Seq<(usize, PageText)>,
    capacity: nat,
    page: usize,
    rows: PageText,
)
    requires
        distinct_pages(entries),
        entries.len() <= capacity,
        capacity > 0,
    ensures
        distinct_pages(stored(entries, capacity, page, rows)),
        stored(entries, capacity, page, rows).len() <= capacity,
        page_rank(stored(entries, capacity, page, rows), page) == 0,
        stored(entries, capacity, page, rows)[0].1 == rows,
        forall|p: usize|
            p != page && page_rank(stored(entries, capacity, page, rows), p) >= 0 ==> page_rank(
                entries,
                p,
            ) >= 0 && stored(entries, capacity, page, rows)[page_rank(
                stored(entries, capacity, page, rows),
                p,
            )].1 == entries[page_rank(entries, p)].1,
{
    let i = page_rank(entries, page);
    let after = stored(entries, capacity, page, rows);
    lemma_page_rank(entries, page);
    assert forall|a: int, b: int| 0 <= a < b < after.len() implies after[a].0 != after[b].0 by {
        let ib = if i >= 0 && b - 1 >= i { b } else { b - 1 };
        assert(after[b] == entries[ib]);
        if a > 0 {
            let ia = if i >= 0 && a - 1 >= i { a } else { a - 1 };
            assert(after[a] == entries[ia]);
        }
    }
    assert forall|p: usize| p != page && page_rank(after, p) >= 0 implies page_rank(entries, p)
        >= 0 && after[page_rank(after, p)].1 == entries[page_rank(entries, p)].1 by {
        lemma_page_rank(entries, p);
        lemma_page_rank(after, p);
        let q = page_rank(after, p);
        let r = page_rank(entries, p);
        let origin = if i >= 0 && q - 1 >= i { q } else { q - 1 };
        assert(after[q] == entries[origin]);
        if r >= 0 && origin != r {
            assert(entries[origin].0 == entries[r].0);
        }
    }
}

} // verus!
