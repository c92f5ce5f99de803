//! Feed ingestion: picking the parse that succeeded, giving each entry a
//! stable id keyed by its canonical link, and the index writes that a
//! refresh makes, one feed at a time or for a batch of feeds.
use vstd::prelude::*;
use crate::codec::{u32_key, pair_key, ts_bytes, pair_to_key, i64_to_bytes, u32_to_bytes, copy_range};
use crate::error::AppError;

verus! {

/// One entry of a feed document.
pub struct Entry {
    /// Canonical link: what identifies the entry across refreshes.
    pub link: String,
    pub title: String,
    pub content: String,
    /// When the source last updated the entry, in seconds.
    pub updated: i64,
}

/// A feed document read in one of the supported formats.
pub struct ParsedFeed {
    pub title: String,
    pub entries: Vec<Entry>,
}

/// The parse to keep: the first format's when it succeeded, else the
/// second's; when both failed the source is not a valid feed.
pub fn pick_parse(first: Option<ParsedFeed>, second: Option<ParsedFeed>) -> (r: Result<ParsedFeed, AppError>)
    ensures
        (first is None && second is None) <==> r == Err::<ParsedFeed, AppError>(AppError::InvalidFeedSource),
        first is Some ==> r == Ok::<ParsedFeed, AppError>(first->0),
        (first is None && second is Some) ==> r == Ok::<ParsedFeed, AppError>(second->0),
{
    match first {
        Some(f) => Ok(f),
        None => match second {
            Some(s) => Ok(s),
            None => Err(AppError::InvalidFeedSource),
        },
    }
}

/// The canonical links of the entries, in order.
pub open spec fn links_of(entries: Seq<Entry>) -> Seq<Seq<char>> {
    entries.map_values(|e: Entry| e.link@)
}

/// The index, from `j` on, of the first of `links` that equals `l`
/// (`links.len()` when none does).
pub open spec fn first_index(links: Seq<Seq<char>>, l: Seq<char>, j: int) -> int
    decreases links.len() - j,
{
    if j >= links.len() || j < 0 || links[j] == l {
        j
    } else {
        first_index(links, l, j + 1)
    }
}

/// Whether entry `i` is the first with its link.
pub open spec fn is_first(links: Seq<Seq<char>>, i: int) -> bool {
    first_index(links, links[i], 0) == i
}

/// How many of the first `n` entries are the first with their link and
/// have no id in the link index: each of those takes a new id.
pub open spec fn fresh_count(links: Seq<Seq<char>>, stored: Seq<Option<u32>>, n: int) -> nat
    decreases n,
{
    if n <= 0 {
        0
    } else {
        fresh_count(links, stored, n - 1) + if is_first(links, n - 1) && stored[n - 1] is None {
            1nat
        } else {
            0nat
        }
    }
}

/// The id of entry `i`: the id of an earlier entry with the same link, or
/// else the id that the link index holds for the link (`stored[i]`), or
/// else the next new id, counting up from `first`.
pub open spec fn item_id(links: Seq<Seq<char>>, stored: Seq<Option<u32>>, first: nat, i: int) -> u32
    decreases i,
{
    let f = first_index(links, links[i], 0);
    if 0 <= f < i {
        item_id(links, stored, first, f)
    } else {
        match stored[i] {
            Some(v) => v,
            None => (first + fresh_count(links, stored, i)) as u32,
        }
    }
}

/// The ids of all entries.
pub open spec fn item_ids(links: Seq<Seq<char>>, stored: Seq<Option<u32>>, first: nat) -> Seq<u32> {
    Seq::new(links.len(), |i: int| item_id(links, stored, first, i))
}

proof fn lemma_fresh_count_bound(links: Seq<Seq<char>>, stored: Seq<Option<u32>>, n: int)
    requires
        n >= 0,
    ensures
        fresh_count(links, stored, n) <= n,
    decreases n,
{
    if n > 0 {
        lemma_fresh_count_bound(links, stored, n - 1);
    }
}

proof fn lemma_first_index_bound(links: Seq<Seq<char>>, l: Seq<char>, j: int, i: int)
    requires
        0 <= j <= i < links.len(),
        links[i] == l,
    ensures
        j <= first_index(links, l, j) <= i,
        links[first_index(links, l, j)] == l,
    decreases i - j,
{
    if links[j] != l {
        lemma_first_index_bound(links, l, j + 1, i);
    }
}

/// The ids that merging gives the entries, and how many new ids it took.
pub struct ItemIds {
    pub ids: Vec<u32>,
    pub fresh: u32,
}

/// The position of the first entry whose link is that of entry `i`.
fn first_with_link(entries: &Vec<Entry>, i: usize) -> (j: usize)
    requires
        i < entries@.len(),
    ensures
        j as int == first_index(links_of(entries@), links_of(entries@)[i as int], 0),
        j <= i,
{
    let ghost links = links_of(entries@);
    let mut j: usize = 0;
    while j < i
        invariant
            j <= i < entries@.len(),
            links == links_of(entries@),
            first_index(links, links[i as int], 0) == first_index(links, links[i as int], j as int),
        decreases i - j,
    {
        if entries[j].link == entries[i].link {
            proof {
                assert(links[j as int] == links[i as int]);
            }
            return j;
        }
        proof {
            assert(links[j as int] != links[i as int]);
        }
        j = j + 1;
    }
    j
}

/// Gives each entry its id: `stored[i]` is what the link index held for
/// the link of entry `i` before the merge, and new ids count up from
/// `first`, which the caller has reserved together with the ids after it.
pub fn assign_item_ids(entries: &Vec<Entry>, stored: &Vec<Option<u32>>, first: u32) -> (r: ItemIds)
    requires
        entries@.len() == stored@.len(),
        first + entries@.len() <= u32::MAX,
    ensures
        r.ids@ == item_ids(links_of(entries@), stored@, first as nat),
        r.fresh == fresh_count(links_of(entries@), stored@, entries@.len() as int),
{
    let ghost links = links_of(entries@);
    let mut ids: Vec<u32> = Vec::new();
    let mut fresh: u32 = 0;
    let mut i: usize = 0;
    while i < entries.len()
        invariant
            i <= entries@.len(),
            entries@.len() == stored@.len(),
            first + entries@.len() <= u32::MAX,
            links == links_of(entries@),
            ids@.len() == i,
            forall|k: int| 0 <= k < i ==> #[trigger] ids@[k] == item_id(links, stored@, first as nat, k),
            fresh == fresh_count(links, stored@, i as int),
        decreases entries@.len() - i,
    {
        let j = first_with_link(entries, i);
        proof {
            lemma_fresh_count_bound(links, stored@, i as int);
            assert(links.subrange(0, i as int + 1).len() == i + 1);
        }
        let id: u32 = if j < i {
            ids[j]
        } else {
            match stored[i] {
                Some(v) => v,
                None => {
                    let v = first + fresh;
                    fresh = fresh + 1;
                    v
                },
            }
        };
        ids.push(id);
        proof {
            assert(ids@[i as int] == item_id(links, stored@, first as nat, i as int));
        }
        i = i + 1;
    }
    proof {
        assert(ids@ =~= item_ids(links, stored@, first as nat));
    }
    ItemIds { ids, fresh }
}

/// Entries with the same link get the same id.
proof fn lemma_same_link_same_id(links: Seq<Seq<char>>, stored: Seq<Option<u32>>, first: nat, i: int)
    requires
        0 <= i < links.len(),
    ensures
        item_id(links, stored, first, i) == item_id(links, stored, first, first_index(links, links[i], 0)),
        is_first(links, first_index(links, links[i], 0)),
{
    lemma_first_index_bound(links, links[i], 0, i);
    let f = first_index(links, links[i], 0);
    assert(links[f] == links[i]);
}

/// Merging an unchanged document again changes nothing: once the link
/// index maps each entry's link to the id the first merge gave it, a
/// second merge gives every entry the same id again, takes no new id,
/// whatever the counter then stands at, and writes the same link index
/// entries and feed-membership entries as the first.
pub proof fn lemma_reingest_same_ids(links: Seq<Seq<char>>, stored: Seq<Option<u32>>, first: nat, second_first: nat)
    requires
        stored.len() == links.len(),
    ensures
        ({
            let ids = item_ids(links, stored, first);
            let restored = ids.map_values(|id: u32| Some(id));
            item_ids(links, restored, second_first) == ids
                && fresh_count(links, restored, links.len() as int) == 0
        }),
{
    let ids = item_ids(links, stored, first);
    let restored = ids.map_values(|id: u32| Some(id));
    assert forall|i: int| 0 <= i < links.len() implies
        #[trigger] item_id(links, restored, second_first, i) == ids[i] by {
        lemma_same_link_same_id(links, stored, first, i);
        lemma_same_link_same_id(links, restored, second_first, i);
        let f = first_index(links, links[i], 0);
        lemma_first_index_bound(links, links[i], 0, i);
        assert(restored[f] == Some(ids[f]));
    }
    assert(item_ids(links, restored, second_first) =~= ids);
    lemma_no_fresh(links, restored, links.len() as int);
}

proof fn lemma_no_fresh(links: Seq<Seq<char>>, stored: Seq<Option<u32>>, n: int)
    requires
        n <= stored.len(),
        forall|i: int| 0 <= i < stored.len() ==> #[trigger] stored[i] is Some,
    ensures
        fresh_count(links, stored, n) == 0,
    decreases n,
{
    if n > 0 {
        lemma_no_fresh(links, stored, n - 1);
    }
}

/// The feed-membership writes for the entries `pairs` (item id, timestamp)
/// of feed `feed`, in order.
pub open spec fn membership_writes(feed: u32, pairs: Seq<(u32, i64)>) -> Seq<(Seq<u8>, Seq<u8>)> {
    pairs.map_values(|p: (u32, i64)| (pair_key(feed, p.0), ts_bytes(p.1)))
}

/// A sorted index after inserting or overwriting `ws` in order.
pub open spec fn upsert_all(m: Map<Seq<u8>, Seq<u8>>, ws: Seq<(Seq<u8>, Seq<u8>)>) -> Map<Seq<u8>, Seq<u8>>
    decreases ws.len(),
{
    if ws.len() == 0 {
        m
    } else {
        upsert_all(m, ws.drop_last()).insert(ws.last().0, ws.last().1)
    }
}

/// Two indexes hold the same at key `k`.
pub open spec fn agree_at(a: Map<Seq<u8>, Seq<u8>>, b: Map<Seq<u8>, Seq<u8>>, k: Seq<u8>) -> bool {
    a.contains_key(k) == b.contains_key(k) && (a.contains_key(k) ==> a[k] == b[k])
}

/// What writing `ws` leaves at key `k`: the last write to `k`, if any.
pub open spec fn last_write(ws: Seq<(Seq<u8>, Seq<u8>)>, k: Seq<u8>) -> Option<Seq<u8>>
    decreases ws.len(),
{
    if ws.len() == 0 {
        None
    } else if ws.last().0 == k {
        Some(ws.last().1)
    } else {
        last_write(ws.drop_last(), k)
    }
}

proof fn lemma_upsert_at(m: Map<Seq<u8>, Seq<u8>>, ws: Seq<(Seq<u8>, Seq<u8>)>, k: Seq<u8>)
    ensures
        last_write(ws, k) matches Some(v) ==> upsert_all(m, ws).contains_key(k) && upsert_all(m, ws)[k] == v,
        last_write(ws, k) is None ==> agree_at(upsert_all(m, ws), m, k),
    decreases ws.len(),
{
    if ws.len() > 0 {
        lemma_upsert_at(m, ws.drop_last(), k);
    }
}

/// Writing the same entries twice leaves the index as writing them once.
pub proof fn lemma_upsert_idempotent(m: Map<Seq<u8>, Seq<u8>>, ws: Seq<(Seq<u8>, Seq<u8>)>)
    ensures
        upsert_all(upsert_all(m, ws), ws) == upsert_all(m, ws),
{
    let once = upsert_all(m, ws);
    let twice = upsert_all(once, ws);
    assert forall|k: Seq<u8>| #[trigger] twice.contains_key(k) == once.contains_key(k)
        && (once.contains_key(k) ==> twice[k] == once[k]) by {
        lemma_upsert_at(m, ws, k);
        lemma_upsert_at(once, ws, k);
    }
    assert(twice =~= once);
}

/// An unchanged document merged twice: the second merge gives the same
/// ids, and its feed-membership writes leave the index as the first left
/// it.
pub proof fn lemma_reingest_idempotent(
    mem: Map<Seq<u8>, Seq<u8>>,
    feed: u32,
    links: Seq<Seq<char>>,
    stamps: Seq<i64>,
    stored: Seq<Option<u32>>,
    first: nat,
    second_first: nat,
)
    requires
        stored.len() == links.len(),
        stamps.len() == links.len(),
    ensures
        ({
            let ids = item_ids(links, stored, first);
            let restored = ids.map_values(|id: u32| Some(id));
            let pairs = Seq::new(links.len(), |i: int| (ids[i], stamps[i]));
            let again = Seq::new(links.len(), |i: int| (item_ids(links, restored, second_first)[i], stamps[i]));
            let after_once = upsert_all(mem, membership_writes(feed, pairs));
            upsert_all(after_once, membership_writes(feed, again)) == after_once
        }),
{
    lemma_reingest_same_ids(links, stored, first, second_first);
    let ids = item_ids(links, stored, first);
    let pairs = Seq::new(links.len(), |i: int| (ids[i], stamps[i]));
    let restored = ids.map_values(|id: u32| Some(id));
    let again = Seq::new(links.len(), |i: int| (item_ids(links, restored, second_first)[i], stamps[i]));
    assert(again =~= pairs);
    lemma_upsert_idempotent(mem, membership_writes(feed, pairs));
}

/// What to do with a feed's error record.
pub enum ErrorWrite {
    /// Remove the record under this key.
    Clear(Vec<u8>),
    /// Write this message under this key.
    Record(Vec<u8>, Vec<u8>),
}

/// The store writes that one refresh of a feed makes.
pub struct RefreshWrites {
    /// Feed-membership entries to insert or overwrite, in order.
    pub feed_items: Vec<(Vec<u8>, Vec<u8>)>,
    pub error: ErrorWrite,
}

/// The outcome of a refresh: the entries merged (item id, timestamp), or
/// the failure message.
pub type Outcome = Result<Vec<(u32, i64)>, Vec<u8>>;

/// The mathematical form of an outcome.
pub open spec fn outcome_view(o: Outcome) -> Result<Seq<(u32, i64)>, Seq<u8>> {
    match o {
        Ok(p) => Ok(p@),
        Err(m) => Err(m@),
    }
}

/// Whether `w` are the writes for the refresh of `feed` that ended in
/// `outcome`: on success the membership entries of the merged items and
/// the removal of the error record; on failure only the error record, and
/// the membership index left alone.
pub open spec fn writes_for(w: RefreshWrites, feed: u32, outcome: Result<Seq<(u32, i64)>, Seq<u8>>) -> bool {
    match outcome {
        Ok(pairs) => w.feed_items@.map_values(|p: (Vec<u8>, Vec<u8>)| (p.0@, p.1@)) == membership_writes(feed, pairs)
            && (w.error matches ErrorWrite::Clear(k) && k@ == u32_key(feed)),
        Err(msg) => w.feed_items@.len() == 0
            && (w.error matches ErrorWrite::Record(k, m) && k@ == u32_key(feed) && m@ == msg),
    }
}

/// The writes for a refresh of `feed` that ended in `outcome`.
pub fn refresh_writes(feed: u32, outcome: &Outcome) -> (r: RefreshWrites)
    ensures
        writes_for(r, feed, outcome_view(*outcome)),
{
    match outcome {
        Ok(pairs) => {
            let mut items: Vec<(Vec<u8>, Vec<u8>)> = Vec::new();
            let mut i: usize = 0;
            while i < pairs.len()
                invariant
                    i <= pairs@.len(),
                    items@.len() == i,
                    forall|j: int| 0 <= j < i ==> (#[trigger] items@[j]).0@ == pair_key(feed, pairs@[j].0)
                        && items@[j].1@ == ts_bytes(pairs@[j].1),
                decreases pairs@.len() - i,
            {
                let (item, ts) = pairs[i];
                items.push((pair_to_key(feed, item), i64_to_bytes(ts)));
                i = i + 1;
            }
            let r = RefreshWrites { feed_items: items, error: ErrorWrite::Clear(u32_to_bytes(feed)) };
            proof {
                assert(r.feed_items@.map_values(|p: (Vec<u8>, Vec<u8>)| (p.0@, p.1@)) =~= membership_writes(feed, pairs@));
            }
            r
        },
        Err(msg) => {
            let m = copy_range(msg.as_slice(), 0, msg.len());
            proof {
                assert(msg@.subrange(0, msg@.len() as int) =~= msg@);
            }
            RefreshWrites { feed_items: Vec::new(), error: ErrorWrite::Record(u32_to_bytes(feed), m) }
        },
    }
}

/// The writes for a batch of refreshes, one feed each, whose outcomes are
/// `results`; each feed's writes follow from its own outcome alone.
pub fn refresh_batch(results: &Vec<(u32, Outcome)>) -> (r: Vec<RefreshWrites>)
    ensures
        r@.len() == results@.len(),
        forall|i: int| 0 <= i < results@.len() ==> writes_for(#[trigger] r@[i], results@[i].0, outcome_view(results@[i].1)),
{
    let mut out: Vec<RefreshWrites> = Vec::new();
    let mut i: usize = 0;
    while i < results.len()
        invariant
            i <= results@.len(),
            out@.len() == i,
            forall|j: int| 0 <= j < i ==> writes_for(#[trigger] out@[j], results@[j].0, outcome_view(results@[j].1)),
        decreases results@.len() - i,
    {
        out.push(refresh_writes(results[i].0, &results[i].1));
        i = i + 1;
    }
    out
}

/// The membership index and the error records after one refresh.
pub open spec fn after_refresh(
    mem: Map<Seq<u8>, Seq<u8>>,
    errs: Map<Seq<u8>, Seq<u8>>,
    feed: u32,
    outcome: Result<Seq<(u32, i64)>, Seq<u8>>,
) -> (Map<Seq<u8>, Seq<u8>>, Map<Seq<u8>, Seq<u8>>) {
    match outcome {
        Ok(pairs) => (upsert_all(mem, membership_writes(feed, pairs)), errs.remove(u32_key(feed))),
        Err(msg) => (mem, errs.insert(u32_key(feed), msg)),
    }
}

/// The membership index and the error records after a batch of refreshes,
/// applied in order.
pub open spec fn after_batch(
    mem: Map<Seq<u8>, Seq<u8>>,
    errs: Map<Seq<u8>, Seq<u8>>,
    batch: Seq<(u32, Result<Seq<(u32, i64)>, Seq<u8>>)>,
) -> (Map<Seq<u8>, Seq<u8>>, Map<Seq<u8>, Seq<u8>>)
    decreases batch.len(),
{
    if batch.len() == 0 {
        (mem, errs)
    } else {
        let s = after_batch(mem, errs, batch.drop_last());
        after_refresh(s.0, s.1, batch.last().0, batch.last().1)
    }
}

/// Whether `k` is a key of the entries of feed `feed`.
pub open spec fn of_feed(k: Seq<u8>, feed: u32) -> bool {
    k.len() >= 4 && k.subrange(0, 4) == u32_key(feed)
}

/// Two states agree on everything of feed `feed`.
pub open spec fn agree_on_feed(
    a_mem: Map<Seq<u8>, Seq<u8>>,
    a_errs: Map<Seq<u8>, Seq<u8>>,
    b_mem: Map<Seq<u8>, Seq<u8>>,
    b_errs: Map<Seq<u8>, Seq<u8>>,
    feed: u32,
) -> bool {
    (forall|k: Seq<u8>| of_feed(k, feed) ==> #[trigger] agree_at(a_mem, b_mem, k))
        && agree_at(a_errs, b_errs, u32_key(feed))
}

/// A refresh of feed `g` leaves everything of another feed `f` alone.
proof fn lemma_refresh_frame(
    mem: Map<Seq<u8>, Seq<u8>>,
    errs: Map<Seq<u8>, Seq<u8>>,
    g: u32,
    outcome: Result<Seq<(u32, i64)>, Seq<u8>>,
    f: u32,
)
    requires
        g != f,
    ensures
        agree_on_feed(after_refresh(mem, errs, g, outcome).0, after_refresh(mem, errs, g, outcome).1, mem, errs, f),
{
    if u32_key(g) == u32_key(f) {
        crate::codec::lemma_u32_key_injective(g, f);
    }
    match outcome {
        Ok(pairs) => {
            let ws = membership_writes(g, pairs);
            assert forall|k: Seq<u8>| of_feed(k, f) implies #[trigger] agree_at(upsert_all(mem, ws), mem, k) by {
                lemma_no_write_to(ws, g, pairs, k, f);
                lemma_upsert_at(mem, ws, k);
            }
        },
        Err(_) => {},
    }
}

proof fn lemma_no_write_to(ws: Seq<(Seq<u8>, Seq<u8>)>, g: u32, pairs: Seq<(u32, i64)>, k: Seq<u8>, f: u32)
    requires
        ws == membership_writes(g, pairs),
        of_feed(k, f),
        g != f,
    ensures
        last_write(ws, k) is None,
    decreases pairs.len(),
{
    if pairs.len() > 0 {
        let p = pairs.drop_last();
        assert(ws.drop_last() =~= membership_writes(g, p));
        lemma_no_write_to(ws.drop_last(), g, p, k, f);
        crate::codec::lemma_be_bytes_len(g as nat, 4);
        let wk = ws.last().0;
        assert(wk.subrange(0, 4) =~= u32_key(g));
        if wk == k {
            crate::codec::lemma_u32_key_injective(g, f);
        }
    }
}

proof fn lemma_agree_upsert(a: Map<Seq<u8>, Seq<u8>>, b: Map<Seq<u8>, Seq<u8>>, ws: Seq<(Seq<u8>, Seq<u8>)>, k: Seq<u8>)
    requires
        agree_at(a, b, k),
    ensures
        agree_at(upsert_all(a, ws), upsert_all(b, ws), k),
{
    lemma_upsert_at(a, ws, k);
    lemma_upsert_at(b, ws, k);
}

/// Refreshes of other feeds, in any number, leave feed `f` alone.
proof fn lemma_batch_frame(
    mem: Map<Seq<u8>, Seq<u8>>,
    errs: Map<Seq<u8>, Seq<u8>>,
    batch: Seq<(u32, Result<Seq<(u32, i64)>, Seq<u8>>)>,
    f: u32,
)
    requires
        forall|j: int| 0 <= j < batch.len() ==> (#[trigger] batch[j]).0 != f,
    ensures
        agree_on_feed(after_batch(mem, errs, batch).0, after_batch(mem, errs, batch).1, mem, errs, f),
    decreases batch.len(),
{
    if batch.len() > 0 {
        let p = batch.drop_last();
        lemma_batch_frame(mem, errs, p, f);
        let s = after_batch(mem, errs, p);
        let t = after_batch(mem, errs, batch);
        lemma_refresh_frame(s.0, s.1, batch.last().0, batch.last().1, f);
        assert forall|k: Seq<u8>| of_feed(k, f) implies #[trigger] agree_at(t.0, mem, k) by {
            assert(agree_at(t.0, s.0, k));
            assert(agree_at(s.0, mem, k));
        }
    }
}

proof fn lemma_batch_split(
    mem: Map<Seq<u8>, Seq<u8>>,
    errs: Map<Seq<u8>, Seq<u8>>,
    a: Seq<(u32, Result<Seq<(u32, i64)>, Seq<u8>>)>,
    b: Seq<(u32, Result<Seq<(u32, i64)>, Seq<u8>>)>,
)
    ensures
        ({
            let s = after_batch(mem, errs, a);
            after_batch(mem, errs, a + b) == after_batch(s.0, s.1, b)
        }),
    decreases b.len(),
{
    if b.len() == 0 {
        assert(a + b =~= a);
    } else {
        lemma_batch_split(mem, errs, a, b.drop_last());
        assert((a + b).drop_last() =~= a + b.drop_last());
    }
}

/// In a batch of refreshes of distinct feeds, one feed's outcome decides
/// that feed's state alone: after a success its error record is gone and
/// its membership entries are those of the old index with its merged
/// items written over them; after a failure its error record holds the
/// message and its membership entries are as before the batch.
pub proof fn lemma_batch_isolates_failures(
    mem: Map<Seq<u8>, Seq<u8>>,
    errs: Map<Seq<u8>, Seq<u8>>,
    batch: Seq<(u32, Result<Seq<(u32, i64)>, Seq<u8>>)>,
    i: int,
)
    requires
        0 <= i < batch.len(),
        forall|j: int| 0 <= j < batch.len() && j != i ==> (#[trigger] batch[j]).0 != batch[i].0,
    ensures
        ({
            let s = after_batch(mem, errs, batch);
            let f = batch[i].0;
            &&& batch[i].1 matches Ok(pairs) ==> !s.1.contains_key(u32_key(f))
                && forall|k: Seq<u8>| of_feed(k, f) ==> #[trigger] agree_at(s.0,
                    upsert_all(mem, membership_writes(f, pairs)), k)
            &&& batch[i].1 matches Err(msg) ==> s.1.contains_key(u32_key(f)) && s.1[u32_key(f)] == msg
                && forall|k: Seq<u8>| of_feed(k, f) ==> #[trigger] agree_at(s.0, mem, k)
        }),
{
    let f = batch[i].0;
    let before = batch.subrange(0, i);
    let rest = batch.subrange(i + 1, batch.len() as int);
    let mid = before.push(batch[i]);
    assert(batch =~= mid + rest);
    assert(mid.drop_last() =~= before);
    lemma_batch_split(mem, errs, mid, rest);
    assert forall|j: int| 0 <= j < before.len() implies (#[trigger] before[j]).0 != f by {
        assert(before[j] == batch[j]);
    }
    assert forall|j: int| 0 <= j < rest.len() implies (#[trigger] rest[j]).0 != f by {
        assert(rest[j] == batch[i + 1 + j]);
    }
    lemma_batch_frame(mem, errs, before, f);
    let s0 = after_batch(mem, errs, before);
    let s1 = after_batch(mem, errs, mid);
    lemma_batch_frame(s1.0, s1.1, rest, f);
    let s = after_batch(mem, errs, batch);
    let t = after_batch(s1.0, s1.1, rest);
    assert(s == t);
    assert(agree_at(t.1, s1.1, u32_key(f)));
    match batch[i].1 {
        Ok(pairs) => {
            let target = upsert_all(mem, membership_writes(f, pairs));
            assert forall|k: Seq<u8>| of_feed(k, f) implies #[trigger] agree_at(s.0, target, k) by {
                assert(agree_at(s0.0, mem, k));
                lemma_agree_upsert(s0.0, mem, membership_writes(f, pairs), k);
                assert(agree_at(t.0, s1.0, k));
            }
        },
        Err(msg) => {
            assert forall|k: Seq<u8>| of_feed(k, f) implies #[trigger] agree_at(s.0, mem, k) by {
                assert(agree_at(s0.0, mem, k));
                assert(agree_at(t.0, s1.0, k));
            }
        },
    }
}

/// Whether the merged items name distinct ids.
pub open spec fn distinct_ids(pairs: Seq<(u32, i64)>) -> bool {
    forall|i: int, j: int| 0 <= i < pairs.len() && 0 <= j < pairs.len() && i != j ==> pairs[i].0 != pairs[j].0
}

proof fn lemma_writes_reach(feed: u32, pairs: Seq<(u32, i64)>, k: int)
    requires
        0 <= k < pairs.len(),
    ensures
        last_write(membership_writes(feed, pairs), pair_key(feed, pairs[k].0)) is Some,
        distinct_ids(pairs) ==> last_write(membership_writes(feed, pairs), pair_key(feed, pairs[k].0))
            == Some(ts_bytes(pairs[k].1)),
    decreases pairs.len(),
{
    let ws = membership_writes(feed, pairs);
    let p = pairs.drop_last();
    assert(ws.drop_last() =~= membership_writes(feed, p));
    if k < pairs.len() - 1 {
        lemma_writes_reach(feed, p, k);
        if distinct_ids(pairs) {
            assert(distinct_ids(p)) by {
                assert forall|i: int, j: int| 0 <= i < p.len() && 0 <= j < p.len() && i != j implies p[i].0 != p[j].0 by {
                    assert(p[i] == pairs[i] && p[j] == pairs[j]);
                }
            }
            if ws.last().0 == pair_key(feed, pairs[k].0) {
                crate::codec::lemma_pair_key_injective(feed, pairs[pairs.len() - 1].0, feed, pairs[k].0);
            }
        }
    }
}

/// After a batch of refreshes of distinct feeds, each item that a
/// successful refresh of feed `f` merged has its membership entry; when
/// the merged ids are distinct, the entry holds that item's timestamp.
pub proof fn lemma_batch_success_entries(
    mem: Map<Seq<u8>, Seq<u8>>,
    errs: Map<Seq<u8>, Seq<u8>>,
    batch: Seq<(u32, Result<Seq<(u32, i64)>, Seq<u8>>)>,
    i: int,
    k: int,
)
    requires
        0 <= i < batch.len(),
        forall|j: int| 0 <= j < batch.len() && j != i ==> (#[trigger] batch[j]).0 != batch[i].0,
        batch[i].1 is Ok,
        0 <= k < batch[i].1->Ok_0.len(),
    ensures
        ({
            let m = after_batch(mem, errs, batch).0;
            let f = batch[i].0;
            let pairs = batch[i].1->Ok_0;
            &&& m.contains_key(pair_key(f, pairs[k].0))
            &&& distinct_ids(pairs) ==> m[pair_key(f, pairs[k].0)] == ts_bytes(pairs[k].1)
        }),
{
    let f = batch[i].0;
    let pairs = batch[i].1->Ok_0;
    let key = pair_key(f, pairs[k].0);
    lemma_batch_isolates_failures(mem, errs, batch, i);
    crate::codec::lemma_be_bytes_len(f as nat, 4);
    crate::codec::lemma_be_bytes_len(pairs[k].0 as nat, 4);
    assert(key.subrange(0, 4) =~= u32_key(f));
    assert(of_feed(key, f));
    let ws = membership_writes(f, pairs);
    lemma_writes_reach(f, pairs, k);
    lemma_upsert_at(mem, ws, key);
    assert(agree_at(after_batch(mem, errs, batch).0, upsert_all(mem, ws), key));
}

} // verus!
