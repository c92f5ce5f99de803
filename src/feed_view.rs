//! The feed page: which subscriptions a reader sees, grouped by folder,
//! and which items fill the page, for each filter the page offers.
use vstd::prelude::*;
use crate::codec::{KeyError, folder_key, key_to_folder, key_to_pair, pair_key, bytes_to_i64, ts_bytes};
use crate::page::{ParamsPage, page_of, paginate};
use crate::text::{str_eq, parse_u32, is_numeral, digits_value, numeral_digits};
use vstd::string::StringSliceAdditionalSpecFns;

verus! {

/// A subscription as the feed page shows it.
pub struct Subscription {
    pub folder: Vec<u8>,
    pub feed: u32,
    /// Whether others who visit the page see it.
    pub is_public: bool,
}

/// Reads an entry of the subscription index of `user`: the key is user,
/// folder and feed; the value's first byte is 1 for a public subscription.
pub fn subscription_entry(user: u32, key: &[u8], value: &[u8]) -> (r: Result<Subscription, KeyError>)
    ensures
        (key@.len() >= 8 && key@.subrange(0, 4) == crate::codec::u32_key(user) && value@.len() >= 1) <==> r is Ok,
        r matches Ok(s) ==> folder_key(user, s.folder@, s.feed) == key@ && s.is_public == (value@[0] == 1),
{
    let k = key_to_folder(key)?;
    proof {
        crate::codec::lemma_be_bytes_len(k.user as nat, 4);
        crate::codec::lemma_be_bytes_len(user as nat, 4);
        assert(key@.subrange(0, 4) =~= crate::codec::u32_key(k.user));
        if key@.subrange(0, 4) == crate::codec::u32_key(user) {
            crate::codec::lemma_pow256_values();
            crate::codec::lemma_be_bytes_injective(k.user as nat, user as nat, 4);
        }
    }
    if k.user != user || value.len() < 1 {
        return Err(KeyError::BadLength);
    }
    Ok(Subscription { folder: k.folder, feed: k.feed, is_public: value[0] == 1 })
}

/// Whether `e` is an entry of an index keyed by `prefix` and a second id
/// and holding a timestamp.
pub open spec fn stamped_entry_ok(prefix: u32, e: (Vec<u8>, Vec<u8>)) -> bool {
    e.0@.len() == 8 && e.0@.subrange(0, 4) == crate::codec::u32_key(prefix) && e.1@.len() == 8
}

/// Reads the entries that a prefix scan for `prefix` returned from an
/// index keyed by two ids and holding a timestamp (feed membership, star
/// marks): the second id and the timestamp of each, in order.
pub fn get_item_ids_and_ts(prefix: u32, entries: &Vec<(Vec<u8>, Vec<u8>)>) -> (r: Result<Vec<(u32, i64)>, KeyError>)
    ensures
        r is Ok <==> forall|i: int| 0 <= i < entries@.len() ==> stamped_entry_ok(prefix, #[trigger] entries@[i]),
        r matches Ok(v) ==> v@.len() == entries@.len() && forall|i: int| 0 <= i < v@.len() ==>
            pair_key(prefix, #[trigger] v@[i].0) == entries@[i].0@ && ts_bytes(v@[i].1) == entries@[i].1@,
{
    let mut out: Vec<(u32, i64)> = Vec::new();
    let mut i: usize = 0;
    while i < entries.len()
        invariant
            i <= entries@.len(),
            out@.len() == i,
            forall|j: int| 0 <= j < i ==> stamped_entry_ok(prefix, #[trigger] entries@[j]),
            forall|j: int| 0 <= j < i ==>
                pair_key(prefix, #[trigger] out@[j].0) == entries@[j].0@ && ts_bytes(out@[j].1) == entries@[j].1@,
        decreases entries@.len() - i,
    {
        let (k, v) = &entries[i];
        let pair = key_to_pair(k.as_slice());
        let ts = bytes_to_i64(v.as_slice());
        proof {
            crate::codec::lemma_be_bytes_len(prefix as nat, 4);
        }
        match (pair, ts) {
            (Ok((a, item)), Ok(t)) => {
                proof {
                    crate::codec::lemma_be_bytes_len(a as nat, 4);
                    assert(k@.subrange(0, 4) =~= crate::codec::u32_key(a));
                    if k@.subrange(0, 4) == crate::codec::u32_key(prefix) {
                        crate::codec::lemma_pow256_values();
                        crate::codec::lemma_be_bytes_injective(a as nat, prefix as nat, 4);
                    }
                }
                if a != prefix {
                    return Err(KeyError::BadLength);
                }
                out.push((item, t));
            },
            _ => {
                return Err(KeyError::BadLength);
            },
        }
        i = i + 1;
    }
    Ok(out)
}

/// What the feed page lists and shows, as chosen by its query.
pub enum FeedFilter {
    /// Every subscription's items.
    All,
    /// The items of one feed; `None` when the feed id did not parse.
    Feed(Option<u32>),
    /// The items of the feeds in one folder.
    Folder(Vec<u8>),
    /// The reader's starred items of one feed.
    StarIn(Option<u32>),
    /// All of the reader's starred items.
    Star,
    /// The reader's unread items of one feed.
    UnreadIn(Option<u32>),
    /// The reader's unread items of every subscription.
    Unread,
}

/// The id that a query value names: the decimal numeral's value when it
/// fits in 32 bits.
pub open spec fn parsed_id(v: Seq<char>) -> Option<u32> {
    if is_numeral(v) && digits_value(numeral_digits(v)) <= u32::MAX {
        Some(digits_value(numeral_digits(v)) as u32)
    } else {
        None
    }
}

/// Whether the query's filter is `name`.
pub open spec fn query_is(filter: Option<&str>, name: Seq<char>) -> bool {
    filter matches Some(f) && f@ == name
}

impl FeedFilter {
    /// The filter that the page query `filter=..&filter_value=..` asks
    /// for: "feed", "folder", "star" and "unread" with a value, "star" and
    /// "unread" without; anything else shows everything.
    pub fn from_query(filter: Option<&str>, value: Option<&str>) -> (r: FeedFilter)
        ensures
            (query_is(filter, "feed"@) && value is Some) ==> r == FeedFilter::Feed(parsed_id(value->0@)),
            (query_is(filter, "folder"@) && value is Some) ==> (r matches FeedFilter::Folder(b)
                && b@ == value->0.spec_bytes()),
            (query_is(filter, "star"@) && value is Some) ==> r == FeedFilter::StarIn(parsed_id(value->0@)),
            (query_is(filter, "star"@) && value is None) ==> r is Star,
            (query_is(filter, "unread"@) && value is Some) ==> r == FeedFilter::UnreadIn(parsed_id(value->0@)),
            (query_is(filter, "unread"@) && value is None) ==> r is Unread,
            !(query_is(filter, "feed"@) && value is Some) && !(query_is(filter, "folder"@) && value is Some)
                && !query_is(filter, "star"@) && !query_is(filter, "unread"@) ==> r is All,
    {
        proof {
            reveal_strlit("feed");
            reveal_strlit("folder");
            reveal_strlit("star");
            reveal_strlit("unread");
            assert("star"@[0] != "feed"@[0]);
            assert("unread"@[0] != "folder"@[0]);
            assert("star"@ != "feed"@ && "star"@ != "folder"@);
            assert("unread"@ != "feed"@ && "unread"@ != "folder"@ && "unread"@ != "star"@);
            assert("folder"@.len() != "feed"@.len());
        }
        match filter {
            None => FeedFilter::All,
            Some(f) => {
                if str_eq(f, "feed") {
                    match value {
                        Some(v) => FeedFilter::Feed(parse_u32(v)),
                        None => FeedFilter::All,
                    }
                } else if str_eq(f, "folder") {
                    match value {
                        Some(v) => FeedFilter::Folder(crate::codec::copy_range(v.as_bytes(), 0, v.as_bytes().len())),
                        None => FeedFilter::All,
                    }
                } else if str_eq(f, "star") {
                    match value {
                        Some(v) => FeedFilter::StarIn(parse_u32(v)),
                        None => FeedFilter::Star,
                    }
                } else if str_eq(f, "unread") {
                    match value {
                        Some(v) => FeedFilter::UnreadIn(parse_u32(v)),
                        None => FeedFilter::Unread,
                    }
                } else {
                    FeedFilter::All
                }
            },
        }
    }
}

/// A listed subscription: its feed, whether the filter selects it, and
/// whether it is public.
#[derive(Clone, Copy, Debug, PartialEq, Eq, Structural)]
pub struct FeedRef {
    pub feed: u32,
    pub is_active: bool,
    pub is_public: bool,
}

/// The listing of a subscription under a filter: `None` when the page does
/// not list it. A visitor who is not the owner sees only public
/// subscriptions, and no listing at all under the star or unread filters
/// of one feed.
pub open spec fn listing(f: FeedFilter, s: Subscription, is_owner: bool, signed_in: bool) -> Option<FeedRef> {
    let shown = is_owner || s.is_public;
    match f {
        FeedFilter::All => if shown {
            Some(FeedRef { feed: s.feed, is_active: false, is_public: s.is_public })
        } else {
            None
        },
        FeedFilter::Feed(Some(id)) => if shown {
            Some(FeedRef { feed: s.feed, is_active: s.feed == id, is_public: s.is_public })
        } else {
            None
        },
        FeedFilter::Folder(name) => if shown {
            Some(FeedRef { feed: s.feed, is_active: s.folder@ == name@, is_public: s.is_public })
        } else {
            None
        },
        FeedFilter::StarIn(Some(id)) => if is_owner {
            Some(FeedRef { feed: s.feed, is_active: s.feed == id, is_public: s.is_public })
        } else {
            None
        },
        FeedFilter::UnreadIn(Some(id)) => if is_owner {
            Some(FeedRef { feed: s.feed, is_active: s.feed == id, is_public: s.is_public })
        } else {
            None
        },
        FeedFilter::Unread => if signed_in {
            Some(FeedRef { feed: s.feed, is_active: false, is_public: s.is_public })
        } else {
            None
        },
        _ => None,
    }
}

/// The listed subscriptions, with their folders, in index order.
pub open spec fn listed(f: FeedFilter, subs: Seq<Subscription>, is_owner: bool, signed_in: bool) -> Seq<(Seq<u8>, FeedRef)>
    decreases subs.len(),
{
    if subs.len() == 0 {
        seq![]
    } else {
        let rest = listed(f, subs.drop_last(), is_owner, signed_in);
        match listing(f, subs.last(), is_owner, signed_in) {
            Some(r) => rest.push((subs.last().folder@, r)),
            None => rest,
        }
    }
}

/// The listing of one subscription.
fn listing_of(f: &FeedFilter, s: &Subscription, is_owner: bool, signed_in: bool) -> (r: Option<FeedRef>)
    ensures
        r == listing(*f, *s, is_owner, signed_in),
{
    let shown = is_owner || s.is_public;
    match f {
        FeedFilter::All => if shown {
            Some(FeedRef { feed: s.feed, is_active: false, is_public: s.is_public })
        } else {
            None
        },
        FeedFilter::Feed(Some(id)) => if shown {
            Some(FeedRef { feed: s.feed, is_active: s.feed == *id, is_public: s.is_public })
        } else {
            None
        },
        FeedFilter::Folder(name) => if shown {
            let active = crate::codec::same_bytes(s.folder.as_slice(), name.as_slice());
            Some(FeedRef { feed: s.feed, is_active: active, is_public: s.is_public })
        } else {
            None
        },
        FeedFilter::StarIn(Some(id)) => if is_owner {
            Some(FeedRef { feed: s.feed, is_active: s.feed == *id, is_public: s.is_public })
        } else {
            None
        },
        FeedFilter::UnreadIn(Some(id)) => if is_owner {
            Some(FeedRef { feed: s.feed, is_active: s.feed == *id, is_public: s.is_public })
        } else {
            None
        },
        FeedFilter::Unread => if signed_in {
            Some(FeedRef { feed: s.feed, is_active: false, is_public: s.is_public })
        } else {
            None
        },
        _ => None,
    }
}

/// The view of a listing.
pub open spec fn listed_view(v: Seq<(Vec<u8>, FeedRef)>) -> Seq<(Seq<u8>, FeedRef)> {
    v.map_values(|p: (Vec<u8>, FeedRef)| (p.0@, p.1))
}

/// Lists the subscriptions the page shows under filter `f`.
pub fn list_feeds(f: &FeedFilter, subs: &Vec<Subscription>, is_owner: bool, signed_in: bool) -> (r: Vec<(Vec<u8>, FeedRef)>)
    ensures
        listed_view(r@) == listed(*f, subs@, is_owner, signed_in),
{
    let mut out: Vec<(Vec<u8>, FeedRef)> = Vec::new();
    let mut i: usize = 0;
    while i < subs.len()
        invariant
            i <= subs@.len(),
            listed_view(out@) == listed(*f, subs@.subrange(0, i as int), is_owner, signed_in),
        decreases subs@.len() - i,
    {
        let s = &subs[i];
        proof {
            assert(subs@.subrange(0, i as int + 1).drop_last() =~= subs@.subrange(0, i as int));
        }
        match listing_of(f, s, is_owner, signed_in) {
            Some(r) => {
                let folder = crate::codec::copy_range(s.folder.as_slice(), 0, s.folder.len());
                proof {
                    assert(s.folder@.subrange(0, s.folder@.len() as int) =~= s.folder@);
                }
                let ghost before = out@;
                out.push((folder, r));
                proof {
                    assert(listed_view(out@) =~= listed_view(before).push((s.folder@, r)));
                }
            },
            None => {},
        }
        i = i + 1;
    }
    proof {
        assert(subs@.subrange(0, i as int) =~= subs@);
    }
    out
}

/// The index, from `j` on, of the group of `folder` in `gs`, or
/// `gs.len()` when there is none.
pub open spec fn group_index(gs: Seq<(Seq<u8>, Seq<FeedRef>)>, folder: Seq<u8>, j: int) -> int
    decreases gs.len() - j,
{
    if j >= gs.len() || j < 0 || gs[j].0 == folder {
        j
    } else {
        group_index(gs, folder, j + 1)
    }
}

/// The listing grouped by folder: one group per folder, in the order in
/// which the folders first appear, each holding its feeds in order.
pub open spec fn grouped(l: Seq<(Seq<u8>, FeedRef)>) -> Seq<(Seq<u8>, Seq<FeedRef>)>
    decreases l.len(),
{
    if l.len() == 0 {
        seq![]
    } else {
        let gs = grouped(l.drop_last());
        let folder = l.last().0;
        let r = l.last().1;
        let i = group_index(gs, folder, 0);
        if 0 <= i < gs.len() {
            gs.update(i, (folder, gs[i].1.push(r)))
        } else {
            gs.push((folder, seq![r]))
        }
    }
}

/// The folders of a listing, each with its feeds.
pub struct FolderGroup {
    pub folder: Vec<u8>,
    pub feeds: Vec<FeedRef>,
}

/// The view of a grouping.
pub open spec fn groups_view(v: Seq<FolderGroup>) -> Seq<(Seq<u8>, Seq<FeedRef>)> {
    v.map_values(|g: FolderGroup| (g.folder@, g.feeds@))
}

/// The insertion-ordered map of indexmap, which groups a listing.
#[verifier::external_type_specification]
#[verifier::external_body]
#[verifier::reject_recursive_types(K)]
#[verifier::reject_recursive_types(V)]
#[verifier::reject_recursive_types(S)]
pub struct ExIndexMap<K, V, S>(indexmap::IndexMap<K, V, S>);

/// The folders of a grouping map with their feeds, in the map's order.
pub uninterp spec fn folder_groups(m: indexmap::IndexMap<Vec<u8>, Vec<FeedRef>>) -> Seq<(Seq<u8>, Seq<FeedRef>)>;

/// Relies on indexmap's `IndexMap::new`: a map with no entries.
#[verifier::external_body]
fn new_groups() -> (r: indexmap::IndexMap<Vec<u8>, Vec<FeedRef>>)
    ensures
        folder_groups(r) == Seq::<(Seq<u8>, Seq<FeedRef>)>::empty(),
{
    indexmap::IndexMap::new()
}

/// Relies on indexmap's `IndexMap::entry` and `Entry::or_default`: the
/// entry of a key already there keeps its place and gets `r` pushed onto
/// its value; a new key is appended last, with a value of `r` alone.
#[verifier::external_body]
fn add_to_group(m: &mut indexmap::IndexMap<Vec<u8>, Vec<FeedRef>>, folder: Vec<u8>, r: FeedRef)
    ensures
        ({
            let gs = folder_groups(*old(m));
            let i = group_index(gs, folder@, 0);
            folder_groups(*final(m)) == if 0 <= i < gs.len() {
                gs.update(i, (folder@, gs[i].1.push(r)))
            } else {
                gs.push((folder@, seq![r]))
            }
        }),
{
    m.entry(folder).or_default().push(r);
}

/// Relies on indexmap's `IntoIterator for IndexMap`: the entries in the
/// map's order.
#[verifier::external_body]
fn groups_in_order(m: indexmap::IndexMap<Vec<u8>, Vec<FeedRef>>) -> (r: Vec<FolderGroup>)
    ensures
        groups_view(r@) == folder_groups(m),
{
    m.into_iter().map(|(folder, feeds)| FolderGroup { folder, feeds }).collect()
}

/// Groups a listing by folder, folders in the order of first appearance.
pub fn group_by_folder(l: &Vec<(Vec<u8>, FeedRef)>) -> (r: Vec<FolderGroup>)
    ensures
        groups_view(r@) == grouped(listed_view(l@)),
{
    let mut m = new_groups();
    let mut i: usize = 0;
    while i < l.len()
        invariant
            i <= l@.len(),
            folder_groups(m) == grouped(listed_view(l@.subrange(0, i as int))),
        decreases l@.len() - i,
    {
        let folder = crate::codec::copy_range(l[i].0.as_slice(), 0, l[i].0.len());
        let r = l[i].1;
        proof {
            assert(l@[i as int].0@.subrange(0, l@[i as int].0@.len() as int) =~= l@[i as int].0@);
            assert(listed_view(l@.subrange(0, i as int + 1)).drop_last() =~= listed_view(l@.subrange(0, i as int)));
        }
        add_to_group(&mut m, folder, r);
        i = i + 1;
    }
    proof {
        assert(l@.subrange(0, i as int) =~= l@);
    }
    groups_in_order(m)
}

/// The items of feed `feed` in a table of each feed's items (the first
/// row for the feed counts); none when the table has no row for it.
pub open spec fn items_for(table: Seq<(u32, Vec<(u32, i64)>)>, feed: u32) -> Seq<(u32, i64)>
    decreases table.len(),
{
    if table.len() == 0 {
        seq![]
    } else if table[0].0 == feed {
        table[0].1@
    } else {
        items_for(table.drop_first(), feed)
    }
}

/// The items whose id is (`present`) or is not (`!present`) among `ids`,
/// in order.
pub open spec fn keep_by(items: Seq<(u32, i64)>, ids: Seq<u32>, present: bool) -> Seq<(u32, i64)>
    decreases items.len(),
{
    if items.len() == 0 {
        seq![]
    } else {
        let rest = keep_by(items.drop_last(), ids, present);
        if ids.contains(items.last().0) == present {
            rest.push(items.last())
        } else {
            rest
        }
    }
}

/// The ids of some items.
pub open spec fn ids_of(items: Seq<(u32, i64)>) -> Seq<u32> {
    items.map_values(|p: (u32, i64)| p.0)
}

/// What one subscription adds to the page's items under the filters that
/// gather items subscription by subscription.
pub open spec fn sub_items(
    f: FeedFilter,
    s: Subscription,
    table: Seq<(u32, Vec<(u32, i64)>)>,
    read: Seq<u32>,
    is_owner: bool,
    signed_in: bool,
) -> Seq<(u32, i64)> {
    let shown = is_owner || s.is_public;
    match f {
        FeedFilter::All => if shown { items_for(table, s.feed) } else { seq![] },
        FeedFilter::Feed(Some(id)) => if shown && s.feed == id { items_for(table, s.feed) } else { seq![] },
        FeedFilter::Folder(name) => if shown && s.folder@ == name@ { items_for(table, s.feed) } else { seq![] },
        FeedFilter::Unread => if signed_in { keep_by(items_for(table, s.feed), read, false) } else { seq![] },
        _ => seq![],
    }
}

/// The items gathered subscription by subscription, in index order.
pub open spec fn collected(
    f: FeedFilter,
    subs: Seq<Subscription>,
    table: Seq<(u32, Vec<(u32, i64)>)>,
    read: Seq<u32>,
    is_owner: bool,
    signed_in: bool,
) -> Seq<(u32, i64)>
    decreases subs.len(),
{
    if subs.len() == 0 {
        seq![]
    } else {
        collected(f, subs.drop_last(), table, read, is_owner, signed_in)
            + sub_items(f, subs.last(), table, read, is_owner, signed_in)
    }
}

/// Whether some subscription is to feed `feed`.
pub open spec fn has_feed(subs: Seq<Subscription>, feed: u32) -> bool {
    exists|i: int| 0 <= i < subs.len() && (#[trigger] subs[i]).feed == feed
}

/// The items the page draws from, before ordering: the reader's starred
/// items (of one feed, or all), the reader's unread items of one feed, or
/// what the subscriptions gather. The star and unread filters of one feed
/// give items only to the signed-in owner of the page, and only for a feed
/// the page lists.
pub open spec fn candidates(
    f: FeedFilter,
    subs: Seq<Subscription>,
    table: Seq<(u32, Vec<(u32, i64)>)>,
    star: Seq<(u32, i64)>,
    read: Seq<u32>,
    is_owner: bool,
    signed_in: bool,
) -> Seq<(u32, i64)> {
    match f {
        FeedFilter::StarIn(Some(id)) => if is_owner && signed_in && has_feed(subs, id) {
            keep_by(star, ids_of(items_for(table, id)), true)
        } else {
            seq![]
        },
        FeedFilter::Star => if signed_in { star } else { seq![] },
        FeedFilter::UnreadIn(Some(id)) => if is_owner && signed_in && has_feed(subs, id) {
            keep_by(items_for(table, id), read, false)
        } else {
            seq![]
        },
        _ => collected(f, subs, table, read, is_owner, signed_in),
    }
}

/// Looks up the items of feed `feed`.
fn lookup_items(table: &Vec<(u32, Vec<(u32, i64)>)>, feed: u32) -> (r: Vec<(u32, i64)>)
    ensures
        r@ == items_for(table@, feed),
{
    let mut j: usize = 0;
    proof {
        assert(table@.subrange(0, table@.len() as int) =~= table@);
    }
    while j < table.len()
        invariant
            j <= table@.len(),
            items_for(table@, feed) == items_for(table@.subrange(j as int, table@.len() as int), feed),
        decreases table@.len() - j,
    {
        proof {
            assert(table@.subrange(j as int, table@.len() as int).drop_first()
                =~= table@.subrange(j as int + 1, table@.len() as int));
        }
        if table[j].0 == feed {
            return copy_pairs(&table[j].1);
        }
        j = j + 1;
    }
    Vec::new()
}

/// A copy of a list of items.
fn copy_pairs(v: &Vec<(u32, i64)>) -> (r: Vec<(u32, i64)>)
    ensures
        r@ == v@,
{
    let mut out: Vec<(u32, i64)> = Vec::new();
    let mut i: usize = 0;
    while i < v.len()
        invariant
            i <= v@.len(),
            out@ == v@.subrange(0, i as int),
        decreases v@.len() - i,
    {
        out.push(v[i]);
        proof {
            assert(out@ =~= v@.subrange(0, i as int + 1));
        }
        i = i + 1;
    }
    proof {
        assert(v@.subrange(0, i as int) =~= v@);
    }
    out
}

/// Whether `id` is among `ids`.
pub(crate) fn has_id(ids: &Vec<u32>, id: u32) -> (r: bool)
    ensures
        r == ids@.contains(id),
{
    let mut i: usize = 0;
    while i < ids.len()
        invariant
            i <= ids@.len(),
            forall|j: int| 0 <= j < i ==> ids@[j] != id,
        decreases ids@.len() - i,
    {
        if ids[i] == id {
            proof {
                assert(ids@[i as int] == id);
            }
            return true;
        }
        i = i + 1;
    }
    false
}

/// Keeps the items whose id is (`present`) or is not (`!present`) among
/// `ids`.
pub fn retain_by(items: &Vec<(u32, i64)>, ids: &Vec<u32>, present: bool) -> (r: Vec<(u32, i64)>)
    ensures
        r@ == keep_by(items@, ids@, present),
{
    let mut out: Vec<(u32, i64)> = Vec::new();
    let mut i: usize = 0;
    while i < items.len()
        invariant
            i <= items@.len(),
            out@ == keep_by(items@.subrange(0, i as int), ids@, present),
        decreases items@.len() - i,
    {
        proof {
            assert(items@.subrange(0, i as int + 1).drop_last() =~= items@.subrange(0, i as int));
        }
        if has_id(ids, items[i].0) == present {
            out.push(items[i]);
        }
        i = i + 1;
    }
    proof {
        assert(items@.subrange(0, i as int) =~= items@);
    }
    out
}

/// The ids of some items.
fn item_ids_of(items: &Vec<(u32, i64)>) -> (r: Vec<u32>)
    ensures
        r@ == ids_of(items@),
{
    let mut out: Vec<u32> = Vec::new();
    let mut i: usize = 0;
    while i < items.len()
        invariant
            i <= items@.len(),
            out@ == ids_of(items@.subrange(0, i as int)),
        decreases items@.len() - i,
    {
        out.push(items[i].0);
        proof {
            assert(out@ =~= ids_of(items@.subrange(0, i as int + 1)));
        }
        i = i + 1;
    }
    proof {
        assert(items@.subrange(0, i as int) =~= items@);
    }
    out
}

/// Whether some subscription is to feed `feed`.
fn any_feed(subs: &Vec<Subscription>, feed: u32) -> (r: bool)
    ensures
        r == has_feed(subs@, feed),
{
    let mut i: usize = 0;
    while i < subs.len()
        invariant
            i <= subs@.len(),
            forall|j: int| 0 <= j < i ==> (#[trigger] subs@[j]).feed != feed,
        decreases subs@.len() - i,
    {
        if subs[i].feed == feed {
            return true;
        }
        i = i + 1;
    }
    false
}

/// Gathers the items the page draws from under filter `f`: `table` holds
/// each listed feed's items, `star` the reader's starred items and `read`
/// the ids of the items the reader has read.
pub fn collect_items(
    f: &FeedFilter,
    subs: &Vec<Subscription>,
    table: &Vec<(u32, Vec<(u32, i64)>)>,
    star: &Vec<(u32, i64)>,
    read: &Vec<u32>,
    is_owner: bool,
    signed_in: bool,
) -> (r: Vec<(u32, i64)>)
    ensures
        r@ == candidates(*f, subs@, table@, star@, read@, is_owner, signed_in),
{
    match f {
        FeedFilter::StarIn(Some(id)) => {
            if is_owner && signed_in && any_feed(subs, *id) {
                let in_feed = lookup_items(table, *id);
                let ids = item_ids_of(&in_feed);
                return retain_by(star, &ids, true);
            }
            return Vec::new();
        },
        FeedFilter::Star => {
            if signed_in {
                return copy_pairs(star);
            }
            return Vec::new();
        },
        FeedFilter::UnreadIn(Some(id)) => {
            if is_owner && signed_in && any_feed(subs, *id) {
                let in_feed = lookup_items(table, *id);
                return retain_by(&in_feed, read, false);
            }
            return Vec::new();
        },
        _ => {},
    }
    let mut out: Vec<(u32, i64)> = Vec::new();
    let mut i: usize = 0;
    while i < subs.len()
        invariant
            i <= subs@.len(),
            !(*f matches FeedFilter::StarIn(Some(_))),
            !(*f matches FeedFilter::UnreadIn(Some(_))),
            !(*f is Star),
            out@ == collected(*f, subs@.subrange(0, i as int), table@, read@, is_owner, signed_in),
        decreases subs@.len() - i,
    {
        let s = &subs[i];
        proof {
            assert(subs@.subrange(0, i as int + 1).drop_last() =~= subs@.subrange(0, i as int));
        }
        let shown = is_owner || s.is_public;
        let take: bool = match f {
            FeedFilter::All => shown,
            FeedFilter::Feed(Some(id)) => shown && s.feed == *id,
            FeedFilter::Folder(name) => shown && crate::codec::same_bytes(s.folder.as_slice(), name.as_slice()),
            FeedFilter::Unread => signed_in,
            _ => false,
        };
        if take {
            let items = lookup_items(table, s.feed);
            let mut add = match f {
                FeedFilter::Unread => retain_by(&items, read, false),
                _ => items,
            };
            out.append(&mut add);
        }
        i = i + 1;
    }
    proof {
        assert(subs@.subrange(0, i as int) =~= subs@);
    }
    out
}

/// Items in order of their timestamps, oldest first.
pub open spec fn sorted_by_ts(s: Seq<(u32, i64)>) -> bool {
    forall|i: int, j: int| 0 <= i < j < s.len() ==> s[i].1 <= s[j].1
}

/// `x` placed into `s` right after the last of the trailing items whose
/// timestamps are not later than its own.
pub open spec fn insert_by_ts(s: Seq<(u32, i64)>, x: (u32, i64)) -> Seq<(u32, i64)>
    decreases s.len(),
{
    if s.len() == 0 || s.last().1 <= x.1 {
        s.push(x)
    } else {
        insert_by_ts(s.drop_last(), x).push(s.last())
    }
}

/// Items ordered by timestamp, oldest first, items with equal timestamps
/// in their order in `s`.
pub open spec fn sort_ts(s: Seq<(u32, i64)>) -> Seq<(u32, i64)>
    decreases s.len(),
{
    if s.len() == 0 {
        s
    } else {
        insert_by_ts(sort_ts(s.drop_last()), s.last())
    }
}

proof fn lemma_insert_at(s: Seq<(u32, i64)>, x: (u32, i64), pos: int)
    requires
        0 <= pos <= s.len(),
        forall|k: int| pos <= k < s.len() ==> s[k].1 > x.1,
        pos == 0 || s[pos - 1].1 <= x.1,
    ensures
        insert_by_ts(s, x) == s.insert(pos, x),
    decreases s.len(),
{
    if pos == s.len() {
        assert(s.push(x) =~= s.insert(pos, x));
    } else {
        let p = s.drop_last();
        assert forall|k: int| pos <= k < p.len() implies p[k].1 > x.1 by {
            assert(p[k] == s[k]);
        }
        if pos > 0 {
            assert(p[pos - 1] == s[pos - 1]);
        }
        lemma_insert_at(p, x, pos);
        assert(p.insert(pos, x).push(s.last()) =~= s.insert(pos, x));
    }
}

/// Orders items by timestamp, oldest first; items with equal timestamps
/// keep their order.
pub fn sort_by_ts(v: &Vec<(u32, i64)>) -> (r: Vec<(u32, i64)>)
    ensures
        r@ == sort_ts(v@),
        sorted_by_ts(r@),
        r@.to_multiset() == v@.to_multiset(),
{
    broadcast use vstd::seq_lib::group_to_multiset_ensures;
    let mut out: Vec<(u32, i64)> = Vec::new();
    let mut i: usize = 0;
    while i < v.len()
        invariant
            i <= v@.len(),
            out@.len() == i,
            out@ == sort_ts(v@.subrange(0, i as int)),
            sorted_by_ts(out@),
            out@.to_multiset() == v@.subrange(0, i as int).to_multiset(),
        decreases v@.len() - i,
    {
        let x = v[i];
        let mut pos: usize = out.len();
        while pos > 0 && out[pos - 1].1 > x.1
            invariant
                pos <= out@.len(),
                sorted_by_ts(out@),
                forall|k: int| pos <= k < out@.len() ==> out@[k].1 > x.1,
            decreases pos,
        {
            pos = pos - 1;
        }
        let ghost before = out@;
        proof {
            lemma_insert_at(before, x, pos as int);
            assert(v@.subrange(0, i as int + 1).drop_last() =~= v@.subrange(0, i as int));
        }
        out.insert(pos, x);
        proof {
            assert(v@.subrange(0, i as int + 1) =~= v@.subrange(0, i as int).push(x));
            assert(out@ == before.insert(pos as int, x));
            vstd::seq_lib::to_multiset_insert(before, pos as int, x);
            vstd::seq_lib::to_multiset_build(v@.subrange(0, i as int), x);
            assert forall|a: int, b: int| 0 <= a < b < out@.len() implies out@[a].1 <= out@[b].1 by {
                if pos > 0 {
                    assert(before[pos - 1].1 <= x.1);
                }
            }
        }
        i = i + 1;
    }
    proof {
        assert(v@.subrange(0, i as int) =~= v@);
    }
    out
}

/// What the feed page shows: the listed subscriptions grouped by folder,
/// and the page of items.
pub struct FeedPage {
    pub groups: Vec<FolderGroup>,
    pub items: Vec<(u32, i64)>,
}

/// Builds the feed page under filter `f`: `subs` are the page owner's
/// subscriptions in index order, `table` each of their feeds' items,
/// `star` and `read` the reader's marks; `is_owner` tells whether the
/// reader owns the page and `signed_in` whether the reader is signed in.
/// The items are ordered by timestamp, items with equal timestamps in
/// the order gathered, then paged.
pub fn feed_view(
    f: &FeedFilter,
    subs: &Vec<Subscription>,
    table: &Vec<(u32, Vec<(u32, i64)>)>,
    star: &Vec<(u32, i64)>,
    read: &Vec<u32>,
    is_owner: bool,
    signed_in: bool,
    p: &ParamsPage,
) -> (r: FeedPage)
    ensures
        groups_view(r.groups@) == grouped(listed(*f, subs@, is_owner, signed_in)),
        r.items@ == page_of(sort_ts(candidates(*f, subs@, table@, star@, read@, is_owner, signed_in)), *p),
        sorted_by_ts(sort_ts(candidates(*f, subs@, table@, star@, read@, is_owner, signed_in))),
        sort_ts(candidates(*f, subs@, table@, star@, read@, is_owner, signed_in)).to_multiset()
            == candidates(*f, subs@, table@, star@, read@, is_owner, signed_in).to_multiset(),
{
    let listing = list_feeds(f, subs, is_owner, signed_in);
    let groups = group_by_folder(&listing);
    let items = collect_items(f, subs, table, star, read, is_owner, signed_in);
    let ordered = sort_by_ts(&items);
    let page = paginate(&ordered, p);
    FeedPage { groups, items: page }
}

} // verus!
