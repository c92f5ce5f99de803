//! Subscription index: a user's feeds, grouped by folder, under keys of
//! user id, folder name and feed id.
use vstd::prelude::*;
use crate::codec::{u32_key, folder_key, key_feed, folder_to_key, copy_range, u32_to_bytes};
use crate::error::AppError;
use crate::text::str_eq;
use vstd::string::StrSliceExecFns;

verus! {

/// Longest url or folder name a subscription form may carry, in characters.
pub const MAX_FORM_FIELD: usize = 256;

/// Checks the fields of a subscription form: url, chosen folder and new
/// folder name each hold at most `MAX_FORM_FIELD` characters.
pub fn validate_feed_form(url: &str, folder: &str, new_folder: &str) -> (r: Result<(), AppError>)
    ensures
        r is Ok <==> (url@.len() <= MAX_FORM_FIELD && folder@.len() <= MAX_FORM_FIELD
            && new_folder@.len() <= MAX_FORM_FIELD),
        r is Err ==> r == Err::<(), AppError>(AppError::ValidationFailure),
{
    if url.unicode_len() > MAX_FORM_FIELD || folder.unicode_len() > MAX_FORM_FIELD
        || new_folder.unicode_len() > MAX_FORM_FIELD {
        Err(AppError::ValidationFailure)
    } else {
        Ok(())
    }
}

/// The folder a subscription goes to: the chosen folder, or for the choice
/// "New" the new folder's name, or "Default" when that name is empty.
pub open spec fn chosen_folder(folder: Seq<char>, new_folder: Seq<char>) -> Seq<char> {
    if folder != "New"@ {
        folder
    } else if new_folder.len() > 0 {
        new_folder
    } else {
        "Default"@
    }
}

/// Picks the folder a subscription goes to.
pub fn choose_folder(folder: &str, new_folder: &str) -> (r: String)
    ensures
        r@ == chosen_folder(folder@, new_folder@),
{
    proof {
        reveal_strlit("New");
        reveal_strlit("Default");
    }
    if !str_eq(folder, "New") {
        folder.to_owned()
    } else if new_folder.unicode_len() > 0 {
        new_folder.to_owned()
    } else {
        "Default".to_owned()
    }
}

/// Whether `k` is a subscription key that ends in feed `feed`.
pub open spec fn ends_with_feed(k: Seq<u8>, feed: u32) -> bool {
    k.len() >= 8 && key_feed(k) == u32_key(feed)
}

/// Whether `k` is a subscription key of `user` to `feed`.
pub open spec fn is_subscription(k: Seq<u8>, user: u32, feed: u32) -> bool {
    ends_with_feed(k, feed) && k.subrange(0, 4) == u32_key(user)
}

/// The keys among `scanned` that end in feed `feed`, in order.
pub open spec fn keys_of_feed(scanned: Seq<Vec<u8>>, feed: u32) -> Seq<Seq<u8>>
    decreases scanned.len(),
{
    if scanned.len() == 0 {
        seq![]
    } else {
        let rest = keys_of_feed(scanned.drop_last(), feed);
        if ends_with_feed(scanned.last()@, feed) {
            rest.push(scanned.last()@)
        } else {
            rest
        }
    }
}

/// A key is among `keys_of_feed` exactly when it is one of the scanned
/// keys and ends in the feed.
pub proof fn lemma_keys_of_feed(scanned: Seq<Vec<u8>>, feed: u32, k: Seq<u8>)
    ensures
        keys_of_feed(scanned, feed).contains(k) <==> (ends_with_feed(k, feed)
            && exists|j: int| 0 <= j < scanned.len() && #[trigger] scanned[j]@ == k),
    decreases scanned.len(),
{
    if scanned.len() > 0 {
        let p = scanned.drop_last();
        lemma_keys_of_feed(p, feed, k);
        if exists|j: int| 0 <= j < scanned.len() && #[trigger] scanned[j]@ == k {
            let j = choose|j: int| 0 <= j < scanned.len() && #[trigger] scanned[j]@ == k;
            if j < p.len() {
                assert(p[j]@ == k);
            }
        }
        if exists|j: int| 0 <= j < p.len() && #[trigger] p[j]@ == k {
            let j = choose|j: int| 0 <= j < p.len() && #[trigger] p[j]@ == k;
            assert(scanned[j]@ == k);
        }
        if ends_with_feed(scanned.last()@, feed) {
            assert(keys_of_feed(scanned, feed) == keys_of_feed(p, feed).push(scanned.last()@));
            let rest = keys_of_feed(p, feed);
            let all = keys_of_feed(scanned, feed);
            if all.contains(k) {
                let i = choose|i: int| 0 <= i < all.len() && all[i] == k;
                if i < rest.len() {
                    assert(rest[i] == k);
                }
            }
            if rest.contains(k) {
                let i = choose|i: int| 0 <= i < rest.len() && rest[i] == k;
                assert(all[i] == k);
            }
            if k == scanned.last()@ {
                assert(all[rest.len() as int] == k);
            }
        }
    }
}

/// The one-byte value of a subscription: 1 when the subscription is shown
/// to others, 0 when not.
pub open spec fn public_flag(is_public: bool) -> Seq<u8> {
    if is_public { seq![1u8] } else { seq![0u8] }
}

/// The writes that put `user`'s subscription to a feed in one folder.
pub struct FolderPlan {
    /// Keys to remove first: every earlier subscription of the user to the
    /// feed, whatever its folder.
    pub remove: Vec<Vec<u8>>,
    /// Key of the new subscription.
    pub key: Vec<u8>,
    /// Its value.
    pub value: Vec<u8>,
}

/// Plans a subscription of `user` to `feed` in `folder`; `scanned` holds
/// the keys that a prefix scan of the subscription index for `user`
/// returned. Removing the old entries before the insert moves a
/// subscription from one folder to another.
pub fn set_folder(user: u32, feed: u32, scanned: &Vec<Vec<u8>>, folder: &[u8], is_public: bool) -> (r: FolderPlan)
    ensures
        r.remove@.len() == keys_of_feed(scanned@, feed).len(),
        forall|i: int| 0 <= i < r.remove@.len() ==> #[trigger] r.remove@[i]@ == keys_of_feed(scanned@, feed)[i],
        r.key@ == folder_key(user, folder@, feed),
        r.value@ == public_flag(is_public),
{
    let feed_bytes = u32_to_bytes(feed);
    let mut remove: Vec<Vec<u8>> = Vec::new();
    let mut i: usize = 0;
    while i < scanned.len()
        invariant
            i <= scanned@.len(),
            feed_bytes@ == u32_key(feed),
            remove@.len() == keys_of_feed(scanned@.subrange(0, i as int), feed).len(),
            forall|j: int| 0 <= j < remove@.len() ==> #[trigger] remove@[j]@ == keys_of_feed(scanned@.subrange(0, i as int), feed)[j],
        decreases scanned@.len() - i,
    {
        let k = &scanned[i];
        proof {
            assert(scanned@.subrange(0, i as int + 1).drop_last() =~= scanned@.subrange(0, i as int));
        }
        if k.len() >= 8 {
            let n = k.len();
            let tail = copy_range(k.as_slice(), n - 4, n);
            if crate::codec::same_bytes(tail.as_slice(), feed_bytes.as_slice()) {
                remove.push(copy_range(k.as_slice(), 0, n));
                proof {
                    assert(k@.subrange(0, n as int) =~= k@);
                }
            }
        }
        i = i + 1;
    }
    proof {
        assert(scanned@.subrange(0, i as int) =~= scanned@);
    }
    let key = folder_to_key(user, folder, feed);
    let value: Vec<u8> = if is_public { vec![1u8] } else { vec![0u8] };
    proof {
        assert(value@ =~= public_flag(is_public));
    }
    FolderPlan { remove, key, value }
}

/// The keys of an index after removing `removed` and inserting `key`.
pub open spec fn after_move(tree: Set<Seq<u8>>, removed: Seq<Seq<u8>>, key: Seq<u8>) -> Set<Seq<u8>> {
    tree.filter(|k: Seq<u8>| !removed.contains(k)).insert(key)
}

/// Moving a subscription, or taking another user's (the plan in
/// `SubscribeAction::Copy`), leaves exactly one entry for the user and the
/// feed: when `scanned` is what a prefix scan for `user` returned from an
/// index with keys `tree`, applying the plan of `set_folder` leaves the
/// new key as the only subscription of `user` to `feed`.
pub proof fn lemma_move_leaves_one(tree: Set<Seq<u8>>, user: u32, feed: u32, scanned: Seq<Vec<u8>>, folder: Seq<u8>)
    requires
        forall|k: Seq<u8>| (tree.contains(k) && k.len() >= 4 && k.subrange(0, 4) == u32_key(user))
            ==> exists|j: int| 0 <= j < scanned.len() && #[trigger] scanned[j]@ == k,
    ensures
        after_move(tree, keys_of_feed(scanned, feed), folder_key(user, folder, feed)).filter(
            |k: Seq<u8>| is_subscription(k, user, feed))
            == set![folder_key(user, folder, feed)],
{
    let removed = keys_of_feed(scanned, feed);
    let key = folder_key(user, folder, feed);
    let after = after_move(tree, removed, key);
    crate::codec::lemma_be_bytes_len(user as nat, 4);
    crate::codec::lemma_be_bytes_len(feed as nat, 4);
    assert(key.subrange(0, 4) =~= u32_key(user));
    assert(key_feed(key) =~= u32_key(feed));
    assert forall|k: Seq<u8>| #[trigger] after.contains(k) && is_subscription(k, user, feed) implies k == key by {
        if k != key {
            assert(tree.contains(k) && !removed.contains(k));
            lemma_keys_of_feed(scanned, feed, k);
        }
    }
    assert(after.filter(|k: Seq<u8>| is_subscription(k, user, feed)) =~= set![key]);
}

/// What following a link to someone's subscription does.
pub enum SubscribeAction {
    /// The feed is not among the owner's subscriptions: nothing to do.
    Nothing,
    /// The owner unsubscribes: remove this key.
    Remove(Vec<u8>),
    /// Another user takes the subscription into the owner's folder: the
    /// user's earlier entries for the feed go, the new one comes.
    Copy(FolderPlan),
}

/// Index of the first of `scanned` that ends in `feed`.
pub open spec fn first_of_feed(scanned: Seq<Vec<u8>>, feed: u32, i: int) -> bool {
    0 <= i < scanned.len() && ends_with_feed(scanned[i]@, feed)
        && forall|j: int| 0 <= j < i ==> !ends_with_feed(#[trigger] scanned[j]@, feed)
}

/// Decides what `viewer` following the subscription of `owner` to `feed`
/// does; `scanned` holds the keys that a prefix scan of the subscription
/// index for `owner` returned, `viewer_scanned` those for `viewer`. The
/// owner unsubscribes; anyone else gets the subscription, shown to others,
/// in the owner's folder, in place of any subscription of theirs to the
/// feed, so that they keep one entry for it.
pub fn feed_subscribe(
    owner: u32,
    viewer: u32,
    feed: u32,
    scanned: &Vec<Vec<u8>>,
    viewer_scanned: &Vec<Vec<u8>>,
) -> (r: SubscribeAction)
    ensures
        r is Nothing <==> forall|j: int| 0 <= j < scanned@.len() ==> !ends_with_feed(#[trigger] scanned@[j]@, feed),
        r matches SubscribeAction::Remove(k) ==> owner == viewer
            && exists|i: int| first_of_feed(scanned@, feed, i) && scanned@[i]@ == k@,
        r matches SubscribeAction::Copy(p) ==> owner != viewer && p.value@ == public_flag(true)
            && p.remove@.len() == keys_of_feed(viewer_scanned@, feed).len()
            && (forall|j: int| 0 <= j < p.remove@.len() ==> #[trigger] p.remove@[j]@ == keys_of_feed(viewer_scanned@, feed)[j])
            && exists|i: int| first_of_feed(scanned@, feed, i)
                && p.key@ == folder_key(viewer, key_folder(scanned@[i]@), feed),
{
    let feed_bytes = u32_to_bytes(feed);
    let mut i: usize = 0;
    while i < scanned.len()
        invariant
            i <= scanned@.len(),
            feed_bytes@ == u32_key(feed),
            forall|j: int| 0 <= j < i ==> !ends_with_feed(#[trigger] scanned@[j]@, feed),
        decreases scanned@.len() - i,
    {
        let k = &scanned[i];
        if k.len() >= 8 {
            let n = k.len();
            let tail = copy_range(k.as_slice(), n - 4, n);
            if crate::codec::same_bytes(tail.as_slice(), feed_bytes.as_slice()) {
                proof {
                    assert(first_of_feed(scanned@, feed, i as int));
                }
                if owner == viewer {
                    return SubscribeAction::Remove(copy_range(k.as_slice(), 0, n));
                } else {
                    let folder = copy_range(k.as_slice(), 4, n - 4);
                    return SubscribeAction::Copy(set_folder(viewer, feed, viewer_scanned, folder.as_slice(), true));
                }
            }
        }
        i = i + 1;
    }
    SubscribeAction::Nothing
}

/// The folder name inside a subscription key.
pub open spec fn key_folder(k: Seq<u8>) -> Seq<u8> {
    k.subrange(4, k.len() - 4)
}

/// The feed id at the end of a subscription key.
pub open spec fn feed_of_key(k: Seq<u8>) -> u32 {
    choose|n: u32| u32_key(n) == key_feed(k)
}

/// The feeds that the subscription keys `keys` name, each once, in order
/// of first appearance; keys too short to be subscription keys are passed
/// over.
pub open spec fn distinct_feeds(keys: Seq<Vec<u8>>) -> Seq<u32>
    decreases keys.len(),
{
    if keys.len() == 0 {
        seq![]
    } else {
        let rest = distinct_feeds(keys.drop_last());
        let k = keys.last()@;
        if k.len() >= 8 && !rest.contains(feed_of_key(k)) {
            rest.push(feed_of_key(k))
        } else {
            rest
        }
    }
}

/// The feeds to refresh, each once: those that the subscription keys
/// `keys` name (all users' keys for the scheduled sweep, one user's for a
/// refresh of that user's page).
pub fn subscribed_feeds(keys: &Vec<Vec<u8>>) -> (r: Vec<u32>)
    ensures
        r@ == distinct_feeds(keys@),
        r@.no_duplicates(),
{
    let mut out: Vec<u32> = Vec::new();
    let mut i: usize = 0;
    while i < keys.len()
        invariant
            i <= keys@.len(),
            out@ == distinct_feeds(keys@.subrange(0, i as int)),
            out@.no_duplicates(),
        decreases keys@.len() - i,
    {
        let k = &keys[i];
        proof {
            assert(keys@.subrange(0, i as int + 1).drop_last() =~= keys@.subrange(0, i as int));
        }
        match crate::codec::key_to_folder(k.as_slice()) {
            Ok(parsed) => {
                proof {
                    crate::codec::lemma_be_bytes_len(parsed.feed as nat, 4);
                    assert(key_feed(k@) =~= u32_key(parsed.feed));
                    let c = feed_of_key(k@);
                    crate::codec::lemma_u32_key_injective(c, parsed.feed);
                }
                if !crate::feed_view::has_id(&out, parsed.feed) {
                    out.push(parsed.feed);
                }
            },
            Err(_) => {},
        }
        i = i + 1;
    }
    proof {
        assert(keys@.subrange(0, i as int) =~= keys@);
    }
    out
}

/// The folder names of the subscription keys `keys`, each once, in order
/// of first appearance; keys too short to be subscription keys are passed
/// over.
pub open spec fn distinct_folders(keys: Seq<Vec<u8>>) -> Seq<Seq<u8>>
    decreases keys.len(),
{
    if keys.len() == 0 {
        seq![]
    } else {
        let rest = distinct_folders(keys.drop_last());
        let k = keys.last()@;
        if k.len() >= 8 && !rest.contains(key_folder(k)) {
            rest.push(key_folder(k))
        } else {
            rest
        }
    }
}

/// The folders a user can add a feed to: those of the user's subscription
/// keys `keys`, or "Default" alone when there are none.
pub fn folder_names(keys: &Vec<Vec<u8>>) -> (r: Vec<Vec<u8>>)
    ensures
        distinct_folders(keys@).len() > 0 ==> r@.map_values(|v: Vec<u8>| v@) == distinct_folders(keys@),
        distinct_folders(keys@).len() == 0 ==> r@.map_values(|v: Vec<u8>| v@) == seq!["Default"@.map_values(|c: char| c as u8)],
{
    let mut out: Vec<Vec<u8>> = Vec::new();
    let mut i: usize = 0;
    while i < keys.len()
        invariant
            i <= keys@.len(),
            out@.map_values(|v: Vec<u8>| v@) == distinct_folders(keys@.subrange(0, i as int)),
        decreases keys@.len() - i,
    {
        let k = &keys[i];
        proof {
            assert(keys@.subrange(0, i as int + 1).drop_last() =~= keys@.subrange(0, i as int));
        }
        if k.len() >= 8 {
            let name = copy_range(k.as_slice(), 4, k.len() - 4);
            if !has_name(&out, &name) {
                let ghost before = out@;
                out.push(name);
                proof {
                    assert(out@.map_values(|v: Vec<u8>| v@) =~= before.map_values(|v: Vec<u8>| v@).push(name@));
                }
            }
        }
        i = i + 1;
    }
    proof {
        assert(keys@.subrange(0, i as int) =~= keys@);
    }
    if out.len() == 0 {
        let d: Vec<u8> = vec![68u8, 101u8, 102u8, 97u8, 117u8, 108u8, 116u8];
        proof {
            reveal_strlit("Default");
            assert(d@ =~= "Default"@.map_values(|c: char| c as u8));
        }
        out.push(d);
        proof {
            assert(out@.map_values(|v: Vec<u8>| v@) =~= seq!["Default"@.map_values(|c: char| c as u8)]);
        }
    }
    out
}

/// Whether `name` is among the names `names`.
pub(crate) fn has_name(names: &Vec<Vec<u8>>, name: &Vec<u8>) -> (r: bool)
    ensures
        r == names@.map_values(|v: Vec<u8>| v@).contains(name@),
{
    let ghost view = names@.map_values(|v: Vec<u8>| v@);
    let mut i: usize = 0;
    while i < names.len()
        invariant
            i <= names@.len(),
            view == names@.map_values(|v: Vec<u8>| v@),
            forall|j: int| 0 <= j < i ==> view[j] != name@,
        decreases names@.len() - i,
    {
        if crate::codec::same_bytes(names[i].as_slice(), name.as_slice()) {
            proof {
                assert(view[i as int] == name@);
            }
            return true;
        }
        i = i + 1;
    }
    false
}

} // verus!
