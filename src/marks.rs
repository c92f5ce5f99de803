//! Per-user marks on items: read and starred, keyed by user and item.
use vstd::prelude::*;
use crate::codec::{pair_key, ts_bytes, pair_to_key, i64_to_bytes};

verus! {

/// Relies on chrono's `From<SystemTime> for DateTime<Utc>` and
/// `DateTime::timestamp`: the current system time in whole seconds since
/// the Unix epoch, negative for a clock set before it.
#[verifier::external_body]
fn now_seconds() -> (r: i64) {
    chrono::DateTime::<chrono::Utc>::from(std::time::SystemTime::now()).timestamp()
}

/// A write to a mark index.
pub enum MarkWrite {
    Nothing,
    Remove(Vec<u8>),
    Insert(Vec<u8>, Vec<u8>),
}

/// The key and the value that mark item `item` read for `user`.
pub fn mark_read(user: u32, item: u32) -> (r: (Vec<u8>, Vec<u8>))
    ensures
        r.0@ == pair_key(user, item),
        r.1@.len() == 0,
{
    (pair_to_key(user, item), Vec::new())
}

/// The write that toggles the star of `user` on `item` at time `now`:
/// nothing for an item that does not exist, the removal of a star that is
/// there, or else a star stamped `now`.
pub fn star_write(user: u32, item: u32, item_exists: bool, starred: bool, now: i64) -> (r: MarkWrite)
    ensures
        !item_exists ==> r is Nothing,
        item_exists && starred ==> (r matches MarkWrite::Remove(k) && k@ == pair_key(user, item)),
        item_exists && !starred ==> (r matches MarkWrite::Insert(k, v) && k@ == pair_key(user, item)
            && v@ == ts_bytes(now)),
{
    if !item_exists {
        MarkWrite::Nothing
    } else if starred {
        MarkWrite::Remove(pair_to_key(user, item))
    } else {
        MarkWrite::Insert(pair_to_key(user, item), i64_to_bytes(now))
    }
}

/// Toggles the star of `user` on `item`, stamping a new star with the
/// current time.
pub fn toggle_star(user: u32, item: u32, item_exists: bool, starred: bool) -> (r: MarkWrite)
    ensures
        !item_exists ==> r is Nothing,
        item_exists && starred ==> (r matches MarkWrite::Remove(k) && k@ == pair_key(user, item)),
        item_exists && !starred ==> (r matches MarkWrite::Insert(k, v) && k@ == pair_key(user, item)
            && exists|t: i64| v@ == ts_bytes(t)),
{
    if item_exists && !starred {
        let now = now_seconds();
        star_write(user, item, item_exists, starred, now)
    } else {
        star_write(user, item, item_exists, starred, 0)
    }
}

/// How an item shows on a feed page: read and starred. Every item on a
/// page the reader does not own shows as read; otherwise an item is read
/// when the signed-in reader marked it so. Only a signed-in reader's star
/// shows.
pub fn item_flags(is_owner: bool, signed_in: bool, read_mark: bool, star_mark: bool) -> (r: (bool, bool))
    ensures
        r.0 == (!is_owner || (signed_in && read_mark)),
        r.1 == (signed_in && star_mark),
{
    (!is_owner || (signed_in && read_mark), signed_in && star_mark)
}

} // verus!
