//! Microblog posts: the entries of the post indexes, the pages a viewer
//! sees, and the index writes a new post makes.
use vstd::prelude::*;
use crate::codec::{
    KeyError, u64_key, wide_pair, hashtag_key, u64_to_bytes, bytes_to_u64, wide_pair_to_bytes,
    bytes_to_wide_pair, hashtag_to_key, hashtag_key_post,
};
use crate::page::{ParamsPage, page_of, paginate};
use crate::visibility::{Viewer, Visibility, viewer_sees, tier_of};
use crate::error::AppError;
use vstd::string::StrSliceExecFns;
use vstd::string::StringSliceAdditionalSpecFns;

verus! {

/// A post as the indexes know it: its id, its author and its tier.
#[derive(Clone, Copy, Debug, PartialEq, Eq, Structural)]
pub struct SoloRef {
    pub id: u64,
    pub author: u64,
    pub visibility: u64,
}

/// Reads an entry of the global timeline: the key is the post id, the value
/// the author and the tier.
pub fn timeline_entry(key: &[u8], value: &[u8]) -> (r: Result<SoloRef, KeyError>)
    ensures
        (key@.len() == 8 && value@.len() == 16) <==> r is Ok,
        r matches Ok(s) ==> u64_key(s.id) == key@ && wide_pair(s.author, s.visibility) == value@,
{
    let id = bytes_to_u64(key)?;
    let (author, visibility) = bytes_to_wide_pair(value)?;
    Ok(SoloRef { id, author, visibility })
}

/// Reads the value of an entry of `author`'s post index: the post id and
/// the tier.
pub fn author_entry(author: u64, value: &[u8]) -> (r: Result<SoloRef, KeyError>)
    ensures
        value@.len() == 16 <==> r is Ok,
        r matches Ok(s) ==> s.author == author && wide_pair(s.id, s.visibility) == value@,
{
    let (id, visibility) = bytes_to_wide_pair(value)?;
    Ok(SoloRef { id, author, visibility })
}

/// The ids of the posts in `s` that the viewer `(id, follows)` may see, in
/// the order of `s`.
pub open spec fn visible_ids(s: Seq<SoloRef>, id: Option<u64>, follows: Seq<u64>) -> Seq<u64>
    decreases s.len(),
{
    if s.len() == 0 {
        seq![]
    } else {
        let rest = visible_ids(s.drop_last(), id, follows);
        if viewer_sees(id, follows, s.last().visibility, s.last().author) {
            rest.push(s.last().id)
        } else {
            rest
        }
    }
}

/// The posts of several lists, one after the other.
pub open spec fn concat_refs(lists: Seq<Vec<SoloRef>>) -> Seq<SoloRef>
    decreases lists.len(),
{
    if lists.len() == 0 {
        seq![]
    } else {
        concat_refs(lists.drop_last()) + lists.last()@
    }
}

/// The ids of the posts that the viewer may see, in order.
pub fn visible_solo_ids(refs: &Vec<SoloRef>, viewer: &Viewer) -> (r: Vec<u64>)
    ensures
        r@ == visible_ids(refs@, viewer.id, viewer.follows@),
{
    let mut out: Vec<u64> = Vec::new();
    let mut i: usize = 0;
    while i < refs.len()
        invariant
            i <= refs@.len(),
            out@ == visible_ids(refs@.subrange(0, i as int), viewer.id, viewer.follows@),
        decreases refs@.len() - i,
    {
        let s = refs[i];
        proof {
            assert(refs@.subrange(0, i as int + 1).drop_last() =~= refs@.subrange(0, i as int));
        }
        if viewer.can_view(s.visibility, s.author) {
            out.push(s.id);
        }
        i = i + 1;
    }
    proof {
        assert(refs@.subrange(0, i as int) =~= refs@);
    }
    out
}

/// A page of the global timeline: `timeline` holds every post in ascending
/// id order; the page is cut from the posts the viewer may see.
pub fn get_all_solos(timeline: &Vec<SoloRef>, viewer: &Viewer, p: &ParamsPage) -> (r: Vec<u64>)
    ensures
        r@ == page_of(visible_ids(timeline@, viewer.id, viewer.follows@), *p),
{
    let ids = visible_solo_ids(timeline, viewer);
    paginate(&ids, p)
}

/// A page of the posts of several authors: `per_author` holds each
/// author's posts in the order they were written, authors one after the
/// other; the page is cut from the posts the viewer may see.
pub fn get_solos_by_uids(per_author: &Vec<Vec<SoloRef>>, viewer: &Viewer, p: &ParamsPage) -> (r: Vec<u64>)
    ensures
        r@ == page_of(visible_ids(concat_refs(per_author@), viewer.id, viewer.follows@), *p),
{
    let mut all: Vec<SoloRef> = Vec::new();
    let mut i: usize = 0;
    while i < per_author.len()
        invariant
            i <= per_author@.len(),
            all@ == concat_refs(per_author@.subrange(0, i as int)),
        decreases per_author@.len() - i,
    {
        let list = &per_author[i];
        let mut j: usize = 0;
        let ghost before = all@;
        while j < list.len()
            invariant
                j <= list@.len(),
                all@ == before + list@.subrange(0, j as int),
            decreases list@.len() - j,
        {
            all.push(list[j]);
            proof {
                assert(all@ =~= before + list@.subrange(0, j as int + 1));
            }
            j = j + 1;
        }
        proof {
            assert(per_author@.subrange(0, i as int + 1).drop_last() =~= per_author@.subrange(0, i as int));
            assert(list@.subrange(0, j as int) =~= list@);
        }
        i = i + 1;
    }
    proof {
        assert(per_author@.subrange(0, i as int) =~= per_author@);
    }
    let ids = visible_solo_ids(&all, viewer);
    paginate(&ids, p)
}

/// The post ids that the hashtag keys `keys` file under exactly `tag`, in
/// order; keys of longer tags that merely start with `tag` are left out.
pub open spec fn tagged_ids(tag: Seq<u8>, keys: Seq<Vec<u8>>) -> Seq<u64>
    decreases keys.len(),
{
    if keys.len() == 0 {
        seq![]
    } else {
        let rest = tagged_ids(tag, keys.drop_last());
        let k = keys.last()@;
        if k.len() == tag.len() + 8 && k.subrange(0, tag.len() as int) == tag {
            rest.push(choose|p: u64| hashtag_key(tag, p) == k)
        } else {
            rest
        }
    }
}

/// Whether `a` starts with the bytes `b`.
fn starts_with(a: &[u8], b: &[u8]) -> (r: bool)
    ensures
        r == (b@.len() <= a@.len() && a@.subrange(0, b@.len() as int) == b@),
{
    if b.len() > a.len() {
        return false;
    }
    let mut i: usize = 0;
    while i < b.len()
        invariant
            i <= b@.len(),
            b@.len() <= a@.len(),
            forall|j: int| 0 <= j < i ==> a@[j] == b@[j],
        decreases b@.len() - i,
    {
        if a[i] != b[i] {
            return false;
        }
        i = i + 1;
    }
    proof {
        assert(a@.subrange(0, b@.len() as int) =~= b@);
    }
    true
}

/// The ids of the posts filed under `tag`, from the keys that a prefix scan
/// of the hashtag index for `tag` returned.
pub fn hashtag_ids(tag: &[u8], keys: &Vec<Vec<u8>>) -> (r: Vec<u64>)
    ensures
        r@ == tagged_ids(tag@, keys@),
{
    let mut out: Vec<u64> = Vec::new();
    let mut i: usize = 0;
    while i < keys.len()
        invariant
            i <= keys@.len(),
            out@ == tagged_ids(tag@, keys@.subrange(0, i as int)),
        decreases keys@.len() - i,
    {
        let k = &keys[i];
        proof {
            assert(keys@.subrange(0, i as int + 1).drop_last() =~= keys@.subrange(0, i as int));
        }
        if k.len() >= 8 && k.len() - 8 == tag.len() && starts_with(k.as_slice(), tag) {
            let p = hashtag_key_post(k.as_slice());
            match p {
                Ok(p) => {
                    proof {
                        assert(k@.subrange(0, k@.len() - 8) == tag@);
                        assert(hashtag_key(tag@, p) == k@);
                        let c = choose|q: u64| hashtag_key(tag@, q) == k@;
                        crate::codec::lemma_hashtag_key_injective(tag@, p, c);
                    }
                    out.push(p);
                },
                Err(_) => {},
            }
        }
        i = i + 1;
    }
    proof {
        assert(keys@.subrange(0, i as int) =~= keys@);
    }
    out
}

/// The store writes that a new post makes.
pub struct SoloWrites {
    /// Key of the author's post index: author, then the author's sequence.
    pub author_key: Vec<u8>,
    /// Value of the author's post index: post id, then tier.
    pub author_value: Vec<u8>,
    /// Key of the global timeline: the post id.
    pub timeline_key: Vec<u8>,
    /// Value of the global timeline: author, then tier.
    pub timeline_value: Vec<u8>,
    /// Keys of the hashtag index; none unless the post is for everyone.
    pub hashtag_keys: Vec<Vec<u8>>,
}

/// The index writes for post `solo_id`, the `seq`-th post of `author`, of
/// tier `visibility`, carrying the tags `hashtags`.
pub fn append_solo(author: u64, seq: u64, solo_id: u64, visibility: Visibility, hashtags: &Vec<Vec<u8>>) -> (r: SoloWrites)
    ensures
        r.author_key@ == wide_pair(author, seq),
        r.author_value@ == wide_pair(solo_id, tier_of(visibility)),
        r.timeline_key@ == u64_key(solo_id),
        r.timeline_value@ == wide_pair(author, tier_of(visibility)),
        visibility == Visibility::Everyone ==> r.hashtag_keys@.len() == hashtags@.len()
            && forall|i: int| 0 <= i < hashtags@.len() ==> #[trigger] r.hashtag_keys@[i]@ == hashtag_key(hashtags@[i]@, solo_id),
        visibility != Visibility::Everyone ==> r.hashtag_keys@.len() == 0,
{
    let tier = visibility.tier();
    let mut tags: Vec<Vec<u8>> = Vec::new();
    if visibility == Visibility::Everyone {
        let mut i: usize = 0;
        while i < hashtags.len()
            invariant
                i <= hashtags@.len(),
                tags@.len() == i,
                forall|j: int| 0 <= j < i ==> #[trigger] tags@[j]@ == hashtag_key(hashtags@[j]@, solo_id),
            decreases hashtags@.len() - i,
        {
            tags.push(hashtag_to_key(hashtags[i].as_slice(), solo_id));
            i = i + 1;
        }
    }
    SoloWrites {
        author_key: wide_pair_to_bytes(author, seq),
        author_value: wide_pair_to_bytes(solo_id, tier),
        timeline_key: u64_to_bytes(solo_id),
        timeline_value: wide_pair_to_bytes(author, tier),
        hashtag_keys: tags,
    }
}

/// Shortest and longest post, in characters.
pub const MIN_SOLO_LEN: usize = 1;
pub const MAX_SOLO_LEN: usize = 1000;

/// Checks the text of a new post: between `MIN_SOLO_LEN` and
/// `MAX_SOLO_LEN` characters.
pub fn validate_solo_content(content: &str) -> (r: Result<(), AppError>)
    ensures
        r is Ok <==> MIN_SOLO_LEN <= content@.len() <= MAX_SOLO_LEN,
        r is Err ==> r == Err::<(), AppError>(AppError::ValidationFailure),
{
    let n = content.unicode_len();
    if n < MIN_SOLO_LEN || n > MAX_SOLO_LEN {
        Err(AppError::ValidationFailure)
    } else {
        Ok(())
    }
}

/// A stored post.
pub struct SoloRecord {
    pub sid: u64,
    pub uid: u64,
    pub visibility: u64,
    pub content: String,
    /// The tags of a post for everyone; none for other tiers.
    pub hashtags: Vec<String>,
    pub created_at: i64,
}

/// Relies on time's `OffsetDateTime::now_utc` and `unix_timestamp`: the
/// current time in whole seconds since the Unix epoch.
#[verifier::external_body]
fn now_unix() -> (r: i64) {
    time::OffsetDateTime::now_utc().unix_timestamp()
}

/// The record of post `sid` by `uid` made at `created_at`; only a post for
/// everyone keeps its tags.
pub fn solo_record(sid: u64, uid: u64, visibility: Visibility, content: String, hashtags: Vec<String>, created_at: i64) -> (r: SoloRecord)
    ensures
        r.sid == sid,
        r.uid == uid,
        r.visibility == tier_of(visibility),
        r.content@ == content@,
        visibility == Visibility::Everyone ==> r.hashtags@ == hashtags@,
        visibility != Visibility::Everyone ==> r.hashtags@.len() == 0,
        r.created_at == created_at,
{
    let tags = if visibility == Visibility::Everyone { hashtags } else { Vec::new() };
    SoloRecord { sid, uid, visibility: visibility.tier(), content, hashtags: tags, created_at }
}

/// The record of a new post, stamped with the current time.
pub fn new_solo(sid: u64, uid: u64, visibility: Visibility, content: String, hashtags: Vec<String>) -> (r: SoloRecord)
    ensures
        r.sid == sid,
        r.uid == uid,
        r.visibility == tier_of(visibility),
        r.content@ == content@,
        visibility == Visibility::Everyone ==> r.hashtags@ == hashtags@,
        visibility != Visibility::Everyone ==> r.hashtags@.len() == 0,
{
    let now = now_unix();
    solo_record(sid, uid, visibility, content, hashtags, now)
}

/// Most tags a post keeps.
pub const MAX_HASHTAGS: usize = 5;

/// Whether byte `b` separates words: space, tab, line feed or carriage
/// return.
pub open spec fn is_space(b: u8) -> bool {
    b == 32 || b == 9 || b == 10 || b == 13
}

/// Where the word running on from `j` ends.
pub open spec fn word_end(s: Seq<u8>, j: int) -> int
    decreases s.len() - j,
{
    if j >= s.len() || j < 0 || is_space(s[j]) {
        j
    } else {
        word_end(s, j + 1)
    }
}

/// Whether a tag starts at `i`: a `#` that begins a word and is followed
/// by at least one more byte of it.
pub open spec fn starts_tag(s: Seq<u8>, i: int) -> bool {
    0 <= i && i + 1 < s.len() && s[i] == 35 && (i == 0 || is_space(s[i - 1])) && !is_space(s[i + 1])
}

/// The tag that starts at `i`: the rest of the word after the `#`.
pub open spec fn tag_at(s: Seq<u8>, i: int) -> Seq<u8> {
    s.subrange(i + 1, word_end(s, i + 1))
}

/// The distinct tags that start before `n`, in order.
pub open spec fn tags_before(s: Seq<u8>, n: int) -> Seq<Seq<u8>>
    decreases n,
{
    if n <= 0 {
        seq![]
    } else {
        let rest = tags_before(s, n - 1);
        if starts_tag(s, n - 1) && !rest.contains(tag_at(s, n - 1)) {
            rest.push(tag_at(s, n - 1))
        } else {
            rest
        }
    }
}

/// The tags of a text: its distinct tags in order, at most `max`.
pub open spec fn hashtags_of(s: Seq<u8>, max: nat) -> Seq<Seq<u8>> {
    let t = tags_before(s, s.len() as int);
    if t.len() > max { t.subrange(0, max as int) } else { t }
}

/// The tags of the UTF-8 text `content`: words that start with `#`, each
/// without its `#`, distinct, in order, at most `max`.
pub fn extract_hashtags(content: &[u8], max: usize) -> (r: Vec<Vec<u8>>)
    ensures
        r@.map_values(|v: Vec<u8>| v@) == hashtags_of(content@, max as nat),
{
    let mut out: Vec<Vec<u8>> = Vec::new();
    let n = content.len();
    let mut i: usize = 0;
    while i < n
        invariant
            n == content@.len(),
            i <= n,
            out@.map_values(|v: Vec<u8>| v@) == tags_before(content@, i as int),
        decreases n - i,
    {
        let starts = i + 1 < n && content[i] == 35 && (i == 0 || is_space_byte(content[i - 1]))
            && !is_space_byte(content[i + 1]);
        if starts {
            let mut end: usize = i + 1;
            while end < n && !is_space_byte(content[end])
                invariant
                    n == content@.len(),
                    i + 1 <= end <= n,
                    word_end(content@, i + 1) == word_end(content@, end as int),
                decreases n - end,
            {
                end = end + 1;
            }
            let tag = crate::codec::copy_range(content, i + 1, end);
            if !crate::folders::has_name(&out, &tag) {
                let ghost before = out@;
                out.push(tag);
                proof {
                    assert(out@.map_values(|v: Vec<u8>| v@) =~= before.map_values(|v: Vec<u8>| v@).push(tag@));
                }
            }
        }
        i = i + 1;
    }
    out.truncate(max);
    proof {
        assert(out@.map_values(|v: Vec<u8>| v@) =~= hashtags_of(content@, max as nat));
    }
    out
}

/// Whether byte `b` separates words.
fn is_space_byte(b: u8) -> (r: bool)
    ensures
        r == is_space(b),
{
    b == 32 || b == 9 || b == 10 || b == 13
}

/// `s` with each occurrence of `pat`, read left to right without
/// overlap, replaced by `rep`; an empty `pat` changes nothing.
pub open spec fn replace_all(s: Seq<u8>, pat: Seq<u8>, rep: Seq<u8>) -> Seq<u8>
    decreases s.len(),
{
    if pat.len() == 0 || s.len() < pat.len() {
        s
    } else if s.subrange(0, pat.len() as int) == pat {
        rep + replace_all(s.subrange(pat.len() as int, s.len() as int), pat, rep)
    } else {
        seq![s[0]] + replace_all(s.drop_first(), pat, rep)
    }
}

/// The bytes of `](/solo/user/0?tag=`.
pub open spec fn tag_link_middle() -> Seq<u8> {
    seq![93u8, 40, 47, 115, 111, 108, 111, 47, 117, 115, 101, 114, 47, 48, 63, 116, 97, 103, 61]
}

/// The markdown link of a tag to its page: `[tag](/solo/user/0?tag=tag)`.
pub open spec fn tag_link(tag: Seq<u8>) -> Seq<u8> {
    seq![91u8] + tag + tag_link_middle() + tag + seq![41u8]
}

/// `s` with every tag of `tags` made a link, one tag after the other.
pub open spec fn link_all(s: Seq<u8>, tags: Seq<Seq<u8>>) -> Seq<u8>
    decreases tags.len(),
{
    if tags.len() == 0 {
        s
    } else {
        link_all(replace_all(s, tags[0], tag_link(tags[0])), tags.drop_first())
    }
}

/// Builds the link of a tag.
fn make_tag_link(tag: &[u8]) -> (r: Vec<u8>)
    ensures
        r@ == tag_link(tag@),
{
    let mut out: Vec<u8> = vec![91u8];
    let mut t1 = crate::codec::copy_range(tag, 0, tag.len());
    let mut mid: Vec<u8> = vec![93u8, 40, 47, 115, 111, 108, 111, 47, 117, 115, 101, 114, 47, 48, 63, 116, 97, 103, 61];
    let mut t2 = crate::codec::copy_range(tag, 0, tag.len());
    let mut close: Vec<u8> = vec![41u8];
    proof {
        assert(tag@.subrange(0, tag@.len() as int) =~= tag@);
        assert(mid@ =~= tag_link_middle());
    }
    out.append(&mut t1);
    out.append(&mut mid);
    out.append(&mut t2);
    out.append(&mut close);
    proof {
        assert(out@ =~= tag_link(tag@));
    }
    out
}

/// Replaces each occurrence of `pat` in `s`, left to right without
/// overlap, by `rep`.
pub fn replace_bytes(s: &[u8], pat: &[u8], rep: &[u8]) -> (r: Vec<u8>)
    ensures
        r@ == replace_all(s@, pat@, rep@),
{
    let n = s.len();
    let m = pat.len();
    let mut out: Vec<u8> = Vec::new();
    let mut i: usize = 0;
    proof {
        assert(s@.subrange(0, n as int) =~= s@);
    }
    while i < n
        invariant
            n == s@.len(),
            m == pat@.len(),
            i <= n,
            out@ + replace_all(s@.subrange(i as int, n as int), pat@, rep@) == replace_all(s@, pat@, rep@),
        decreases n - i,
    {
        let ghost rest = s@.subrange(i as int, n as int);
        if m == 0 || n - i < m {
            proof {
                assert(replace_all(rest, pat@, rep@) == rest);
            }
            let mut tail = crate::codec::copy_range(s, i, n);
            out.append(&mut tail);
            proof {
                assert(s@.subrange(n as int, n as int) =~= Seq::<u8>::empty());
                assert(replace_all(Seq::<u8>::empty(), pat@, rep@) == Seq::<u8>::empty());
                assert(out@ + Seq::<u8>::empty() =~= out@);
            }
            i = n;
        } else {
            let piece = crate::codec::copy_range(s, i, i + m);
            proof {
                assert(rest.subrange(0, m as int) =~= piece@);
            }
            if crate::codec::same_bytes(piece.as_slice(), pat) {
                let mut r = crate::codec::copy_range(rep, 0, rep.len());
                proof {
                    assert(rep@.subrange(0, rep@.len() as int) =~= rep@);
                    assert(rest.subrange(m as int, rest.len() as int) =~= s@.subrange(i + m, n as int));
                }
                let ghost before = out@;
                out.append(&mut r);
                proof {
                    assert(before + replace_all(rest, pat@, rep@)
                        =~= out@ + replace_all(s@.subrange(i + m, n as int), pat@, rep@));
                }
                i = i + m;
            } else {
                proof {
                    assert(rest.drop_first() =~= s@.subrange(i + 1, n as int));
                }
                let ghost before = out@;
                out.push(s[i]);
                proof {
                    assert(before + replace_all(rest, pat@, rep@)
                        =~= out@ + replace_all(s@.subrange(i + 1, n as int), pat@, rep@));
                }
                i = i + 1;
            }
        }
    }
    proof {
        assert(s@.subrange(n as int, n as int) =~= Seq::<u8>::empty());
        assert(out@ + Seq::<u8>::empty() =~= out@);
    }
    out
}

/// The text of a public post with each of its tags made a link to the
/// tag's page, one tag after the other.
pub fn link_hashtags(content: &[u8], tags: &Vec<Vec<u8>>) -> (r: Vec<u8>)
    ensures
        r@ == link_all(content@, tags@.map_values(|t: Vec<u8>| t@)),
{
    let ghost tv = tags@.map_values(|t: Vec<u8>| t@);
    let mut cur = crate::codec::copy_range(content, 0, content.len());
    proof {
        assert(content@.subrange(0, content@.len() as int) =~= content@);
        assert(tv.subrange(0, tv.len() as int) =~= tv);
    }
    let mut i: usize = 0;
    while i < tags.len()
        invariant
            i <= tags@.len(),
            tv == tags@.map_values(|t: Vec<u8>| t@),
            link_all(content@, tv) == link_all(cur@, tv.subrange(i as int, tv.len() as int)),
        decreases tags@.len() - i,
    {
        let link = make_tag_link(tags[i].as_slice());
        let next = replace_bytes(cur.as_slice(), tags[i].as_slice(), link.as_slice());
        proof {
            let rest = tv.subrange(i as int, tv.len() as int);
            assert(rest[0] == tags@[i as int]@);
            assert(rest.drop_first() =~= tv.subrange(i + 1, tv.len() as int));
        }
        cur = next;
        i = i + 1;
    }
    proof {
        assert(tv.subrange(i as int, tv.len() as int) =~= Seq::<Seq<u8>>::empty());
    }
    cur
}

/// Which posts a post page lists.
pub enum SoloSource {
    /// None at all.
    Nothing,
    /// Those of the authors the viewer follows.
    Following,
    /// Those filed under this tag (its UTF-8 bytes).
    Tag(Vec<u8>),
    /// Everyone's, from the global timeline.
    Everyone,
    /// Those of one author.
    Author(u64),
}

/// Picks the posts a page lists: with the filter "Following", those of the
/// followed authors for a signed-in viewer and none for an anonymous one;
/// otherwise those of the tag when one is given, else everyone's for page
/// 0 and the author's for any other page.
pub fn solo_source(signed_in: bool, filter: Option<&str>, tag: Option<&str>, uid: u64) -> (r: SoloSource)
    ensures
        (filter matches Some(f) && f@ == "Following"@) ==> (if signed_in { r is Following } else { r is Nothing }),
        !(filter matches Some(f) && f@ == "Following"@) ==> match tag {
            Some(t) => r matches SoloSource::Tag(b) && b@ == t.spec_bytes(),
            None => if uid == 0 { r is Everyone } else { r == SoloSource::Author(uid) },
        },
{
    proof {
        reveal_strlit("Following");
    }
    let following = match filter {
        Some(f) => crate::text::str_eq(f, "Following"),
        None => false,
    };
    if following {
        if signed_in { SoloSource::Following } else { SoloSource::Nothing }
    } else {
        match tag {
            Some(t) => SoloSource::Tag(crate::codec::copy_range(t.as_bytes(), 0, t.as_bytes().len())),
            None => if uid == 0 { SoloSource::Everyone } else { SoloSource::Author(uid) },
        }
    }
}

/// The text and the tags of a new post: a post for everyone keeps up to
/// `MAX_HASHTAGS` tags, each made a link to its page; other posts keep
/// their text and no tags.
pub fn solo_text(content: &[u8], visibility: Visibility) -> (r: (Vec<u8>, Vec<Vec<u8>>))
    ensures
        visibility == Visibility::Everyone ==> r.1@.map_values(|v: Vec<u8>| v@) == hashtags_of(content@, MAX_HASHTAGS as nat)
            && r.0@ == link_all(content@, hashtags_of(content@, MAX_HASHTAGS as nat)),
        visibility != Visibility::Everyone ==> r.0@ == content@ && r.1@.len() == 0,
{
    if visibility == Visibility::Everyone {
        let tags = extract_hashtags(content, MAX_HASHTAGS);
        let text = link_hashtags(content, &tags);
        (text, tags)
    } else {
        let text = crate::codec::copy_range(content, 0, content.len());
        proof {
            assert(content@.subrange(0, content@.len() as int) =~= content@);
        }
        (text, Vec::new())
    }
}

} // verus!
