//! Key codec: fixed-width big-endian integers and the composite keys built
//! from them.
use vstd::prelude::*;
use vstd::arithmetic::div_mod::lemma_mod_breakdown;

verus! {

/// `256^w`.
pub open spec fn pow256(w: nat) -> nat
    decreases w,
{
    if w == 0 {
        1
    } else {
        256 * pow256((w - 1) as nat)
    }
}

/// The `w` low-order base-256 digits of `n`, most significant first.
pub open spec fn be_bytes(n: nat, w: nat) -> Seq<u8>
    decreases w,
{
    if w == 0 {
        seq![]
    } else {
        be_bytes(n / 256, (w - 1) as nat).push((n % 256) as u8)
    }
}

/// The number that the bytes `s` spell in base 256, most significant first.
pub open spec fn be_value(s: Seq<u8>) -> nat
    decreases s.len(),
{
    if s.len() == 0 {
        0
    } else {
        be_value(s.drop_last()) * 256 + s.last() as nat
    }
}

pub proof fn lemma_be_bytes_len(n: nat, w: nat)
    ensures
        be_bytes(n, w).len() == w,
    decreases w,
{
    if w > 0 {
        lemma_be_bytes_len(n / 256, (w - 1) as nat);
    }
}

pub proof fn lemma_pow256_pos(w: nat)
    ensures
        pow256(w) > 0,
    decreases w,
{
    if w > 0 {
        lemma_pow256_pos((w - 1) as nat);
    }
}

/// Decoding an encoding gives the number back, reduced to the width.
pub proof fn lemma_be_round_trip(n: nat, w: nat)
    ensures
        be_value(be_bytes(n, w)) == n % pow256(w),
    decreases w,
{
    if w == 0 {
    } else {
        let w1 = (w - 1) as nat;
        lemma_be_round_trip(n / 256, w1);
        lemma_pow256_pos(w1);
        assert(be_bytes(n, w).drop_last() == be_bytes(n / 256, w1));
        lemma_mod_breakdown(n as int, 256, pow256(w1) as int);
    }
}

/// The value of `w` bytes is below `256^w`.
pub proof fn lemma_be_value_bound(s: Seq<u8>)
    ensures
        be_value(s) < pow256(s.len()),
    decreases s.len(),
{
    if s.len() > 0 {
        lemma_be_value_bound(s.drop_last());
        assert(be_value(s.drop_last()) * 256 + (s.last() as nat) < pow256(s.len())) by (nonlinear_arith)
            requires
                be_value(s.drop_last()) < pow256((s.len() - 1) as nat),
                (s.last() as nat) < 256,
                pow256(s.len()) == 256 * pow256((s.len() - 1) as nat),
        ;
    }
}

/// Distinct numbers below `256^w` have distinct encodings.
pub proof fn lemma_be_bytes_injective(a: nat, b: nat, w: nat)
    requires
        a < pow256(w),
        b < pow256(w),
        be_bytes(a, w) == be_bytes(b, w),
    ensures
        a == b,
{
    lemma_be_round_trip(a, w);
    lemma_be_round_trip(b, w);
    vstd::arithmetic::div_mod::lemma_small_mod(a, pow256(w));
    vstd::arithmetic::div_mod::lemma_small_mod(b, pow256(w));
}

/// `256^4` and `256^8`.
pub proof fn lemma_pow256_values()
    ensures
        pow256(4) == 0x1_0000_0000,
        pow256(8) == 0x1_0000_0000_0000_0000,
{
    reveal_with_fuel(pow256, 9);
}

/// The `w` low-order bytes of `n`, most significant first.
fn encode_be(n: u64, w: usize) -> (r: Vec<u8>)
    ensures
        r@ == be_bytes(n as nat, w as nat),
{
    let mut out: Vec<u8> = Vec::new();
    let mut k: usize = 0;
    while k < w
        invariant
            out@.len() == k,
            k <= w,
            forall|j: int| 0 <= j < k ==> out@[j] == 0,
        decreases w - k,
    {
        out.push(0);
        k = k + 1;
    }
    let mut x: u64 = n;
    let mut i: usize = w;
    proof {
        assert(out@.subrange(w as int, w as int) =~= seq![]);
        assert(be_bytes(n as nat, w as nat) + seq![] =~= be_bytes(n as nat, w as nat));
    }
    while i > 0
        invariant
            i <= w,
            out@.len() == w,
            be_bytes(x as nat, i as nat) + out@.subrange(i as int, w as int) == be_bytes(n as nat, w as nat),
        decreases i,
    {
        let ghost old_out = out@;
        let b: u8 = (x % 256) as u8;
        out.set(i - 1, b);
        proof {
            let i1 = (i - 1) as nat;
            assert(be_bytes(x as nat, i as nat) == be_bytes((x / 256) as nat, i1).push(b));
            assert(out@.subrange(i - 1, w as int) =~= seq![b] + old_out.subrange(i as int, w as int));
            assert(be_bytes((x / 256) as nat, i1) + out@.subrange(i - 1, w as int)
                =~= be_bytes((x / 256) as nat, i1).push(b) + old_out.subrange(i as int, w as int));
        }
        x = x / 256;
        i = i - 1;
    }
    proof {
        assert(out@.subrange(0, w as int) =~= out@);
    }
    out
}

/// The number spelled by at most eight bytes.
fn decode_be(s: &[u8]) -> (r: u64)
    requires
        s@.len() <= 8,
    ensures
        r as nat == be_value(s@),
{
    let mut acc: u64 = 0;
    let mut i: usize = 0;
    while i < s.len()
        invariant
            i <= s@.len(),
            s@.len() <= 8,
            acc as nat == be_value(s@.subrange(0, i as int)),
        decreases s@.len() - i,
    {
        proof {
            let p = s@.subrange(0, i as int + 1);
            assert(p.drop_last() =~= s@.subrange(0, i as int));
            lemma_be_value_bound(s@.subrange(0, i as int));
            lemma_pow256_values();
            lemma_pow256_mono(i as nat, 7);
            assert(acc as nat * 256 + s@[i as int] as nat <= 0xffff_ffff_ffff_ffff) by (nonlinear_arith)
                requires
                    (acc as nat) < pow256(i as nat),
                    pow256(i as nat) <= pow256(7),
                    pow256(8) == 256 * pow256(7),
                    pow256(8) == 0x1_0000_0000_0000_0000,
                    (s@[i as int] as nat) < 256,
            ;
        }
        acc = acc * 256 + s[i] as u64;
        i = i + 1;
    }
    proof {
        assert(s@.subrange(0, i as int) =~= s@);
    }
    acc
}

proof fn lemma_pow256_mono(a: nat, b: nat)
    requires
        a <= b,
    ensures
        pow256(a) <= pow256(b),
    decreases b,
{
    if a < b {
        lemma_pow256_mono(a, (b - 1) as nat);
        lemma_pow256_pos((b - 1) as nat);
    }
}

/// Why a stored key or value could not be read back.
#[derive(Clone, Copy, Debug, PartialEq, Eq, Structural)]
pub enum KeyError {
    /// The byte string does not have the length its layout asks for.
    BadLength,
}

/// Key encoding of a 32-bit id.
pub open spec fn u32_key(n: u32) -> Seq<u8> {
    be_bytes(n as nat, 4)
}

/// Key encoding of a 64-bit id.
pub open spec fn u64_key(n: u64) -> Seq<u8> {
    be_bytes(n as nat, 8)
}

/// A signed number as the unsigned 64-bit number with the same bits.
pub open spec fn twos64(t: int) -> nat {
    if t >= 0 {
        t as nat
    } else {
        (t + 0x1_0000_0000_0000_0000) as nat
    }
}

/// Value encoding of a timestamp: its 64 bits, most significant first.
pub open spec fn ts_bytes(t: i64) -> Seq<u8> {
    be_bytes(twos64(t as int), 8)
}

/// Encodes a 32-bit id as four big-endian bytes, so that byte order is
/// numeric order.
pub fn u32_to_bytes(n: u32) -> (r: Vec<u8>)
    ensures
        r@ == u32_key(n),
        r@.len() == 4,
{
    proof { lemma_be_bytes_len(n as nat, 4); }
    encode_be(n as u64, 4)
}

/// Encodes a 64-bit id as eight big-endian bytes.
pub fn u64_to_bytes(n: u64) -> (r: Vec<u8>)
    ensures
        r@ == u64_key(n),
        r@.len() == 8,
{
    proof { lemma_be_bytes_len(n as nat, 8); }
    encode_be(n, 8)
}

/// Encodes a timestamp as the eight big-endian bytes of its two's
/// complement form.
pub fn i64_to_bytes(t: i64) -> (r: Vec<u8>)
    ensures
        r@ == ts_bytes(t),
        r@.len() == 8,
{
    proof { lemma_be_bytes_len(twos64(t as int), 8); }
    let u: u64 = if t >= 0 {
        t as u64
    } else {
        ((t - i64::MIN) as u64) + 0x8000_0000_0000_0000u64
    };
    encode_be(u, 8)
}

/// Reads back a 32-bit id; only a four-byte string is one.
pub fn bytes_to_u32(s: &[u8]) -> (r: Result<u32, KeyError>)
    ensures
        s@.len() == 4 <==> r is Ok,
        r matches Ok(n) ==> u32_key(n) == s@,
{
    if s.len() != 4 {
        return Err(KeyError::BadLength);
    }
    let v = decode_be(s);
    proof {
        lemma_be_value_bound(s@);
        lemma_pow256_values();
        lemma_be_digits(s@);
    }
    Ok(v as u32)
}

/// Reads back a 64-bit id; only an eight-byte string is one.
pub fn bytes_to_u64(s: &[u8]) -> (r: Result<u64, KeyError>)
    ensures
        s@.len() == 8 <==> r is Ok,
        r matches Ok(n) ==> u64_key(n) == s@,
{
    if s.len() != 8 {
        return Err(KeyError::BadLength);
    }
    let v = decode_be(s);
    proof {
        lemma_be_digits(s@);
    }
    Ok(v)
}

/// Reads back a timestamp; only an eight-byte string is one.
pub fn bytes_to_i64(s: &[u8]) -> (r: Result<i64, KeyError>)
    ensures
        s@.len() == 8 <==> r is Ok,
        r matches Ok(t) ==> ts_bytes(t) == s@,
{
    if s.len() != 8 {
        return Err(KeyError::BadLength);
    }
    let v = decode_be(s);
    proof {
        lemma_be_digits(s@);
    }
    let t: i64 = if v < 0x8000_0000_0000_0000u64 {
        v as i64
    } else {
        ((v - 0x8000_0000_0000_0000u64) as i64) + i64::MIN
    };
    Ok(t)
}

/// Bytes are the encoding of their own value.
proof fn lemma_be_digits(s: Seq<u8>)
    ensures
        be_bytes(be_value(s), s.len()) == s,
    decreases s.len(),
{
    if s.len() > 0 {
        let p = s.drop_last();
        lemma_be_digits(p);
        let v = be_value(s);
        assert(v / 256 == be_value(p) && v % 256 == s.last() as nat) by {
            vstd::arithmetic::div_mod::lemma_fundamental_div_mod_converse(
                v as int, 256, be_value(p) as int, s.last() as int);
        }
        assert(be_bytes(v, s.len()) =~= p.push(s.last()));
    }
}

/// Copies `s[from..to]` into a vector of its own.
pub fn copy_range(s: &[u8], from: usize, to: usize) -> (r: Vec<u8>)
    requires
        from <= to <= s@.len(),
    ensures
        r@ == s@.subrange(from as int, to as int),
{
    let mut out: Vec<u8> = Vec::new();
    let mut i: usize = from;
    while i < to
        invariant
            from <= i <= to,
            to <= s@.len(),
            out@ == s@.subrange(from as int, i as int),
        decreases to - i,
    {
        out.push(s[i]);
        proof {
            assert(out@ =~= s@.subrange(from as int, i as int + 1));
        }
        i = i + 1;
    }
    out
}

/// Byte-wise equality.
pub fn same_bytes(a: &[u8], b: &[u8]) -> (r: bool)
    ensures
        r == (a@ == b@),
{
    if a.len() != b.len() {
        return false;
    }
    let mut i: usize = 0;
    while i < a.len()
        invariant
            i <= a@.len(),
            a@.len() == b@.len(),
            forall|j: int| 0 <= j < i ==> a@[j] == b@[j],
        decreases a@.len() - i,
    {
        if a[i] != b[i] {
            return false;
        }
        i = i + 1;
    }
    proof {
        assert(a@ =~= b@);
    }
    true
}

/// Key of the indexes keyed by two 32-bit ids: feed membership
/// (feed, item) and the per-user read and star marks (user, item).
pub open spec fn pair_key(a: u32, b: u32) -> Seq<u8> {
    u32_key(a) + u32_key(b)
}

/// Builds a two-id key.
pub fn pair_to_key(a: u32, b: u32) -> (r: Vec<u8>)
    ensures
        r@ == pair_key(a, b),
{
    let mut k = u32_to_bytes(a);
    let mut t = u32_to_bytes(b);
    k.append(&mut t);
    k
}

/// Splits a two-id key; only an eight-byte key is one.
pub fn key_to_pair(k: &[u8]) -> (r: Result<(u32, u32), KeyError>)
    ensures
        k@.len() == 8 <==> r is Ok,
        r matches Ok(p) ==> pair_key(p.0, p.1) == k@,
{
    if k.len() != 8 {
        return Err(KeyError::BadLength);
    }
    let a = bytes_to_u32(&k[0..4]);
    let b = bytes_to_u32(&k[4..8]);
    match (a, b) {
        (Ok(a), Ok(b)) => {
            proof {
                assert(k@ =~= k@.subrange(0, 4) + k@.subrange(4, 8));
            }
            Ok((a, b))
        },
        _ => Err(KeyError::BadLength),
    }
}

/// Key of a subscription: user id, folder name, feed id.
pub open spec fn folder_key(user: u32, folder: Seq<u8>, feed: u32) -> Seq<u8> {
    u32_key(user) + folder + u32_key(feed)
}

/// A subscription key split into its parts.
pub struct FolderKey {
    pub user: u32,
    pub folder: Vec<u8>,
    pub feed: u32,
}

/// Builds a subscription key.
pub fn folder_to_key(user: u32, folder: &[u8], feed: u32) -> (r: Vec<u8>)
    ensures
        r@ == folder_key(user, folder@, feed),
{
    let mut k = u32_to_bytes(user);
    let mut f = copy_range(folder, 0, folder.len());
    let mut t = u32_to_bytes(feed);
    proof { assert(folder@.subrange(0, folder@.len() as int) =~= folder@); }
    k.append(&mut f);
    k.append(&mut t);
    k
}

/// The feed id that ends a subscription key.
pub open spec fn key_feed(k: Seq<u8>) -> Seq<u8> {
    k.subrange(k.len() - 4, k.len() as int)
}

/// Splits a subscription key: the first four bytes are the user, the last
/// four the feed, what stands between is the folder name.
pub fn key_to_folder(k: &[u8]) -> (r: Result<FolderKey, KeyError>)
    ensures
        k@.len() >= 8 <==> r is Ok,
        r matches Ok(f) ==> folder_key(f.user, f.folder@, f.feed) == k@,
{
    if k.len() < 8 {
        return Err(KeyError::BadLength);
    }
    let n = k.len();
    let user = bytes_to_u32(&k[0..4]);
    let feed = bytes_to_u32(&k[n - 4..n]);
    let folder = copy_range(k, 4, n - 4);
    match (user, feed) {
        (Ok(user), Ok(feed)) => {
            proof {
                assert(k@ =~= k@.subrange(0, 4) + k@.subrange(4, n - 4) + k@.subrange(n - 4, n as int));
            }
            Ok(FolderKey { user, folder, feed })
        },
        _ => Err(KeyError::BadLength),
    }
}

/// Two ids side by side, eight bytes each: the value of the per-user post
/// index (post, visibility), of the global timeline (author, visibility),
/// and the key of the per-user post index (author, sequence).
pub open spec fn wide_pair(a: u64, b: u64) -> Seq<u8> {
    u64_key(a) + u64_key(b)
}

/// Builds a pair of 64-bit ids.
pub fn wide_pair_to_bytes(a: u64, b: u64) -> (r: Vec<u8>)
    ensures
        r@ == wide_pair(a, b),
{
    let mut k = u64_to_bytes(a);
    let mut t = u64_to_bytes(b);
    k.append(&mut t);
    k
}

/// Splits a pair of 64-bit ids; only sixteen bytes are one.
pub fn bytes_to_wide_pair(k: &[u8]) -> (r: Result<(u64, u64), KeyError>)
    ensures
        k@.len() == 16 <==> r is Ok,
        r matches Ok(p) ==> wide_pair(p.0, p.1) == k@,
{
    if k.len() != 16 {
        return Err(KeyError::BadLength);
    }
    let a = bytes_to_u64(&k[0..8]);
    let b = bytes_to_u64(&k[8..16]);
    match (a, b) {
        (Ok(a), Ok(b)) => {
            proof {
                assert(k@ =~= k@.subrange(0, 8) + k@.subrange(8, 16));
            }
            Ok((a, b))
        },
        _ => Err(KeyError::BadLength),
    }
}

/// Key of the hashtag index: the tag text, then the post id.
pub open spec fn hashtag_key(tag: Seq<u8>, post: u64) -> Seq<u8> {
    tag + u64_key(post)
}

/// Builds a hashtag index key.
pub fn hashtag_to_key(tag: &[u8], post: u64) -> (r: Vec<u8>)
    ensures
        r@ == hashtag_key(tag@, post),
{
    let mut k = copy_range(tag, 0, tag.len());
    let mut t = u64_to_bytes(post);
    proof { assert(tag@.subrange(0, tag@.len() as int) =~= tag@); }
    k.append(&mut t);
    k
}

/// The post id that ends a hashtag key; keys shorter than eight bytes are
/// not hashtag keys.
pub fn hashtag_key_post(k: &[u8]) -> (r: Result<u64, KeyError>)
    ensures
        k@.len() >= 8 <==> r is Ok,
        r matches Ok(p) ==> k@ == hashtag_key(k@.subrange(0, k@.len() - 8), p),
{
    if k.len() < 8 {
        return Err(KeyError::BadLength);
    }
    let n = k.len();
    let r = bytes_to_u64(&k[n - 8..n]);
    proof {
        assert(k@ =~= k@.subrange(0, n - 8) + k@.subrange(n - 8, n as int));
    }
    r
}

} // verus!

verus! {

/// A hashtag key names one post.
pub proof fn lemma_hashtag_key_injective(tag: Seq<u8>, a: u64, b: u64)
    requires
        hashtag_key(tag, a) == hashtag_key(tag, b),
    ensures
        a == b,
{
    lemma_be_bytes_len(a as nat, 8);
    lemma_be_bytes_len(b as nat, 8);
    assert(u64_key(a) =~= hashtag_key(tag, a).subrange(tag.len() as int, tag.len() + 8int));
    assert(u64_key(b) =~= hashtag_key(tag, b).subrange(tag.len() as int, tag.len() + 8int));
    lemma_pow256_values();
    lemma_be_bytes_injective(a as nat, b as nat, 8);
}

/// A 32-bit key names one id.
pub proof fn lemma_u32_key_injective(a: u32, b: u32)
    requires
        u32_key(a) == u32_key(b),
    ensures
        a == b,
{
    lemma_pow256_values();
    lemma_be_bytes_injective(a as nat, b as nat, 4);
}

/// A two-id key names one pair of ids.
pub proof fn lemma_pair_key_injective(a: u32, b: u32, c: u32, d: u32)
    requires
        pair_key(a, b) == pair_key(c, d),
    ensures
        a == c,
        b == d,
{
    lemma_be_bytes_len(a as nat, 4);
    lemma_be_bytes_len(b as nat, 4);
    lemma_be_bytes_len(c as nat, 4);
    lemma_be_bytes_len(d as nat, 4);
    assert(u32_key(a) =~= pair_key(a, b).subrange(0, 4));
    assert(u32_key(c) =~= pair_key(c, d).subrange(0, 4));
    assert(u32_key(b) =~= pair_key(a, b).subrange(4, 8));
    assert(u32_key(d) =~= pair_key(c, d).subrange(4, 8));
    lemma_u32_key_injective(a, c);
    lemma_u32_key_injective(b, d);
}

/// Whether `x` comes before `y` byte by byte: they agree up to a position
/// where `x` holds the smaller byte.
pub open spec fn lex_lt(x: Seq<u8>, y: Seq<u8>) -> bool {
    exists|i: int| 0 <= i < x.len() && i < y.len() && x.subrange(0, i) == y.subrange(0, i) && #[trigger] x[i] < y[i]
}

/// Byte order is numeric order: of two numbers below `256^w`, the smaller
/// has the encoding that comes first.
pub proof fn lemma_be_bytes_order(a: nat, b: nat, w: nat)
    requires
        a < b < pow256(w),
    ensures
        lex_lt(be_bytes(a, w), be_bytes(b, w)),
    decreases w,
{
    lemma_be_bytes_len(a, w);
    lemma_be_bytes_len(b, w);
    if w == 0 {
        assert(false);
    } else {
        let w1 = (w - 1) as nat;
        let x = be_bytes(a, w);
        let y = be_bytes(b, w);
        lemma_be_bytes_len(a / 256, w1);
        lemma_be_bytes_len(b / 256, w1);
        assert(x.drop_last() == be_bytes(a / 256, w1));
        assert(y.drop_last() == be_bytes(b / 256, w1));
        assert(b / 256 < pow256(w1)) by (nonlinear_arith)
            requires
                b < pow256(w),
                pow256(w) == 256 * pow256(w1),
        ;
        if a / 256 < b / 256 {
            lemma_be_bytes_order(a / 256, b / 256, w1);
            let i = choose|i: int| 0 <= i < x.drop_last().len() && i < y.drop_last().len()
                && x.drop_last().subrange(0, i) == y.drop_last().subrange(0, i) && #[trigger] x.drop_last()[i] < y.drop_last()[i];
            assert(x.subrange(0, i) =~= x.drop_last().subrange(0, i));
            assert(y.subrange(0, i) =~= y.drop_last().subrange(0, i));
            assert(x[i] < y[i]);
        } else {
            assert(a / 256 == b / 256) by {
                vstd::arithmetic::div_mod::lemma_div_is_ordered(a as int, b as int, 256);
            }
            assert(a % 256 < b % 256) by {
                vstd::arithmetic::div_mod::lemma_fundamental_div_mod(a as int, 256);
                vstd::arithmetic::div_mod::lemma_fundamental_div_mod(b as int, 256);
            }
            assert(x.subrange(0, w1 as int) =~= y.subrange(0, w1 as int));
            assert(x[w1 as int] < y[w1 as int]);
        }
    }
}

/// Smaller 64-bit ids have keys that sort first.
pub proof fn lemma_u64_key_order(a: u64, b: u64)
    requires
        a < b,
    ensures
        lex_lt(u64_key(a), u64_key(b)),
{
    lemma_pow256_values();
    lemma_be_bytes_order(a as nat, b as nat, 8);
}

/// Smaller 32-bit ids have keys that sort first.
pub proof fn lemma_u32_key_order(a: u32, b: u32)
    requires
        a < b,
    ensures
        lex_lt(u32_key(a), u32_key(b)),
{
    lemma_pow256_values();
    lemma_be_bytes_order(a as nat, b as nat, 4);
}

/// A timestamp's encoding gives the timestamp back: distinct timestamps
/// have distinct encodings.
pub proof fn lemma_ts_bytes_injective(s: i64, t: i64)
    requires
        ts_bytes(s) == ts_bytes(t),
    ensures
        s == t,
{
    lemma_pow256_values();
    lemma_be_bytes_injective(twos64(s as int), twos64(t as int), 8);
}

} // verus!
