//! Pagination engine: an anchor, a page size and a direction select a
//! contiguous window of an ascending sequence.
use vstd::prelude::*;

verus! {

/// What a reader asks of a list: skip `anchor` entries from the chosen
/// end, show at most `n`, newest first when `is_desc`.
#[derive(Clone, Copy, Debug, PartialEq, Eq, Structural)]
pub struct ParamsPage {
    pub anchor: usize,
    pub n: usize,
    pub is_desc: bool,
}

/// The 1-indexed inclusive window `(start, end)` that the page parameters
/// select from an ascending sequence of length `len`; `None` when the page
/// is empty.
pub open spec fn window(len: int, anchor: int, size: int, desc: bool) -> Option<(int, int)> {
    if desc {
        let end = len - anchor;
        let start = if end - size + 1 > 1 { end - size + 1 } else { 1 };
        if end <= 0 || start > end {
            None
        } else {
            Some((start, end))
        }
    } else {
        let start = anchor + 1;
        let end = if start + size - 1 < len { start + size - 1 } else { len };
        if start > len || start > end {
            None
        } else {
            Some((start, end))
        }
    }
}

/// The page at `anchor` of size `size`: the window's entries, reversed for
/// a descending page.
pub open spec fn page_at<T>(s: Seq<T>, anchor: int, size: int, desc: bool) -> Seq<T> {
    match window(s.len() as int, anchor, size, desc) {
        None => Seq::empty(),
        Some(w) => {
            let slice = s.subrange(w.0 - 1, w.1);
            if desc {
                slice.reverse()
            } else {
                slice
            }
        },
    }
}

/// The page that the parameters select.
pub open spec fn page_of<T>(s: Seq<T>, p: ParamsPage) -> Seq<T> {
    page_at(s, p.anchor as int, p.n as int, p.is_desc)
}

/// The window of a list of `len` entries, as `(start, end)`, 1-indexed and
/// inclusive; `None` for an empty page.
pub fn get_range(len: usize, p: &ParamsPage) -> (r: Option<(usize, usize)>)
    ensures
        r matches Some(w) ==> window(len as int, p.anchor as int, p.n as int, p.is_desc)
            == Some((w.0 as int, w.1 as int)),
        r is None ==> window(len as int, p.anchor as int, p.n as int, p.is_desc) is None,
{
    if p.anchor >= len || p.n == 0 {
        return None;
    }
    if p.is_desc {
        let end = len - p.anchor;
        let start = if p.n >= end { 1 } else { end - p.n + 1 };
        Some((start, end))
    } else {
        let start = p.anchor + 1;
        let end = if p.n >= len - p.anchor { len } else { p.anchor + p.n };
        Some((start, end))
    }
}

/// Cuts the page out of an ascending list, newest first when descending.
pub fn paginate<T: Copy>(s: &Vec<T>, p: &ParamsPage) -> (r: Vec<T>)
    ensures
        r@ == page_of(s@, *p),
{
    let mut out: Vec<T> = Vec::new();
    match get_range(s.len(), p) {
        None => {
            proof { assert(out@ =~= page_of(s@, *p)); }
            out
        },
        Some((start, end)) => {
            let ghost slice = s@.subrange(start - 1, end as int);
            if p.is_desc {
                let mut i: usize = end;
                while i >= start
                    invariant
                        1 <= start <= end <= s@.len(),
                        start - 1 <= i <= end,
                        slice == s@.subrange(start - 1, end as int),
                        out@ == slice.reverse().subrange(0, end - i),
                    decreases i,
                {
                    out.push(s[i - 1]);
                    proof {
                        assert(out@ =~= slice.reverse().subrange(0, end - i + 1));
                    }
                    i = i - 1;
                }
                proof {
                    assert(out@ =~= slice.reverse());
                }
                out
            } else {
                let mut i: usize = start - 1;
                while i < end
                    invariant
                        1 <= start <= end <= s@.len(),
                        start - 1 <= i <= end,
                        slice == s@.subrange(start - 1, end as int),
                        out@ == slice.subrange(0, i - (start - 1)),
                    decreases end - i,
                {
                    out.push(s[i]);
                    proof {
                        assert(out@ =~= slice.subrange(0, i - (start - 1) + 1));
                    }
                    i = i + 1;
                }
                proof {
                    assert(out@ =~= slice);
                }
                out
            }
        },
    }
}

/// A window lies inside the sequence: `1 <= start <= end <= len`, or the
/// page is empty.
pub proof fn lemma_window_in_bounds(len: int, anchor: int, size: int, desc: bool)
    requires
        len >= 0,
        anchor >= 0,
    ensures
        window(len, anchor, size, desc) matches Some(w) ==> 1 <= w.0 <= w.1 <= len,
{
}

/// Pages at anchors `anchor` and `anchor + size` tile the sequence: the
/// second starts right where the first stops, a full first page holds
/// `size` entries, and a first page after which nothing follows reaches
/// the end of the sequence. The first page of a nonempty sequence starts
/// at its chosen end.
pub proof fn lemma_windows_tile(len: int, anchor: int, size: int, desc: bool)
    requires
        len >= 0,
        anchor >= 0,
        size > 0,
    ensures
        window(len, anchor + size, size, desc) matches Some(w2) ==> (
            window(len, anchor, size, desc) matches Some(w1) && w1.1 - w1.0 + 1 == size && (
            if desc {
                w2.1 == w1.0 - 1
            } else {
                w2.0 == w1.1 + 1
            })),
        window(len, anchor + size, size, desc) is None ==> (
            window(len, anchor, size, desc) matches Some(w1) ==> (
            if desc {
                w1.0 == 1
            } else {
                w1.1 == len
            })),
        len > 0 ==> (window(len, 0, size, desc) matches Some(w0) && (
            if desc {
                w0.1 == len
            } else {
                w0.0 == 1
            })),
        anchor < len <==> window(len, anchor, size, desc) is Some,
{
}

/// The first `m` pages of size `size`, at anchors `0, size, 2 * size, ...`,
/// one after the other.
pub open spec fn pages_upto<T>(s: Seq<T>, size: int, desc: bool, m: nat) -> Seq<T>
    decreases m,
{
    if m == 0 {
        seq![]
    } else {
        pages_upto(s, size, desc, (m - 1) as nat) + page_at(s, (m - 1) * size, size, desc)
    }
}

/// Reading the pages in turn reads the sequence from its chosen end,
/// without gap or overlap: the first `m` pages are its first `m * size`
/// entries (newest first when descending), all of it once `m * size`
/// reaches its length, after which every page is empty.
pub proof fn lemma_pages_cover<T>(s: Seq<T>, size: int, desc: bool, m: nat)
    requires
        size > 0,
    ensures
        ({
            let whole = if desc { s.reverse() } else { s };
            let reach = if m * size < s.len() { m * size } else { s.len() as int };
            pages_upto(s, size, desc, m) == whole.subrange(0, reach)
        }),
        m * size >= s.len() ==> page_at(s, m * size, size, desc).len() == 0,
    decreases m,
{
    let len = s.len() as int;
    let whole = if desc { s.reverse() } else { s };
    if m == 0 {
        assert(whole.subrange(0, 0) =~= Seq::<T>::empty());
    } else {
        let m1 = (m - 1) as nat;
        lemma_pages_cover(s, size, desc, m1);
        let a = m1 * size;
        assert(m * size == a + size) by (nonlinear_arith)
            requires
                m1 == m - 1,
                a == m1 * size,
        ;
        assert(a >= 0) by (nonlinear_arith)
            requires
                a == m1 * size,
                size > 0,
        ;
        assert((m - 1) * size == a);
        assert(pages_upto(s, size, desc, m) == pages_upto(s, size, desc, m1) + page_at(s, a, size, desc));
        let reach0 = if a < len { a } else { len };
        let reach1 = if a + size < len { a + size } else { len };
        let page = page_at(s, a, size, desc);
        if a < len {
            if desc {
                let end = len - a;
                let start = if end - size + 1 > 1 { end - size + 1 } else { 1 };
                assert(page =~= whole.subrange(a, reach1)) by {
                    assert forall|j: int| 0 <= j < page.len() implies page[j] == whole.subrange(a, reach1)[j] by {
                        assert(s.subrange(start - 1, end).reverse()[j] == s[end - 1 - j]);
                    }
                }
            } else {
                assert(page =~= whole.subrange(a, reach1));
            }
            assert(whole.subrange(0, reach0) + whole.subrange(a, reach1) =~= whole.subrange(0, reach1));
        } else {
            assert(page =~= Seq::<T>::empty());
            assert(whole.subrange(0, reach0) + page =~= whole.subrange(0, reach1));
        }
        assert(pages_upto(s, size, desc, m) == whole.subrange(0, reach1));
    }
    if m * size >= len {
        assert(page_at(s, m * size, size, desc) =~= Seq::<T>::empty());
    }
}

} // verus!
