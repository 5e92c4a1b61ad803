//! Splitting a byte string on a needle: every piece (`split_str`), at most a
//! given number of pieces from the left (`splitn_str`) and at most a given number
//! of pieces from the right (`rsplitn_str`).
use vstd::prelude::*;

use crate::search::{
    advance, backward_matches, bytes_at, find_first, find_last, first_occurrence, forward_matches,
    last_occurrence, lemma_first_occurrence, lemma_first_occurrence_bytewise,
    lemma_last_occurrence, lemma_last_occurrence_bytewise, lemma_search_counts_agree,
};

verus! {

/// The bytes of each piece.
pub open spec fn pieces_view(pieces: Seq<Vec<u8>>) -> Seq<Seq<u8>> {
    pieces.map_values(|p: Vec<u8>| p@)
}

/// The matches of a left-to-right search over the whole haystack.
pub open spec fn split_matches(h: Seq<u8>, n: Seq<u8>) -> Seq<int> {
    forward_matches(h, n, 0, h.len() as int)
}

/// The matches of a right-to-left search over the whole haystack.
pub open spec fn rsplit_matches(h: Seq<u8>, n: Seq<u8>) -> Seq<int> {
    backward_matches(h, n, 0, h.len() as int)
}

/// Where the `k`-th piece from the left starts: the haystack's start, or the end
/// of the match before it.
pub open spec fn piece_start(n: Seq<u8>, ms: Seq<int>, k: int) -> int {
    if k == 0 {
        0
    } else {
        ms[k - 1] + n.len()
    }
}

/// Where the `k`-th piece from the left ends: the start of the `k`-th match, or
/// the haystack's end.
pub open spec fn piece_end(h: Seq<u8>, ms: Seq<int>, k: int) -> int {
    if k < ms.len() {
        ms[k]
    } else {
        h.len() as int
    }
}

/// Where the `k`-th piece from the right ends: the haystack's end, or the start
/// of the match after it.
pub open spec fn rpiece_end(h: Seq<u8>, ms: Seq<int>, k: int) -> int {
    if k == 0 {
        h.len() as int
    } else {
        ms[k - 1]
    }
}

/// Where the `k`-th piece from the right starts: the end of the `k`-th match from
/// the right, or the haystack's start.
pub open spec fn rpiece_start(n: Seq<u8>, ms: Seq<int>, k: int) -> int {
    if k < ms.len() {
        ms[k] + n.len()
    } else {
        0
    }
}

/// The pieces between the matches of a left-to-right search, one more than there
/// are matches.
pub open spec fn split_pieces(h: Seq<u8>, n: Seq<u8>) -> Seq<Seq<u8>> {
    let ms = split_matches(h, n);
    Seq::new(
        (ms.len() + 1) as nat,
        |k: int| h.subrange(piece_start(n, ms, k), piece_end(h, ms, k)),
    )
}

/// At most `limit` pieces from the left; when the limit cuts the splitting
/// short, the last piece is the whole rest of the haystack.
pub open spec fn splitn_pieces(h: Seq<u8>, n: Seq<u8>, limit: int) -> Seq<Seq<u8>> {
    let ms = split_matches(h, n);
    if limit <= 0 {
        Seq::empty()
    } else if limit > ms.len() {
        split_pieces(h, n)
    } else {
        split_pieces(h, n).take(limit - 1).push(
            h.subrange(piece_start(n, ms, limit - 1), h.len() as int),
        )
    }
}

/// The pieces between the matches of a right-to-left search, from the right.
pub open spec fn rsplit_pieces(h: Seq<u8>, n: Seq<u8>) -> Seq<Seq<u8>> {
    let ms = rsplit_matches(h, n);
    Seq::new(
        (ms.len() + 1) as nat,
        |k: int| h.subrange(rpiece_start(n, ms, k), rpiece_end(h, ms, k)),
    )
}

/// At most `limit` pieces from the right; when the limit cuts the splitting
/// short, the last piece is the whole rest of the haystack up to there.
pub open spec fn rsplitn_pieces(h: Seq<u8>, n: Seq<u8>, limit: int) -> Seq<Seq<u8>> {
    let ms = rsplit_matches(h, n);
    if limit <= 0 {
        Seq::empty()
    } else if limit > ms.len() {
        rsplit_pieces(h, n)
    } else {
        rsplit_pieces(h, n).take(limit - 1).push(h.subrange(0, rpiece_end(h, ms, limit - 1)))
    }
}

proof fn lemma_forward_matches_bounds(h: Seq<u8>, n: Seq<u8>, a: int, e: int)
    requires
        0 <= a,
        e <= h.len(),
    ensures
        forall|k: int|
            0 <= k < forward_matches(h, n, a, e).len() ==> a <= #[trigger] forward_matches(
                h,
                n,
                a,
                e,
            )[k] && forward_matches(h, n, a, e)[k] + n.len() <= e,
        forall|k: int|
            0 <= k < forward_matches(h, n, a, e).len() - 1 ==> forward_matches(h, n, a, e)[k]
                + advance(n) <= #[trigger] forward_matches(h, n, a, e)[k + 1],
    decreases e + 1 - a,
{
    lemma_first_occurrence(h, n, a, e);
    match first_occurrence(h, n, a, e) {
        None => {},
        Some(f) => {
            let rest = forward_matches(h, n, f + advance(n), e);
            lemma_forward_matches_bounds(h, n, f + advance(n), e);
            let ms = forward_matches(h, n, a, e);
            assert(ms == seq![f] + rest);
            assert forall|k: int| 0 <= k < ms.len() - 1 implies ms[k] + advance(n)
                <= #[trigger] ms[k + 1] by {
                assert(ms[k + 1] == rest[k]);
                if k > 0 {
                    let j = k - 1;
                    assert(ms[k] == rest[j]);
                    assert(rest[j] + advance(n) <= rest[j + 1]);
                } else {
                    assert(f + advance(n) <= rest[0]);
                }
            }
        },
    }
}

proof fn lemma_backward_matches_bounds(h: Seq<u8>, n: Seq<u8>, a: int, e: int)
    requires
        0 <= a,
        e <= h.len(),
    ensures
        forall|k: int|
            0 <= k < backward_matches(h, n, a, e).len() ==> a <= #[trigger] backward_matches(
                h,
                n,
                a,
                e,
            )[k] && backward_matches(h, n, a, e)[k] + n.len() <= e,
        forall|k: int|
            0 <= k < backward_matches(h, n, a, e).len() - 1 ==> #[trigger] backward_matches(
                h,
                n,
                a,
                e,
            )[k + 1] + n.len() <= backward_matches(h, n, a, e)[k],
    decreases e + 1 - a,
{
    lemma_last_occurrence(h, n, a, e);
    match last_occurrence(h, n, a, e) {
        None => {},
        Some(r) => {
            let e2 = if r < e {
                r
            } else {
                r - 1
            };
            let rest = backward_matches(h, n, a, e2);
            lemma_backward_matches_bounds(h, n, a, e2);
            let ms = backward_matches(h, n, a, e);
            assert(ms == seq![r] + rest);
            assert forall|k: int| 0 <= k < ms.len() - 1 implies #[trigger] ms[k + 1] + n.len()
                <= ms[k] by {
                assert(ms[k + 1] == rest[k]);
                if k > 0 {
                    let j = k - 1;
                    assert(ms[k] == rest[j]);
                    assert(rest[j + 1] + n.len() <= rest[j]);
                } else {
                    assert(rest[0] + n.len() <= e2);
                }
            }
        },
    }
}

/// A copy of `h[a..b]`.
fn copy_range(h: &[u8], a: usize, b: usize) -> (r: Vec<u8>)
    requires
        a <= b <= h@.len(),
    ensures
        r@ == h@.subrange(a as int, b as int),
{
    let mut r: Vec<u8> = Vec::new();
    let mut i = a;
    while i < b
        invariant
            a <= i <= b <= h@.len(),
            r@ == h@.subrange(a as int, i as int),
        decreases b - i,
    {
        r.push(h[i]);
        i += 1;
        assert(r@ =~= h@.subrange(a as int, i as int));
    }
    r
}

/// Splits `haystack` at every match of `needle`, left to right. An empty needle
/// matches at every position, so the pieces are an empty piece, every byte on its
/// own, and another empty piece.
pub fn split_str(haystack: &[u8], needle: &[u8]) -> (pieces: Vec<Vec<u8>>)
    ensures
        pieces_view(pieces@) == split_pieces(haystack@, needle@),
        joined(pieces_view(pieces@), needle@) == haystack@,
        (forall|k: int| !#[trigger] bytes_at(haystack@, needle@, k)) ==> pieces_view(pieces@)
            == seq![haystack@],
{
    proof {
        lemma_split_rejoins(haystack@, needle@);
        if forall|k: int| !#[trigger] bytes_at(haystack@, needle@, k) {
            lemma_split_without_needle(haystack@, needle@, 1);
        }
    }
    splitn_core(haystack, needle, 0, false)
}

/// Splits `haystack` at the matches of `needle`, left to right, into at most
/// `limit` pieces.
pub fn splitn_str(haystack: &[u8], limit: usize, needle: &[u8]) -> (pieces: Vec<Vec<u8>>)
    ensures
        pieces_view(pieces@) == splitn_pieces(haystack@, needle@, limit as int),
        limit >= 1 ==> joined(pieces_view(pieces@), needle@) == haystack@,
        limit >= 1 && (forall|k: int| !#[trigger] bytes_at(haystack@, needle@, k))
            ==> pieces_view(pieces@) == seq![haystack@],
{
    proof {
        if limit >= 1 {
            lemma_splitn_rejoins(haystack@, needle@, limit as int);
            if forall|k: int| !#[trigger] bytes_at(haystack@, needle@, k) {
                lemma_split_without_needle(haystack@, needle@, limit as int);
            }
        }
    }
    if limit == 0 {
        assert(pieces_view(Seq::<Vec<u8>>::empty()) =~= Seq::<Seq<u8>>::empty());
        return Vec::new();
    }
    splitn_core(haystack, needle, limit, true)
}

/// Splits left to right; with `bounded`, into at most `limit` pieces.
fn splitn_core(h: &[u8], n: &[u8], limit: usize, bounded: bool) -> (pieces: Vec<Vec<u8>>)
    requires
        bounded ==> limit >= 1,
    ensures
        bounded ==> pieces_view(pieces@) == splitn_pieces(h@, n@, limit as int),
        !bounded ==> pieces_view(pieces@) == split_pieces(h@, n@),
{
    let ghost ms = split_matches(h@, n@);
    let ghost all = split_pieces(h@, n@);
    proof {
        lemma_forward_matches_bounds(h@, n@, 0, h@.len() as int);
    }
    let hl = h.len();
    let mut pieces: Vec<Vec<u8>> = Vec::new();
    let mut last: usize = 0;
    let mut pos: usize = 0;
    loop
        invariant
            hl == h@.len(),
            bounded ==> limit >= 1,
            bounded ==> pieces@.len() < limit,
            pieces@.len() <= ms.len(),
            ms == split_matches(h@, n@),
            all == split_pieces(h@, n@),
            forall|k: int|
                0 <= k < ms.len() ==> 0 <= #[trigger] ms[k] && ms[k] + n@.len() <= h@.len(),
            forall|k: int| 0 <= k < ms.len() - 1 ==> ms[k] + advance(n@) <= #[trigger] ms[k + 1],
            pos <= hl,
            forward_matches(h@, n@, pos as int, hl as int) == ms.skip(pieces@.len() as int),
            last == piece_start(n@, ms, pieces@.len() as int),
            last <= hl,
            pieces@.len() > 0 ==> pos == ms[pieces@.len() - 1] + advance(n@),
            pieces@.len() == 0 ==> pos == 0,
            forall|k: int| 0 <= k < pieces@.len() ==> (#[trigger] pieces@[k])@ == all[k],
        decreases hl + 1 - pos,
    {
        let k = pieces.len();
        if bounded && k + 1 == limit {
            let rest = copy_range(h, last, hl);
            pieces.push(rest);
            proof {
                let want = splitn_pieces(h@, n@, limit as int);
                assert(pieces_view(pieces@) =~= want);
            }
            return pieces;
        }
        proof {
            lemma_first_occurrence(h@, n@, pos as int, hl as int);
        }
        match find_first(h, n, pos, hl) {
            Some(m) => {
                proof {
                    assert(forward_matches(h@, n@, pos as int, hl as int) == seq![m as int]
                        + forward_matches(h@, n@, m + advance(n@), hl as int));
                    assert(ms.skip(k as int)[0] == ms[k as int]);
                    assert(ms.skip(k as int + 1) =~= ms.skip(k as int).drop_first());
                    if k > 0 {
                        assert(ms[k - 1] + advance(n@) <= ms[k as int]);
                    }
                }
                let piece = copy_range(h, last, m);
                pieces.push(piece);
                last = m + n.len();
                if m == hl {
                    proof {
                        assert(first_occurrence(h@, n@, m + advance(n@), hl as int) is None);
                        assert(ms.skip(k as int + 1).len() == 0);
                    }
                    let rest = copy_range(h, last, hl);
                    pieces.push(rest);
                    proof {
                        if bounded {
                            assert(pieces_view(pieces@) =~= splitn_pieces(h@, n@, limit as int));
                        } else {
                            assert(pieces_view(pieces@) =~= all);
                        }
                    }
                    return pieces;
                }
                pos = if n.len() == 0 {
                    m + 1
                } else {
                    m + n.len()
                };
            },
            None => {
                proof {
                    assert(ms.skip(k as int).len() == 0);
                }
                let rest = copy_range(h, last, hl);
                pieces.push(rest);
                proof {
                    if bounded {
                        assert(pieces_view(pieces@) =~= splitn_pieces(h@, n@, limit as int));
                    } else {
                        assert(pieces_view(pieces@) =~= all);
                    }
                }
                return pieces;
            },
        }
    }
}

/// Splits `haystack` at the matches of `needle`, right to left, into at most
/// `limit` pieces; the pieces come out from the right.
pub fn rsplitn_str(haystack: &[u8], limit: usize, needle: &[u8]) -> (pieces: Vec<Vec<u8>>)
    ensures
        pieces_view(pieces@) == rsplitn_pieces(haystack@, needle@, limit as int),
        limit >= 1 ==> joined(pieces_view(pieces@).reverse(), needle@) == haystack@,
        limit >= 1 && (forall|k: int| !#[trigger] bytes_at(haystack@, needle@, k))
            ==> pieces_view(pieces@) == seq![haystack@],
{
    proof {
        if limit >= 1 {
            lemma_rsplit_rejoins(haystack@, needle@, limit as int);
            if forall|k: int| !#[trigger] bytes_at(haystack@, needle@, k) {
                lemma_split_without_needle(haystack@, needle@, limit as int);
            }
        }
    }
    if limit == 0 {
        assert(pieces_view(Seq::<Vec<u8>>::empty()) =~= Seq::<Seq<u8>>::empty());
        return Vec::new();
    }
    rsplitn_core(haystack, needle, limit)
}

fn rsplitn_core(h: &[u8], n: &[u8], limit: usize) -> (pieces: Vec<Vec<u8>>)
    requires
        limit >= 1,
    ensures
        pieces_view(pieces@) == rsplitn_pieces(h@, n@, limit as int),
{
    let ghost ms = rsplit_matches(h@, n@);
    let ghost all = rsplit_pieces(h@, n@);
    proof {
        lemma_backward_matches_bounds(h@, n@, 0, h@.len() as int);
    }
    let hl = h.len();
    let mut pieces: Vec<Vec<u8>> = Vec::new();
    let mut last: usize = hl;
    let mut end: usize = hl;
    let mut exhausted = false;
    loop
        invariant
            hl == h@.len(),
            limit >= 1,
            pieces@.len() < limit,
            pieces@.len() <= ms.len(),
            ms == rsplit_matches(h@, n@),
            all == rsplit_pieces(h@, n@),
            forall|k: int|
                0 <= k < ms.len() ==> 0 <= #[trigger] ms[k] && ms[k] + n@.len() <= h@.len(),
            forall|k: int| 0 <= k < ms.len() - 1 ==> #[trigger] ms[k + 1] + n@.len() <= ms[k],
            end <= hl,
            backward_matches(
                h@,
                n@,
                0,
                if exhausted {
                    -1
                } else {
                    end as int
                },
            ) == ms.skip(pieces@.len() as int),
            last == rpiece_end(h@, ms, pieces@.len() as int),
            last <= hl,
            !exhausted ==> end <= last,
            forall|k: int| 0 <= k < pieces@.len() ==> (#[trigger] pieces@[k])@ == all[k],
        decreases
                if exhausted {
                    0
                } else {
                    end + 1
                },
    {
        let k = pieces.len();
        if k + 1 == limit {
            let rest = copy_range(h, 0, last);
            pieces.push(rest);
            proof {
                assert(pieces_view(pieces@) =~= rsplitn_pieces(h@, n@, limit as int));
            }
            return pieces;
        }
        let found = if exhausted {
            None
        } else {
            find_last(h, n, 0, end)
        };
        match found {
            Some(i) => {
                proof {
                    lemma_last_occurrence(h@, n@, 0, end as int);
                    let e2 = if i < end {
                        i as int
                    } else {
                        i - 1
                    };
                    assert(backward_matches(h@, n@, 0, end as int) == seq![i as int]
                        + backward_matches(h@, n@, 0, e2));
                    assert(ms.skip(k as int)[0] == ms[k as int]);
                    assert(ms.skip(k as int + 1) =~= ms.skip(k as int).drop_first());
                }
                let piece = copy_range(h, i + n.len(), last);
                pieces.push(piece);
                last = i;
                if i == end {
                    if i == 0 {
                        exhausted = true;
                    } else {
                        end = i - 1;
                    }
                } else {
                    end = i;
                }
            },
            None => {
                proof {
                    if exhausted {
                        assert(backward_matches(h@, n@, 0, -1) =~= Seq::<int>::empty());
                    }
                    assert(ms.skip(k as int).len() == 0);
                }
                let rest = copy_range(h, 0, last);
                pieces.push(rest);
                proof {
                    assert(pieces_view(pieces@) =~= rsplitn_pieces(h@, n@, limit as int));
                }
                return pieces;
            },
        }
    }
}

/// Splitting into at most `limit` pieces from the left gives as many pieces as
/// the limit, or as splitting without a limit gives, whichever is fewer.
pub proof fn lemma_splitn_count(h: Seq<u8>, n: Seq<u8>, limit: int)
    requires
        limit >= 0,
    ensures
        splitn_pieces(h, n, limit).len() == if limit < split_pieces(h, n).len() {
            limit
        } else {
            split_pieces(h, n).len() as int
        },
{
}

/// Splitting into at most `limit` pieces from the right gives as many pieces as
/// the limit, or as splitting without a limit from the left gives, whichever is
/// fewer.
pub proof fn lemma_rsplitn_count(h: Seq<u8>, n: Seq<u8>, limit: int)
    requires
        limit >= 0,
    ensures
        rsplitn_pieces(h, n, limit).len() == if limit < split_pieces(h, n).len() {
            limit
        } else {
            split_pieces(h, n).len() as int
        },
{
    lemma_search_counts_agree(h, n);
}

/// The pieces put back together, with `sep` between each two of them.
pub open spec fn joined(pieces: Seq<Seq<u8>>, sep: Seq<u8>) -> Seq<u8>
    decreases pieces.len(),
{
    if pieces.len() == 0 {
        Seq::empty()
    } else if pieces.len() == 1 {
        pieces[0]
    } else {
        joined(pieces.drop_last(), sep) + sep + pieces.last()
    }
}

proof fn lemma_forward_matches_occur(h: Seq<u8>, n: Seq<u8>, a: int, e: int)
    requires
        0 <= a,
        e <= h.len(),
    ensures
        forall|k: int|
            0 <= k < forward_matches(h, n, a, e).len() ==> bytes_at(
                h,
                n,
                #[trigger] forward_matches(h, n, a, e)[k],
            ),
    decreases e + 1 - a,
{
    lemma_first_occurrence_bytewise(h, n, a, e);
    match first_occurrence(h, n, a, e) {
        None => {},
        Some(f) => {
            lemma_first_occurrence(h, n, a, e);
            lemma_forward_matches_occur(h, n, f + advance(n), e);
            let rest = forward_matches(h, n, f + advance(n), e);
            let ms = forward_matches(h, n, a, e);
            assert(ms == seq![f] + rest);
            assert forall|k: int| 0 <= k < ms.len() implies bytes_at(h, n, #[trigger] ms[k]) by {
                if k > 0 {
                    assert(ms[k] == rest[k - 1]);
                }
            }
        },
    }
}

proof fn lemma_backward_matches_occur(h: Seq<u8>, n: Seq<u8>, a: int, e: int)
    requires
        0 <= a,
        e <= h.len(),
    ensures
        forall|k: int|
            0 <= k < backward_matches(h, n, a, e).len() ==> bytes_at(
                h,
                n,
                #[trigger] backward_matches(h, n, a, e)[k],
            ),
    decreases e + 1 - a,
{
    lemma_last_occurrence_bytewise(h, n, a, e);
    match last_occurrence(h, n, a, e) {
        None => {},
        Some(r) => {
            lemma_last_occurrence(h, n, a, e);
            let e2 = if r < e {
                r
            } else {
                r - 1
            };
            lemma_backward_matches_occur(h, n, a, e2);
            let rest = backward_matches(h, n, a, e2);
            let ms = backward_matches(h, n, a, e);
            assert(ms == seq![r] + rest);
            assert forall|k: int| 0 <= k < ms.len() implies bytes_at(h, n, #[trigger] ms[k]) by {
                if k > 0 {
                    assert(ms[k] == rest[k - 1]);
                }
            }
        },
    }
}

/// The needle's bytes, read back out of the haystack where it was found.
proof fn lemma_bytes_at_subrange(h: Seq<u8>, n: Seq<u8>, i: int)
    requires
        bytes_at(h, n, i),
    ensures
        h.subrange(i, i + n.len()) == n,
{
    assert(h.subrange(i, i + n.len()) =~= n);
}

proof fn lemma_split_prefix_rejoins(h: Seq<u8>, n: Seq<u8>, k: int)
    requires
        0 <= k <= split_matches(h, n).len(),
    ensures
        joined(split_pieces(h, n).take(k + 1), n) == h.subrange(
            0,
            piece_end(h, split_matches(h, n), k),
        ),
    decreases k,
{
    let ms = split_matches(h, n);
    let ps = split_pieces(h, n);
    lemma_forward_matches_bounds(h, n, 0, h.len() as int);
    lemma_forward_matches_occur(h, n, 0, h.len() as int);
    if k == 0 {
        assert(ps.take(1) =~= seq![ps[0]]);
    } else {
        lemma_split_prefix_rejoins(h, n, k - 1);
        let m = ms[k - 1];
        assert(bytes_at(h, n, m));
        lemma_bytes_at_subrange(h, n, m);
        assert(ps.take(k + 1).drop_last() =~= ps.take(k));
        assert(ps.take(k + 1).last() == ps[k]);
        let pe = piece_end(h, ms, k);
        if k < ms.len() {
            assert(m + advance(n) <= ms[k]);
        }
        assert(m + n.len() <= pe);
        assert(ps[k] == h.subrange(m + n.len(), pe));
        assert(h.subrange(0, m) + h.subrange(m, m + n.len()) + h.subrange(m + n.len(), pe)
            =~= h.subrange(0, pe));
    }
}

/// Splitting loses nothing: the pieces of `split_str`, joined with the needle
/// between each two, give back the haystack. Each cut is made where the
/// haystack holds the needle byte for byte.
pub proof fn lemma_split_rejoins(h: Seq<u8>, n: Seq<u8>)
    ensures
        joined(split_pieces(h, n), n) == h,
{
    let ms = split_matches(h, n);
    lemma_split_prefix_rejoins(h, n, ms.len() as int);
    assert(split_pieces(h, n).take(ms.len() + 1 as int) =~= split_pieces(h, n));
    assert(h.subrange(0, h.len() as int) =~= h);
}

/// Splitting into at most `limit` pieces from the left loses nothing either:
/// joined with the needle, the pieces give back the haystack.
pub proof fn lemma_splitn_rejoins(h: Seq<u8>, n: Seq<u8>, limit: int)
    requires
        limit >= 1,
    ensures
        joined(splitn_pieces(h, n, limit), n) == h,
{
    let ms = split_matches(h, n);
    let ps = split_pieces(h, n);
    if limit > ms.len() {
        lemma_split_rejoins(h, n);
    } else if limit == 1 {
        assert(h.subrange(0, h.len() as int) =~= h);
    } else {
        lemma_forward_matches_bounds(h, n, 0, h.len() as int);
        lemma_forward_matches_occur(h, n, 0, h.len() as int);
        let k = limit - 2;
        lemma_split_prefix_rejoins(h, n, k);
        let m = ms[k];
        lemma_bytes_at_subrange(h, n, m);
        let out = splitn_pieces(h, n, limit);
        assert(out.drop_last() =~= ps.take(k + 1));
        assert(out.last() == h.subrange(m + n.len(), h.len() as int));
        assert(h.subrange(0, m) + h.subrange(m, m + n.len()) + h.subrange(
            m + n.len(),
            h.len() as int,
        ) =~= h);
    }
}

proof fn lemma_joined_prepend(x: Seq<u8>, ps: Seq<Seq<u8>>, sep: Seq<u8>)
    requires
        ps.len() >= 1,
    ensures
        joined(seq![x] + ps, sep) == x + sep + joined(ps, sep),
    decreases ps.len(),
{
    let all = seq![x] + ps;
    if ps.len() == 1 {
        assert(all.drop_last() =~= seq![x]);
        assert(joined(seq![x], sep) == x);
        assert(all.last() == ps[0]);
        assert(joined(ps, sep) == ps[0]);
    } else {
        lemma_joined_prepend(x, ps.drop_last(), sep);
        assert(all.drop_last() =~= seq![x] + ps.drop_last());
        assert(all.last() == ps.last());
        assert(joined(ps, sep) == joined(ps.drop_last(), sep) + sep + ps.last());
        assert(joined(all, sep) == joined(all.drop_last(), sep) + sep + all.last());
        assert(x + sep + joined(ps.drop_last(), sep) + sep + ps.last() =~= x + sep + (joined(
            ps.drop_last(),
            sep,
        ) + sep + ps.last()));
    }
}

proof fn lemma_rsplit_suffix_rejoins(h: Seq<u8>, n: Seq<u8>, k: int)
    requires
        0 <= k <= rsplit_matches(h, n).len(),
    ensures
        joined(rsplit_pieces(h, n).take(k + 1).reverse(), n) == h.subrange(
            rpiece_start(n, rsplit_matches(h, n), k),
            h.len() as int,
        ),
    decreases k,
{
    let ms = rsplit_matches(h, n);
    let ps = rsplit_pieces(h, n);
    lemma_backward_matches_bounds(h, n, 0, h.len() as int);
    lemma_backward_matches_occur(h, n, 0, h.len() as int);
    if k == 0 {
        assert(ps.take(1).reverse() =~= seq![ps[0]]);
    } else {
        lemma_rsplit_suffix_rejoins(h, n, k - 1);
        let m = ms[k - 1];
        assert(bytes_at(h, n, m));
        lemma_bytes_at_subrange(h, n, m);
        assert(ps.take(k + 1).reverse() =~= seq![ps[k]] + ps.take(k).reverse());
        lemma_joined_prepend(ps[k], ps.take(k).reverse(), n);
        let st = rpiece_start(n, ms, k);
        if k < ms.len() {
            assert(ms[k] + n.len() <= m);
        }
        assert(0 <= st <= m);
        assert(ps[k] == h.subrange(st, m));
        assert(h.subrange(st, m) + h.subrange(m, m + n.len()) + h.subrange(
            m + n.len(),
            h.len() as int,
        ) =~= h.subrange(st, h.len() as int));
    }
}

/// Splitting from the right loses nothing: the pieces of the right-to-left
/// split, put back in left-to-right order and joined with the needle, give back
/// the haystack; so do the at most `limit` pieces of `rsplitn_str`.
pub proof fn lemma_rsplit_rejoins(h: Seq<u8>, n: Seq<u8>, limit: int)
    requires
        limit >= 1,
    ensures
        joined(rsplit_pieces(h, n).reverse(), n) == h,
        joined(rsplitn_pieces(h, n, limit).reverse(), n) == h,
{
    let ms = rsplit_matches(h, n);
    let ps = rsplit_pieces(h, n);
    lemma_rsplit_suffix_rejoins(h, n, ms.len() as int);
    assert(ps.take(ms.len() + 1 as int) =~= ps);
    assert(h.subrange(0, h.len() as int) =~= h);
    if limit > ms.len() {
    } else if limit == 1 {
        assert(rsplitn_pieces(h, n, limit).reverse() =~= seq![h]);
    } else {
        lemma_backward_matches_bounds(h, n, 0, h.len() as int);
        lemma_backward_matches_occur(h, n, 0, h.len() as int);
        let k = limit - 2;
        lemma_rsplit_suffix_rejoins(h, n, k);
        let m = ms[k];
        lemma_bytes_at_subrange(h, n, m);
        let out = rsplitn_pieces(h, n, limit);
        assert(out.reverse() =~= seq![h.subrange(0, m)] + ps.take(k + 1).reverse());
        lemma_joined_prepend(h.subrange(0, m), ps.take(k + 1).reverse(), n);
        assert(h.subrange(0, m) + h.subrange(m, m + n.len()) + h.subrange(
            m + n.len(),
            h.len() as int,
        ) =~= h);
    }
}

/// A haystack that holds the needle nowhere, byte for byte, is not cut at all:
/// every form of splitting gives the haystack as its one piece.
pub proof fn lemma_split_without_needle(h: Seq<u8>, n: Seq<u8>, limit: int)
    requires
        forall|k: int| !#[trigger] bytes_at(h, n, k),
        limit >= 1,
    ensures
        split_pieces(h, n) == seq![h],
        splitn_pieces(h, n, limit) == seq![h],
        rsplit_pieces(h, n) == seq![h],
        rsplitn_pieces(h, n, limit) == seq![h],
{
    lemma_first_occurrence_bytewise(h, n, 0, h.len() as int);
    lemma_last_occurrence_bytewise(h, n, 0, h.len() as int);
    assert(split_matches(h, n).len() == 0);
    assert(rsplit_matches(h, n).len() == 0);
    assert(h.subrange(0, h.len() as int) =~= h);
    assert(split_pieces(h, n) =~= seq![h]);
    assert(rsplit_pieces(h, n) =~= seq![h]);
}

} // verus!
