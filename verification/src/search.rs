//! Substring search over byte strings: leftmost and rightmost occurrences of a
//! needle inside a window of a haystack, the greedy match sequences that the
//! splitting iterators walk, and the theorem that both greedy directions find
//! equally many matches.
use vstd::prelude::*;

verus! {

/// `n` occurs in `h` starting at index `i`.
pub open spec fn occurs_at(h: Seq<u8>, n: Seq<u8>, i: int) -> bool {
    0 <= i && i + n.len() <= h.len() && h.subrange(i, i + n.len()) == n
}

/// `n` occurs at `i`, entirely inside the window `[a, e)`.
pub open spec fn occurs_in(h: Seq<u8>, n: Seq<u8>, a: int, e: int, i: int) -> bool {
    a <= i && i + n.len() <= e && occurs_at(h, n, i)
}

/// `n` occurs somewhere in `h`.
pub open spec fn contains_occurrence(h: Seq<u8>, n: Seq<u8>) -> bool {
    exists|i: int| #[trigger] occurs_at(h, n, i)
}

/// How far a forward search moves past a match: the needle's length, and at
/// least one byte (so that an empty needle matches at every position once).
pub open spec fn advance(n: Seq<u8>) -> int {
    if n.len() == 0 {
        1
    } else {
        n.len() as int
    }
}

/// Leftmost occurrence of `n` inside the window `[a, e)` of `h`.
pub open spec fn first_occurrence(h: Seq<u8>, n: Seq<u8>, a: int, e: int) -> Option<int>
    decreases e + 1 - a,
{
    if a < 0 || e > h.len() || a + n.len() > e {
        None
    } else if occurs_at(h, n, a) {
        Some(a)
    } else {
        first_occurrence(h, n, a + 1, e)
    }
}

/// Rightmost occurrence of `n` inside the window `[a, e)` of `h`.
pub open spec fn last_occurrence(h: Seq<u8>, n: Seq<u8>, a: int, e: int) -> Option<int>
    decreases e + 1 - a,
{
    if a < 0 || e > h.len() || a + n.len() > e {
        None
    } else if occurs_at(h, n, e - n.len()) {
        Some(e - n.len())
    } else {
        last_occurrence(h, n, a, e - 1)
    }
}

/// What `first_occurrence` finds: an occurrence in the window with none before it,
/// or, for a window inside `h`, the fact that the window holds no occurrence.
pub proof fn lemma_first_occurrence(h: Seq<u8>, n: Seq<u8>, a: int, e: int)
    ensures
        match first_occurrence(h, n, a, e) {
            Some(f) => {
                &&& occurs_in(h, n, a, e, f)
                &&& forall|i: int| a <= i < f ==> !#[trigger] occurs_at(h, n, i)
            },
            None => (0 <= a && e <= h.len()) ==> forall|i: int|
                !#[trigger] occurs_in(h, n, a, e, i),
        },
    decreases e + 1 - a,
{
    if a < 0 || e > h.len() || a + n.len() > e {
    } else if occurs_at(h, n, a) {
    } else {
        lemma_first_occurrence(h, n, a + 1, e);
        match first_occurrence(h, n, a + 1, e) {
            Some(f) => {
                assert forall|i: int| a <= i < f implies !#[trigger] occurs_at(h, n, i) by {
                    if i > a {
                        assert(a + 1 <= i);
                    }
                }
            },
            None => {
                assert forall|i: int| !#[trigger] occurs_in(h, n, a, e, i) by {
                    if occurs_in(h, n, a, e, i) && i > a {
                        assert(occurs_in(h, n, a + 1, e, i));
                    }
                }
            },
        }
    }
}

/// What `last_occurrence` finds: an occurrence in the window with none after it,
/// or, for a window inside `h`, the fact that the window holds no occurrence.
pub proof fn lemma_last_occurrence(h: Seq<u8>, n: Seq<u8>, a: int, e: int)
    ensures
        match last_occurrence(h, n, a, e) {
            Some(r) => {
                &&& occurs_in(h, n, a, e, r)
                &&& forall|i: int| r < i && i + n.len() <= e ==> !#[trigger] occurs_at(h, n, i)
            },
            None => (0 <= a && e <= h.len()) ==> forall|i: int|
                !#[trigger] occurs_in(h, n, a, e, i),
        },
    decreases e + 1 - a,
{
    if a < 0 || e > h.len() || a + n.len() > e {
    } else if occurs_at(h, n, e - n.len()) {
    } else {
        lemma_last_occurrence(h, n, a, e - 1);
        match last_occurrence(h, n, a, e - 1) {
            Some(r) => {
                assert forall|i: int| r < i && i + n.len() <= e implies !#[trigger] occurs_at(
                    h,
                    n,
                    i,
                ) by {
                    if i + n.len() < e {
                        assert(i + n.len() <= e - 1);
                    }
                }
            },
            None => {
                assert forall|i: int| !#[trigger] occurs_in(h, n, a, e, i) by {
                    if occurs_in(h, n, a, e, i) && i + n.len() < e {
                        assert(occurs_in(h, n, a, e - 1, i));
                    }
                }
            },
        }
    }
}

/// The matches that a left-to-right search finds in the window `[a, e)`: the
/// leftmost one, then the leftmost one at or after `advance(n)` bytes past it,
/// and so on.
pub open spec fn forward_matches(h: Seq<u8>, n: Seq<u8>, a: int, e: int) -> Seq<int>
    decreases e + 1 - a,
{
    match first_occurrence(h, n, a, e) {
        None => Seq::empty(),
        Some(f) => {
            proof {
                lemma_first_occurrence(h, n, a, e);
            }
            seq![f] + forward_matches(h, n, f + advance(n), e)
        },
    }
}

/// The matches that a right-to-left search finds in the window `[a, e)`: the
/// rightmost one, then the rightmost one that ends at or before its start, and so
/// on (an empty needle moves one byte left after a match at the window's end).
pub open spec fn backward_matches(h: Seq<u8>, n: Seq<u8>, a: int, e: int) -> Seq<int>
    decreases e + 1 - a,
{
    match last_occurrence(h, n, a, e) {
        None => Seq::empty(),
        Some(r) => {
            proof {
                lemma_last_occurrence(h, n, a, e);
            }
            seq![r] + backward_matches(
                h,
                n,
                a,
                if r < e {
                    r
                } else {
                    r - 1
                },
            )
        },
    }
}

/// A non-empty needle is found equally often by a left-to-right greedy search and
/// by a right-to-left greedy search over the same window.
pub proof fn lemma_greedy_counts_agree(h: Seq<u8>, n: Seq<u8>, a: int, e: int)
    requires
        n.len() >= 1,
        0 <= a <= e <= h.len(),
    ensures
        forward_matches(h, n, a, e).len() == backward_matches(h, n, a, e).len(),
    decreases e - a,
{
    let nl = n.len() as int;
    lemma_first_occurrence(h, n, a, e);
    lemma_last_occurrence(h, n, a, e);
    match first_occurrence(h, n, a, e) {
        None => {
            match last_occurrence(h, n, a, e) {
                None => {},
                Some(r) => {
                    assert(occurs_in(h, n, a, e, r));
                },
            }
        },
        Some(f) => {
            match last_occurrence(h, n, a, e) {
                None => {
                    assert(occurs_in(h, n, a, e, f));
                },
                Some(r) => {
                    if r < f {
                        assert(occurs_at(h, n, r));
                    }
                    assert(f <= r);
                    assert(r < e);
                    lemma_greedy_counts_agree(h, n, f + nl, e);
                    lemma_greedy_counts_agree(h, n, a, r);
                    assert(forward_matches(h, n, a, e).len() == 1 + forward_matches(
                        h,
                        n,
                        f + nl,
                        e,
                    ).len());
                    assert(backward_matches(h, n, a, e).len() == 1 + backward_matches(
                        h,
                        n,
                        a,
                        r,
                    ).len());
                    lemma_first_occurrence(h, n, a, r);
                    lemma_last_occurrence(h, n, f + nl, e);
                    if f + nl <= r {
                        match first_occurrence(h, n, a, r) {
                            None => {
                                assert(occurs_in(h, n, a, r, f));
                            },
                            Some(f2) => {
                                if f2 < f {
                                    assert(occurs_at(h, n, f2));
                                }
                                if f < f2 {
                                    assert(occurs_at(h, n, f));
                                }
                                assert(f2 == f);
                            },
                        }
                        match last_occurrence(h, n, f + nl, e) {
                            None => {
                                assert(occurs_in(h, n, f + nl, e, r));
                            },
                            Some(r2) => {
                                if r2 < r {
                                    assert(occurs_at(h, n, r));
                                }
                                if r < r2 {
                                    assert(occurs_at(h, n, r2));
                                }
                                assert(r2 == r);
                            },
                        }
                        lemma_greedy_counts_agree(h, n, f + nl, r);
                    } else {
                        match first_occurrence(h, n, a, r) {
                            None => {},
                            Some(f2) => {
                                if f2 < f {
                                    assert(occurs_at(h, n, f2));
                                }
                                assert(false);
                            },
                        }
                        match last_occurrence(h, n, f + nl, e) {
                            None => {},
                            Some(r2) => {
                                if r < r2 {
                                    assert(occurs_at(h, n, r2));
                                }
                                assert(false);
                            },
                        }
                    }
                },
            }
        },
    }
}

/// The bytes of `h` from `i` on are those of `n`, one by one.
pub open spec fn bytes_at(h: Seq<u8>, n: Seq<u8>, i: int) -> bool {
    &&& 0 <= i
    &&& i + n.len() <= h.len()
    &&& forall|j: int| 0 <= j < n.len() ==> h[i + j] == n[j]
}

/// An occurrence is exactly a place where the haystack holds every byte of the
/// needle, in order.
pub proof fn lemma_occurrence_is_bytewise(h: Seq<u8>, n: Seq<u8>, i: int)
    ensures
        occurs_at(h, n, i) <==> bytes_at(h, n, i),
{
    if occurs_at(h, n, i) {
        assert forall|j: int| 0 <= j < n.len() implies h[i + j] == n[j] by {
            assert(h.subrange(i, i + n.len())[j] == h[i + j]);
        }
    }
    if bytes_at(h, n, i) {
        assert(h.subrange(i, i + n.len()) =~= n);
    }
}

/// What a leftmost search of the window `[a, e)` reports: a position where the
/// haystack holds the needle byte for byte, with no such position before it in
/// the window; or no position, when the window holds the needle nowhere.
pub proof fn lemma_first_occurrence_bytewise(h: Seq<u8>, n: Seq<u8>, a: int, e: int)
    requires
        0 <= a,
        e <= h.len(),
    ensures
        match first_occurrence(h, n, a, e) {
            Some(i) => {
                &&& a <= i
                &&& i + n.len() <= e
                &&& bytes_at(h, n, i)
                &&& forall|k: int| a <= k < i ==> !#[trigger] bytes_at(h, n, k)
            },
            None => forall|k: int| a <= k && k + n.len() <= e ==> !#[trigger] bytes_at(h, n, k),
        },
{
    lemma_first_occurrence(h, n, a, e);
    match first_occurrence(h, n, a, e) {
        Some(i) => {
            lemma_occurrence_is_bytewise(h, n, i);
            assert forall|k: int| a <= k < i implies !#[trigger] bytes_at(h, n, k) by {
                lemma_occurrence_is_bytewise(h, n, k);
            }
        },
        None => {
            assert forall|k: int| a <= k && k + n.len() <= e implies !#[trigger] bytes_at(
                h,
                n,
                k,
            ) by {
                lemma_occurrence_is_bytewise(h, n, k);
                assert(!occurs_in(h, n, a, e, k));
            }
        },
    }
}

/// What a rightmost search of the window `[a, e)` reports: a position where the
/// haystack holds the needle byte for byte, with no such position after it in
/// the window; or no position, when the window holds the needle nowhere.
pub proof fn lemma_last_occurrence_bytewise(h: Seq<u8>, n: Seq<u8>, a: int, e: int)
    requires
        0 <= a,
        e <= h.len(),
    ensures
        match last_occurrence(h, n, a, e) {
            Some(i) => {
                &&& a <= i
                &&& i + n.len() <= e
                &&& bytes_at(h, n, i)
                &&& forall|k: int| i < k && k + n.len() <= e ==> !#[trigger] bytes_at(h, n, k)
            },
            None => forall|k: int| a <= k && k + n.len() <= e ==> !#[trigger] bytes_at(h, n, k),
        },
{
    lemma_last_occurrence(h, n, a, e);
    match last_occurrence(h, n, a, e) {
        Some(i) => {
            lemma_occurrence_is_bytewise(h, n, i);
            assert forall|k: int| i < k && k + n.len() <= e implies !#[trigger] bytes_at(
                h,
                n,
                k,
            ) by {
                lemma_occurrence_is_bytewise(h, n, k);
            }
        },
        None => {
            assert forall|k: int| a <= k && k + n.len() <= e implies !#[trigger] bytes_at(
                h,
                n,
                k,
            ) by {
                lemma_occurrence_is_bytewise(h, n, k);
                assert(!occurs_in(h, n, a, e, k));
            }
        },
    }
}

/// Whether `n` occurs in `h` at index `i`.
fn occurs_here(h: &[u8], n: &[u8], i: usize) -> (r: bool)
    requires
        i + n@.len() <= h@.len(),
    ensures
        r == occurs_at(h@, n@, i as int),
{
    let hl = h.len();
    let mut k: usize = 0;
    while k < n.len()
        invariant
            hl == h@.len(),
            k <= n@.len(),
            i + n@.len() <= h@.len(),
            forall|j: int| 0 <= j < k ==> h@[i + j] == n@[j],
        decreases n@.len() - k,
    {
        if h[i + k] != n[k] {
            assert(h@.subrange(i as int, i + n@.len())[k as int] != n@[k as int]);
            return false;
        }
        k += 1;
    }
    assert(h@.subrange(i as int, i + n@.len()) =~= n@);
    true
}

/// The leftmost occurrence of `needle` inside `haystack[start..end]`.
pub fn find_first(haystack: &[u8], needle: &[u8], start: usize, end: usize) -> (r: Option<usize>)
    requires
        end <= haystack@.len(),
    ensures
        match r {
            Some(i) => first_occurrence(haystack@, needle@, start as int, end as int) == Some(
                i as int,
            ),
            None => first_occurrence(haystack@, needle@, start as int, end as int) is None,
        },
        match r {
            Some(i) => {
                &&& start <= i
                &&& i + needle@.len() <= end
                &&& forall|j: int| 0 <= j < needle@.len() ==> haystack@[i + j] == needle@[j]
                &&& forall|k: int| start <= k < i ==> !#[trigger] bytes_at(haystack@, needle@, k)
            },
            None => forall|k: int|
                start <= k && k + needle@.len() <= end ==> !#[trigger] bytes_at(
                    haystack@,
                    needle@,
                    k,
                ),
        },
{
    let r = find_first_in_window(haystack, needle, start, end);
    proof {
        lemma_first_occurrence_bytewise(haystack@, needle@, start as int, end as int);
    }
    r
}

/// The leftmost occurrence of `needle` inside `haystack[start..end]`, found by
/// trying each position from the left.
fn find_first_in_window(haystack: &[u8], needle: &[u8], start: usize, end: usize) -> (r: Option<usize>)
    requires
        end <= haystack@.len(),
    ensures
        match r {
            Some(i) => first_occurrence(haystack@, needle@, start as int, end as int) == Some(
                i as int,
            ),
            None => first_occurrence(haystack@, needle@, start as int, end as int) is None,
        },
{
    if needle.len() > end {
        return None;
    }
    let bound = end - needle.len();
    if start > bound {
        return None;
    }
    let mut i = start;
    loop
        invariant
            start <= i <= bound,
            bound + needle@.len() == end,
            end <= haystack@.len(),
            first_occurrence(haystack@, needle@, start as int, end as int) == first_occurrence(
                haystack@,
                needle@,
                i as int,
                end as int,
            ),
        decreases bound - i,
    {
        if occurs_here(haystack, needle, i) {
            return Some(i);
        }
        if i == bound {
            assert(first_occurrence(haystack@, needle@, i + 1, end as int) is None);
            return None;
        }
        i += 1;
    }
}

/// The rightmost occurrence of `needle` inside `haystack[start..end]`.
pub fn find_last(haystack: &[u8], needle: &[u8], start: usize, end: usize) -> (r: Option<usize>)
    requires
        end <= haystack@.len(),
    ensures
        match r {
            Some(i) => last_occurrence(haystack@, needle@, start as int, end as int) == Some(
                i as int,
            ),
            None => last_occurrence(haystack@, needle@, start as int, end as int) is None,
        },
        match r {
            Some(i) => {
                &&& start <= i
                &&& i + needle@.len() <= end
                &&& forall|j: int| 0 <= j < needle@.len() ==> haystack@[i + j] == needle@[j]
                &&& forall|k: int|
                    i < k && k + needle@.len() <= end ==> !#[trigger] bytes_at(
                        haystack@,
                        needle@,
                        k,
                    )
            },
            None => forall|k: int|
                start <= k && k + needle@.len() <= end ==> !#[trigger] bytes_at(
                    haystack@,
                    needle@,
                    k,
                ),
        },
{
    let r = find_last_in_window(haystack, needle, start, end);
    proof {
        lemma_last_occurrence_bytewise(haystack@, needle@, start as int, end as int);
    }
    r
}

/// The rightmost occurrence of `needle` inside `haystack[start..end]`, found by
/// trying each position from the right.
fn find_last_in_window(haystack: &[u8], needle: &[u8], start: usize, end: usize) -> (r: Option<usize>)
    requires
        end <= haystack@.len(),
    ensures
        match r {
            Some(i) => last_occurrence(haystack@, needle@, start as int, end as int) == Some(
                i as int,
            ),
            None => last_occurrence(haystack@, needle@, start as int, end as int) is None,
        },
{
    if needle.len() > end {
        return None;
    }
    if start > end - needle.len() {
        return None;
    }
    let mut e = end;
    loop
        invariant
            start + needle@.len() <= e <= end,
            end <= haystack@.len(),
            last_occurrence(haystack@, needle@, start as int, end as int) == last_occurrence(
                haystack@,
                needle@,
                start as int,
                e as int,
            ),
        decreases e,
    {
        let i = e - needle.len();
        if occurs_here(haystack, needle, i) {
            return Some(i);
        }
        if i == start {
            assert(last_occurrence(haystack@, needle@, start as int, e - 1) is None);
            return None;
        }
        e -= 1;
    }
}

/// An empty needle matches at every position of the window `[a, e]`, so a
/// left-to-right search finds it `e - a + 1` times.
pub proof fn lemma_empty_needle_forward_count(h: Seq<u8>, n: Seq<u8>, a: int, e: int)
    requires
        n.len() == 0,
        0 <= a <= e + 1,
        e <= h.len(),
    ensures
        forward_matches(h, n, a, e).len() == e - a + 1,
    decreases e + 1 - a,
{
    if a <= e {
        assert(h.subrange(a, a) =~= n);
        assert(occurs_at(h, n, a));
        lemma_empty_needle_forward_count(h, n, a + 1, e);
    }
}

/// An empty needle matches at every position of the window `[0, e]`, so a
/// right-to-left search finds it `e + 1` times.
pub proof fn lemma_empty_needle_backward_count(h: Seq<u8>, n: Seq<u8>, e: int)
    requires
        n.len() == 0,
        -1 <= e <= h.len(),
    ensures
        backward_matches(h, n, 0, e).len() == e + 1,
    decreases e + 1,
{
    if e >= 0 {
        assert(h.subrange(e, e) =~= n);
        assert(occurs_at(h, n, e));
        lemma_empty_needle_backward_count(h, n, e - 1);
    }
}

/// A needle is found equally often by a left-to-right greedy search and by a
/// right-to-left greedy search over the whole haystack.
pub proof fn lemma_search_counts_agree(h: Seq<u8>, n: Seq<u8>)
    ensures
        forward_matches(h, n, 0, h.len() as int).len() == backward_matches(
            h,
            n,
            0,
            h.len() as int,
        ).len(),
{
    if n.len() == 0 {
        lemma_empty_needle_forward_count(h, n, 0, h.len() as int);
        lemma_empty_needle_backward_count(h, n, h.len() as int);
    } else {
        lemma_greedy_counts_agree(h, n, 0, h.len() as int);
    }
}

} // verus!
