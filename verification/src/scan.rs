//! The marker scanner: finds every `{{...}}` placeholder in a buffer.
//!
//! A marker is `{{`, then one or more characters none of which is `}`, then
//! `}}`; its identity is its full literal text, delimiters included.
//! Matching is non-greedy and occurrences are taken left to right without
//! overlap.  The scanner returns the marker set as a lexicographically
//! sorted, duplicate-free list.

use vstd::prelude::*;
use crate::text::{
    chars_eq, copy_range, find_char, first_index_of, insert_sorted_unique,
    lemma_strictly_sorted_unique, strictly_sorted, views,
};

verus! {

/// Does a marker occurrence begin at the head of `s`?  The body runs to the
/// first `}`, which must not come at once (one body character at least) and
/// must be followed by a second `}`.
pub open spec fn marker_match(s: Seq<char>) -> bool {
    &&& s.len() >= 2
    &&& s[0] == '{'
    &&& s[1] == '{'
    &&& {
        let k = first_index_of(s.skip(2), '}');
        &&& k >= 1
        &&& 2 + k + 1 < s.len()
        &&& s[2 + k + 1] == '}'
    }
}

/// Length of the marker occurrence at the head of `s`.
pub open spec fn marker_end(s: Seq<char>) -> int {
    2 + first_index_of(s.skip(2), '}') + 2
}

/// Every marker occurrence in `s`, leftmost first, duplicates included.
pub open spec fn markers_of(s: Seq<char>) -> Seq<Seq<char>>
    decreases s.len(),
{
    if s.len() == 0 {
        Seq::empty()
    } else if marker_match(s) {
        seq![s.take(marker_end(s))] + markers_of(s.skip(marker_end(s)))
    } else {
        markers_of(s.skip(1))
    }
}

/// What a scan returns: the sorted, duplicate-free listing of the buffer's
/// marker set.
pub open spec fn is_marker_listing(text: Seq<char>, r: Seq<Seq<char>>) -> bool {
    &&& strictly_sorted(r)
    &&& forall|m: Seq<char>| r.contains(m) <==> markers_of(text).contains(m)
}

/// Scanning is a pure function of the buffer: two scans of the same buffer,
/// with no edit in between, return the same marker list.
pub proof fn lemma_scan_deterministic(text: Seq<char>, r1: Seq<Seq<char>>, r2: Seq<Seq<char>>)
    requires
        is_marker_listing(text, r1),
        is_marker_listing(text, r2),
    ensures
        r1 == r2,
{
    lemma_strictly_sorted_unique(r1, r2);
}

/// If a marker occurrence begins at position `i` of the buffer, its end
/// (exclusive); `None` otherwise.
fn marker_end_at(text: &Vec<char>, i: usize) -> (r: Option<usize>)
    requires
        i < text@.len(),
    ensures
        match r {
            Some(e) => marker_match(text@.skip(i as int)) && e == i + marker_end(
                text@.skip(i as int),
            ) && i + 5 <= e <= text@.len(),
            None => !marker_match(text@.skip(i as int)),
        },
{
    let ghost s = text@.skip(i as int);
    let n = text.len();
    if text[i] != '{' {
        return None;
    }
    if i + 1 >= n || text[i + 1] != '{' {
        proof {
            assert(s.len() >= 2 ==> s[1] == text@[i + 1]);
        }
        return None;
    }
    proof {
        assert(s.skip(2) =~= text@.skip(i + 2));
    }
    match find_char(text, i + 2, '}') {
        None => {
            return None;
        },
        Some(j) => {
            proof {
                assert(first_index_of(s.skip(2), '}') == j - (i + 2));
            }
            if j < i + 3 {
                // empty marker body: the grammar wants one or more characters
                return None;
            }
            if j + 1 >= n || text[j + 1] != '}' {
                proof {
                    let k = first_index_of(s.skip(2), '}');
                    assert(2 + k + 1 < s.len() ==> s[2 + k + 1] == text@[j + 1]);
                }
                return None;
            }
            proof {
                let k = first_index_of(s.skip(2), '}');
                assert(s[2 + k + 1] == text@[j + 1]);
                assert(marker_match(s));
            }
            Some(j + 2)
        },
    }
}

/// Scans the buffer and returns its marker set, sorted lexicographically.
pub fn scan_markers(text: &Vec<char>) -> (r: Vec<Vec<char>>)
    ensures
        is_marker_listing(text@, views(r@)),
{
    let n = text.len();
    let mut out: Vec<Vec<char>> = Vec::new();
    let mut i: usize = 0;
    proof {
        assert(text@.skip(0) =~= text@);
    }
    while i < n
        invariant
            i <= n,
            n == text@.len(),
            strictly_sorted(views(out@)),
            forall|m: Seq<char>|
                (views(out@).contains(m) || markers_of(text@.skip(i as int)).contains(m))
                    <==> markers_of(text@).contains(m),
        decreases n - i,
    {
        let ghost s = text@.skip(i as int);
        match marker_end_at(text, i) {
            Some(e) => {
                let marker = copy_range(text, i, e);
                proof {
                    assert(marker@ =~= s.take(marker_end(s)));
                    assert(s.skip(marker_end(s)) =~= text@.skip(e as int));
                    assert(markers_of(s) == seq![marker@] + markers_of(text@.skip(e as int)));
                }
                let ghost pre = views(out@);
                let ghost full = markers_of(text@);
                let ghost tail = markers_of(text@.skip(e as int));
                let ghost mk = marker@;
                insert_sorted_unique(&mut out, marker);
                i = e;
                proof {
                    let cat = seq![mk] + tail;
                    assert forall|m: Seq<char>|
                        (views(out@).contains(m) || tail.contains(m)) <==> full.contains(m) by {
                        assert(views(out@).contains(m) <==> (pre.contains(m) || m == mk));
                        assert((pre.contains(m) || cat.contains(m)) <==> full.contains(m));
                        if cat.contains(m) {
                            let k = choose|k: int| 0 <= k < cat.len() && cat[k] == m;
                            if k == 0 {
                                assert(m == mk);
                            } else {
                                assert(tail[k - 1] == m);
                            }
                        }
                        if m == mk {
                            assert(cat[0] == m);
                        }
                        if tail.contains(m) {
                            let k = choose|k: int| 0 <= k < tail.len() && tail[k] == m;
                            assert(cat[k + 1] == m);
                        }
                    }
                }
            },
            None => {
                proof {
                    assert(s.skip(1) =~= text@.skip(i + 1));
                    assert(markers_of(s) == markers_of(text@.skip(i + 1)));
                }
                i += 1;
            },
        }
    }
    proof {
        assert(text@.skip(n as int).len() == 0);
    }
    out
}

} // verus!
