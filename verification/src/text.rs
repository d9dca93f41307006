//! Primitives over character sequences: equality, substring matching, and
//! lexicographic order, with the lemmas the rest of the crate builds on.

use vstd::prelude::*;

verus! {

/// The pattern `pat` occurs in `text` starting at position `i`.
pub open spec fn is_match_at(text: Seq<char>, pat: Seq<char>, i: int) -> bool {
    0 <= i && i + pat.len() <= text.len() && text.subrange(i, i + pat.len() as int) == pat
}

/// Character-for-character equality of two buffers.
pub fn chars_eq(a: &Vec<char>, b: &Vec<char>) -> (r: bool)
    ensures
        r == (a@ == b@),
{
    if a.len() != b.len() {
        return false;
    }
    let mut i: usize = 0;
    while i < a.len()
        invariant
            i <= a.len(),
            a@.len() == b@.len(),
            forall|j: int| 0 <= j < i ==> a@[j] == b@[j],
        decreases a@.len() - i,
    {
        if a[i] != b[i] {
            return false;
        }
        i += 1;
    }
    proof {
        assert(a@ =~= b@);
    }
    true
}

/// Does `pat` occur in `text` at position `i`?
pub fn occurs_at(text: &Vec<char>, pat: &Vec<char>, i: usize) -> (r: bool)
    requires
        i + pat@.len() <= text@.len(),
    ensures
        r == is_match_at(text@, pat@, i as int),
{
    let n = text.len();
    let mut j: usize = 0;
    while j < pat.len()
        invariant
            j <= pat@.len(),
            i + pat@.len() <= text@.len(),
            n == text@.len(),
            forall|k: int| 0 <= k < j ==> text@[i + k] == pat@[k],
        decreases pat@.len() - j,
    {
        if text[i + j] != pat[j] {
            proof {
                assert(text@.subrange(i as int, i + pat@.len())[j as int] != pat@[j as int]);
            }
            return false;
        }
        j += 1;
    }
    proof {
        assert(text@.subrange(i as int, i + pat@.len()) =~= pat@);
    }
    true
}

/// Lexicographic order on character sequences, by code point; the order
/// `String`'s comparison induces on the underlying text.
pub open spec fn lex_leq(a: Seq<char>, b: Seq<char>) -> bool
    decreases a.len(),
{
    if a.len() == 0 {
        true
    } else if b.len() == 0 {
        false
    } else if a[0] == b[0] {
        lex_leq(a.skip(1), b.skip(1))
    } else {
        (a[0] as u32) < (b[0] as u32)
    }
}

pub open spec fn lex_lt(a: Seq<char>, b: Seq<char>) -> bool {
    lex_leq(a, b) && a != b
}

/// Distinct characters have distinct code points.
pub proof fn lemma_char_code_injective(a: char, b: char)
    ensures
        a as u32 == b as u32 ==> a == b,
{
    vstd::utf8::char_u32_cast(a, a as u32);
    vstd::utf8::char_u32_cast(b, b as u32);
}

pub proof fn lemma_lex_refl(a: Seq<char>)
    ensures
        lex_leq(a, a),
    decreases a.len(),
{
    if a.len() > 0 {
        lemma_lex_refl(a.skip(1));
    }
}

pub proof fn lemma_lex_total(a: Seq<char>, b: Seq<char>)
    ensures
        lex_leq(a, b) || lex_leq(b, a),
    decreases a.len(),
{
    if a.len() > 0 && b.len() > 0 {
        if a[0] == b[0] {
            lemma_lex_total(a.skip(1), b.skip(1));
        } else {
            lemma_char_code_injective(a[0], b[0]);
        }
    }
}

pub proof fn lemma_lex_antisym(a: Seq<char>, b: Seq<char>)
    requires
        lex_leq(a, b),
        lex_leq(b, a),
    ensures
        a == b,
    decreases a.len(),
{
    if a.len() == 0 {
        assert(b.len() == 0);
        assert(a =~= b);
    } else {
        assert(b.len() > 0);
        lemma_char_code_injective(a[0], b[0]);
        assert(a[0] == b[0]);
        lemma_lex_antisym(a.skip(1), b.skip(1));
        assert forall|i: int| 0 <= i < a.len() implies a[i] == b[i] by {
            if i >= 1 {
                assert(a.skip(1)[i - 1] == b.skip(1)[i - 1]);
            }
        }
        assert(a =~= b);
    }
}

pub proof fn lemma_lex_trans(a: Seq<char>, b: Seq<char>, c: Seq<char>)
    requires
        lex_leq(a, b),
        lex_leq(b, c),
    ensures
        lex_leq(a, c),
    decreases a.len(),
{
    if a.len() == 0 {
    } else if b.len() == 0 {
    } else if c.len() == 0 {
    } else {
        lemma_char_code_injective(a[0], b[0]);
        lemma_char_code_injective(b[0], c[0]);
        lemma_char_code_injective(a[0], c[0]);
        if a[0] == b[0] && b[0] == c[0] {
            lemma_lex_trans(a.skip(1), b.skip(1), c.skip(1));
        }
    }
}

/// Strict order version of transitivity, for sortedness arguments.
pub proof fn lemma_lex_lt_trans(a: Seq<char>, b: Seq<char>, c: Seq<char>)
    requires
        lex_lt(a, b),
        lex_lt(b, c),
    ensures
        lex_lt(a, c),
{
    lemma_lex_trans(a, b, c);
    if a == c {
        lemma_lex_antisym(a, b);
    }
}

/// Decides `lex_leq` on two buffers.
pub fn lex_leq_exec(a: &Vec<char>, b: &Vec<char>) -> (r: bool)
    ensures
        r == lex_leq(a@, b@),
{
    let mut i: usize = 0;
    let alen = a.len();
    let blen = b.len();
    proof {
        assert(a@.skip(0) =~= a@);
        assert(b@.skip(0) =~= b@);
    }
    while i < alen && i < blen
        invariant
            alen == a@.len(),
            blen == b@.len(),
            i <= alen,
            i <= blen,
            lex_leq(a@, b@) == lex_leq(a@.skip(i as int), b@.skip(i as int)),
        decreases alen - i,
    {
        let x = a[i];
        let y = b[i];
        if x != y {
            proof {
                assert(a@.skip(i as int)[0] == x);
                assert(b@.skip(i as int)[0] == y);
            }
            return (x as u32) < (y as u32);
        }
        proof {
            assert(a@.skip(i as int).skip(1) =~= a@.skip(i + 1));
            assert(b@.skip(i as int).skip(1) =~= b@.skip(i + 1));
        }
        i += 1;
    }
    proof {
        if i >= alen {
            assert(a@.skip(i as int).len() == 0);
        } else {
            assert(b@.skip(i as int).len() == 0);
            assert(a@.skip(i as int).len() > 0);
        }
    }
    alen <= blen
}

/// The mathematical contents of a list of buffers.
pub open spec fn views(s: Seq<Vec<char>>) -> Seq<Seq<char>> {
    Seq::new(s.len(), |i: int| s[i]@)
}

/// A sequence of texts in strictly increasing lexicographic order; such a
/// sequence has no duplicates and is the canonical listing of its elements.
pub open spec fn strictly_sorted(s: Seq<Seq<char>>) -> bool {
    forall|i: int, j: int| 0 <= i < j < s.len() ==> lex_lt(s[i], s[j])
}

/// In a strictly sorted sequence the first element is least.
pub proof fn lemma_sorted_first_min(s: Seq<Seq<char>>, x: Seq<char>)
    requires
        strictly_sorted(s),
        s.len() > 0,
        s.contains(x),
    ensures
        lex_leq(s[0], x),
{
    let j = choose|j: int| 0 <= j < s.len() && s[j] == x;
    if j == 0 {
        lemma_lex_refl(x);
    } else {
        assert(lex_lt(s[0], s[j]));
    }
}

/// Two strictly sorted sequences with the same elements are the same
/// sequence: listing a set in order is canonical.
pub proof fn lemma_strictly_sorted_unique(s1: Seq<Seq<char>>, s2: Seq<Seq<char>>)
    requires
        strictly_sorted(s1),
        strictly_sorted(s2),
        forall|x: Seq<char>| s1.contains(x) <==> s2.contains(x),
    ensures
        s1 == s2,
    decreases s1.len(),
{
    if s1.len() == 0 && s2.len() == 0 {
        assert(s1 =~= s2);
    } else if s1.len() == 0 {
        assert(s2.contains(s2[0]));
        assert(false);
    } else if s2.len() == 0 {
        assert(s1.contains(s1[0]));
        assert(false);
    } else {
        assert(s1.contains(s1[0])) by {
            assert(s1[0] == s1[0]);
        }
        assert(s2.contains(s2[0])) by {
            assert(s2[0] == s2[0]);
        }
        lemma_sorted_first_min(s2, s1[0]);
        lemma_sorted_first_min(s1, s2[0]);
        lemma_lex_antisym(s1[0], s2[0]);
        assert forall|x: Seq<char>| s1.skip(1).contains(x) implies s2.skip(1).contains(x) by {
            let k = choose|k: int| 0 <= k < s1.skip(1).len() && s1.skip(1)[k] == x;
            assert(s1[k + 1] == x);
            assert(s1.contains(x));
            let m = choose|m: int| 0 <= m < s2.len() && s2[m] == x;
            assert(lex_lt(s1[0], x));
            if m == 0 {
                assert(x == s1[0]);
            } else {
                assert(s2.skip(1)[m - 1] == x);
            }
        }
        assert forall|x: Seq<char>| s2.skip(1).contains(x) implies s1.skip(1).contains(x) by {
            let k = choose|k: int| 0 <= k < s2.skip(1).len() && s2.skip(1)[k] == x;
            assert(s2[k + 1] == x);
            assert(s2.contains(x));
            let m = choose|m: int| 0 <= m < s1.len() && s1[m] == x;
            assert(lex_lt(s2[0], x));
            if m == 0 {
                assert(x == s2[0]);
            } else {
                assert(s1.skip(1)[m - 1] == x);
            }
        }
        lemma_strictly_sorted_unique(s1.skip(1), s2.skip(1));
        assert forall|i: int| 0 <= i < s1.len() implies s1[i] == s2[i] by {
            if i >= 1 {
                assert(s1.skip(1)[i - 1] == s2.skip(1)[i - 1]);
            }
        }
        assert(s1 =~= s2);
    }
}

/// Inserts `item` into a strictly sorted list, keeping it sorted and
/// duplicate-free; a no-op when the item is already present.
pub fn insert_sorted_unique(list: &mut Vec<Vec<char>>, item: Vec<char>)
    requires
        strictly_sorted(views(old(list)@)),
    ensures
        strictly_sorted(views(final(list)@)),
        forall|x: Seq<char>|
            views(final(list)@).contains(x) <==> (views(old(list)@).contains(x) || x == item@),
{
    let ghost dv = views(list@);
    let mut i: usize = 0;
    loop
        invariant_except_break
            i <= list@.len(),
            list@ == old(list)@,
            dv == views(list@),
            forall|j: int| 0 <= j < i ==> lex_lt(dv[j], item@),
        ensures
            i <= list@.len(),
            list@ == old(list)@,
            forall|j: int| 0 <= j < i ==> lex_lt(dv[j], item@),
            i < list@.len() ==> !lex_lt(dv[i as int], item@),
        decreases list@.len() - i,
    {
        if i >= list.len() {
            break ;
        }
        let leq = lex_leq_exec(&list[i], &item);
        let eq = chars_eq(&list[i], &item);
        if !leq || eq {
            break ;
        }
        i += 1;
    }
    if i < list.len() {
        let eq = chars_eq(&list[i], &item);
        if eq {
            assert(views(list@).contains(item@)) by {
                assert(views(list@)[i as int] == item@);
            }
            return ;
        }
        proof {
            lemma_lex_total(dv[i as int], item@);
            assert(lex_lt(item@, dv[i as int]));
        }
    }
    proof {
        dv.insert_ensures(i as int, item@);
    }
    list.insert(i, item);
    proof {
        let dv2 = views(list@);
        assert(dv2 =~= dv.insert(i as int, item@));
        assert(dv2.len() == dv.len() + 1);
        assert(forall|j: int| 0 <= j < i ==> dv2[j] == dv[j]);
        assert(dv2[i as int] == item@);
        assert(forall|j: int| i <= j < dv.len() ==> dv2[j + 1] == dv[j]);
        assert forall|p: int, q: int| 0 <= p < q < dv2.len() implies lex_lt(dv2[p], dv2[q]) by {
            if q < i {
            } else if p < i && q == i {
            } else if p < i && q > i {
                assert(dv2[q] == dv[q - 1]);
                if q - 1 > i {
                    lemma_lex_lt_trans(dv[p], dv[i as int], dv[q - 1]);
                } else {
                    assert(q - 1 == i);
                    assert(lex_lt(dv2[p], dv[i as int]));
                }
            } else if p == i {
                assert(lex_lt(item@, dv[i as int]));
                assert(dv2[q] == dv[q - 1]);
                if q - 1 > i {
                    lemma_lex_lt_trans(item@, dv[i as int], dv[q - 1]);
                }
            } else {
                assert(dv2[p] == dv[p - 1]);
                assert(dv2[q] == dv[q - 1]);
            }
        }
        assert forall|x: Seq<char>| dv2.contains(x) implies (dv.contains(x) || x == item@) by {
            let k = choose|k: int| 0 <= k < dv2.len() && dv2[k] == x;
            if k < i {
                assert(dv[k] == x);
            } else if k > i {
                assert(dv2[k] == dv[k - 1]);
                assert(dv[k - 1] == x);
            }
        }
        assert forall|x: Seq<char>| dv.contains(x) || x == item@ implies dv2.contains(x) by {
            if x == item@ {
                assert(dv2[i as int] == x);
            } else {
                let k = choose|k: int| 0 <= k < dv.len() && dv[k] == x;
                if k < i {
                    assert(dv2[k] == x);
                } else {
                    assert(dv2[k + 1] == x);
                }
            }
        }
    }
}

/// A sequence of texts in non-decreasing lexicographic order; duplicates
/// may stand next to each other.
pub open spec fn sorted_leq(s: Seq<Seq<char>>) -> bool {
    forall|i: int, j: int| 0 <= i < j < s.len() ==> lex_leq(s[i], s[j])
}

/// How often `x` occurs in `s`.
pub open spec fn count_of(s: Seq<Seq<char>>, x: Seq<char>) -> nat
    decreases s.len(),
{
    if s.len() == 0 {
        0nat
    } else {
        (if s[0] == x {
            1nat
        } else {
            0nat
        }) + count_of(s.skip(1), x)
    }
}

/// Inserting one element raises its count by one and no other.
pub proof fn lemma_count_insert(s: Seq<Seq<char>>, i: int, v: Seq<char>, x: Seq<char>)
    requires
        0 <= i <= s.len(),
    ensures
        count_of(s.insert(i, v), x) == count_of(s, x) + (if v == x {
            1nat
        } else {
            0nat
        }),
    decreases i,
{
    let s2 = s.insert(i, v);
    s.insert_ensures(i, v);
    if i == 0 {
        assert(s2[0] == v);
        assert(s2.skip(1) =~= s);
    } else {
        assert(s2[0] == s[0]);
        assert(s2.skip(1) =~= s.skip(1).insert(i - 1, v));
        lemma_count_insert(s.skip(1), i - 1, v, x);
    }
}

/// Inserts `item` into a sorted list, keeping it sorted; an item already
/// present is kept again, so counts are preserved exactly.
pub fn insert_sorted(list: &mut Vec<Vec<char>>, item: Vec<char>)
    requires
        sorted_leq(views(old(list)@)),
    ensures
        sorted_leq(views(final(list)@)),
        forall|x: Seq<char>|
            count_of(views(final(list)@), x) == count_of(views(old(list)@), x) + (if x == item@ {
                1nat
            } else {
                0nat
            }),
{
    let ghost dv = views(list@);
    let mut i: usize = 0;
    loop
        invariant_except_break
            i <= list@.len(),
            list@ == old(list)@,
            dv == views(list@),
            forall|j: int| 0 <= j < i ==> lex_leq(dv[j], item@),
        ensures
            i <= list@.len(),
            list@ == old(list)@,
            forall|j: int| 0 <= j < i ==> lex_leq(dv[j], item@),
            i < list@.len() ==> lex_leq(item@, dv[i as int]),
        decreases list@.len() - i,
    {
        if i >= list.len() {
            break ;
        }
        let leq = lex_leq_exec(&list[i], &item);
        let eq = chars_eq(&list[i], &item);
        if !leq || eq {
            proof {
                if eq {
                    lemma_lex_refl(item@);
                } else {
                    lemma_lex_total(dv[i as int], item@);
                }
            }
            break ;
        }
        i += 1;
    }
    proof {
        dv.insert_ensures(i as int, item@);
    }
    list.insert(i, item);
    proof {
        let dv2 = views(list@);
        assert(dv2 =~= dv.insert(i as int, item@));
        assert forall|p: int, q: int| 0 <= p < q < dv2.len() implies lex_leq(dv2[p], dv2[q]) by {
            if q < i {
            } else if p < i && q == i {
            } else if p < i && q > i {
                assert(dv2[q] == dv[q - 1]);
                assert(lex_leq(dv[p], dv[q - 1]));
            } else if p == i {
                assert(dv2[q] == dv[q - 1]);
                assert(lex_leq(item@, dv[i as int]));
                if q - 1 > i {
                    lemma_lex_trans(item@, dv[i as int], dv[q - 1]);
                }
            } else {
                assert(dv2[p] == dv[p - 1]);
                assert(dv2[q] == dv[q - 1]);
            }
        }
        assert forall|x: Seq<char>|
            count_of(dv2, x) == count_of(dv, x) + (if x == item@ {
                1nat
            } else {
                0nat
            }) by {
            lemma_count_insert(dv, i as int, item@, x);
        }
    }
}

/// Position of the first occurrence of `c` in `s`, or -1 when there is none.
pub open spec fn first_index_of(s: Seq<char>, c: char) -> int
    decreases s.len(),
{
    if s.len() == 0 {
        -1
    } else if s[0] == c {
        0
    } else if first_index_of(s.skip(1), c) == -1 {
        -1
    } else {
        1 + first_index_of(s.skip(1), c)
    }
}

pub proof fn lemma_first_index_of(s: Seq<char>, c: char)
    ensures
        -1 <= first_index_of(s, c) < s.len(),
        first_index_of(s, c) == -1 ==> forall|i: int| 0 <= i < s.len() ==> s[i] != c,
        first_index_of(s, c) >= 0 ==> s[first_index_of(s, c)] == c && forall|i: int|
            0 <= i < first_index_of(s, c) ==> s[i] != c,
    decreases s.len(),
{
    if s.len() > 0 && s[0] != c {
        lemma_first_index_of(s.skip(1), c);
        let k1 = first_index_of(s.skip(1), c);
        if k1 == -1 {
            assert forall|i: int| 0 <= i < s.len() implies s[i] != c by {
                if i >= 1 {
                    assert(s.skip(1)[i - 1] != c);
                }
            }
        } else {
            let k = first_index_of(s, c);
            assert(k == 1 + k1);
            assert(s[k] == c) by {
                assert(s.skip(1)[k1] == c);
            }
            assert forall|i: int| 0 <= i < k implies s[i] != c by {
                if i >= 1 {
                    assert(s.skip(1)[i - 1] != c);
                }
            }
        }
    }
}

/// Finds the first occurrence of `c` at or after `from`.
pub fn find_char(text: &Vec<char>, from: usize, c: char) -> (r: Option<usize>)
    requires
        from <= text@.len(),
    ensures
        match r {
            Some(j) => from <= j < text@.len() && first_index_of(text@.skip(from as int), c) == j
                - from,
            None => first_index_of(text@.skip(from as int), c) == -1,
        },
{
    let n = text.len();
    let mut j: usize = from;
    while j < n
        invariant
            from <= j <= n,
            n == text@.len(),
            first_index_of(text@.skip(from as int), c) == (if first_index_of(
                text@.skip(j as int),
                c,
            ) == -1 {
                -1
            } else {
                first_index_of(text@.skip(j as int), c) + (j - from)
            }),
        decreases n - j,
    {
        if text[j] == c {
            proof {
                assert(text@.skip(j as int)[0] == c);
            }
            return Some(j);
        }
        proof {
            let a = text@.skip(j as int);
            assert(a[0] == text@[j as int]);
            assert(a[0] != c);
            assert(a.skip(1) =~= text@.skip(j + 1));
            lemma_first_index_of(text@.skip(j + 1), c);
        }
        j += 1;
    }
    proof {
        assert(text@.skip(n as int).len() == 0);
    }
    None
}

/// Appends all of `piece` to `out`.
pub fn append_all(out: &mut Vec<char>, piece: &Vec<char>)
    ensures
        final(out)@ == old(out)@ + piece@,
{
    let ghost base = out@;
    let n = piece.len();
    let mut j: usize = 0;
    while j < n
        invariant
            j <= n,
            n == piece@.len(),
            out@ == base + piece@.take(j as int),
        decreases n - j,
    {
        out.push(piece[j]);
        proof {
            assert(base + piece@.take(j as int) + seq![piece@[j as int]] =~= base + piece@.take(
                j + 1,
            ));
        }
        j += 1;
    }
    proof {
        assert(piece@.take(n as int) =~= piece@);
    }
}

/// A copy of `text[from..to)`.
pub fn copy_range(text: &Vec<char>, from: usize, to: usize) -> (r: Vec<char>)
    requires
        from <= to <= text@.len(),
    ensures
        r@ == text@.subrange(from as int, to as int),
{
    let mut r: Vec<char> = Vec::new();
    let mut i: usize = from;
    while i < to
        invariant
            from <= i <= to <= text@.len(),
            r@ == text@.subrange(from as int, i as int),
        decreases to - i,
    {
        r.push(text[i]);
        proof {
            assert(r@ =~= text@.subrange(from as int, i + 1));
        }
        i += 1;
    }
    r
}

} // verus!
