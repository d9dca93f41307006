//! The substitution engine: applies the value store to a buffer.
//!
//! For every marker with a non-empty value, all literal occurrences of the
//! marker are replaced by the value.  Replacement is exact literal matching,
//! leftmost first and non-overlapping, and the replacement text is never
//! rescanned: each marker is processed in one pass over the buffer, in the
//! store's (sorted, hence deterministic) order.

use vstd::prelude::*;
use crate::store::ValueMap;
use crate::text::{append_all, copy_range, occurs_at};

verus! {

/// Replaces every occurrence of `pat` in `text` by `repl`, leftmost first,
/// never rescanning replacement text.  The empty pattern replaces nothing.
pub open spec fn replace_all(text: Seq<char>, pat: Seq<char>, repl: Seq<char>) -> Seq<char>
    decreases text.len(),
{
    if pat.len() == 0 || text.len() < pat.len() {
        text
    } else if text.take(pat.len() as int) == pat {
        repl + replace_all(text.skip(pat.len() as int), pat, repl)
    } else {
        seq![text[0]] + replace_all(text.skip(1), pat, repl)
    }
}

/// Applies the pairs in order: a pair with a non-empty value replaces every
/// occurrence of its marker; a pair with an empty value changes nothing.
pub open spec fn apply_pairs(text: Seq<char>, ps: Seq<(Seq<char>, Seq<char>)>) -> Seq<char>
    decreases ps.len(),
{
    if ps.len() == 0 {
        text
    } else {
        let t2 = if ps[0].1.len() > 0 {
            replace_all(text, ps[0].0, ps[0].1)
        } else {
            text
        };
        apply_pairs(t2, ps.skip(1))
    }
}

/// Substitution with an all-empty value map leaves the buffer unchanged.
pub proof fn lemma_apply_all_empty(text: Seq<char>, ps: Seq<(Seq<char>, Seq<char>)>)
    requires
        forall|i: int| 0 <= i < ps.len() ==> ps[i].1.len() == 0,
    ensures
        apply_pairs(text, ps) == text,
    decreases ps.len(),
{
    if ps.len() > 0 {
        assert(forall|i: int| 0 <= i < ps.skip(1).len() ==> ps.skip(1)[i] == ps[i + 1]);
        lemma_apply_all_empty(text, ps.skip(1));
    }
}

/// Replaces every occurrence of `pat` in `text` by `repl`.
pub fn replace_all_exec(text: &Vec<char>, pat: &Vec<char>, repl: &Vec<char>) -> (r: Vec<char>)
    requires
        pat@.len() > 0,
    ensures
        r@ == replace_all(text@, pat@, repl@),
{
    let n = text.len();
    let m = pat.len();
    let mut out: Vec<char> = Vec::new();
    let mut i: usize = 0;
    proof {
        assert(text@.skip(0) =~= text@);
    }
    while i < n
        invariant
            i <= n,
            n == text@.len(),
            m == pat@.len(),
            m > 0,
            replace_all(text@, pat@, repl@) == out@ + replace_all(
                text@.skip(i as int),
                pat@,
                repl@,
            ),
        decreases n - i,
    {
        let ghost s = text@.skip(i as int);
        if m <= n - i && occurs_at(text, pat, i) {
            proof {
                assert(s.take(m as int) =~= text@.subrange(i as int, i + m));
                assert(s.take(m as int) == pat@);
                assert(s.skip(m as int) =~= text@.skip(i + m));
                assert(replace_all(s, pat@, repl@) == repl@ + replace_all(
                    text@.skip(i + m),
                    pat@,
                    repl@,
                ));
            }
            append_all(&mut out, repl);
            proof {
                assert(out@ + (repl@ + replace_all(text@.skip(i + m), pat@, repl@)) =~= (out@
                    + repl@) + replace_all(text@.skip(i + m), pat@, repl@));
            }
            i += m;
        } else {
            proof {
                if i + m <= n {
                    assert(s.take(m as int) =~= text@.subrange(i as int, i + m));
                    assert(s.take(m as int) != pat@);
                    assert(replace_all(s, pat@, repl@) == seq![s[0]] + replace_all(
                        s.skip(1),
                        pat@,
                        repl@,
                    ));
                } else {
                    assert(s.len() < m);
                    assert(replace_all(s, pat@, repl@) == s);
                    assert(replace_all(s.skip(1), pat@, repl@) == s.skip(1));
                    assert(s =~= seq![s[0]] + s.skip(1));
                }
                assert(s[0] == text@[i as int]);
                assert(s.skip(1) =~= text@.skip(i + 1));
                assert(out@ + (seq![text@[i as int]] + replace_all(text@.skip(i + 1), pat@, repl@))
                    =~= out@.push(text@[i as int]) + replace_all(text@.skip(i + 1), pat@, repl@));
            }
            out.push(text[i]);
            i += 1;
        }
    }
    proof {
        assert(text@.skip(n as int).len() == 0);
        assert(out@ + text@.skip(n as int) =~= out@);
    }
    out
}

/// Applies the value store to the buffer: for each marker with a non-empty
/// value, in the store's sorted order, replaces all its occurrences.
pub fn apply_values(buf: &Vec<char>, map: &ValueMap) -> (r: Vec<char>)
    ensures
        r@ == apply_pairs(buf@, map.pairs()),
{
    let n = map.len();
    let mut cur = copy_range(buf, 0, buf.len());
    proof {
        assert(cur@ =~= buf@);
        assert(map.pairs().skip(0) =~= map.pairs());
    }
    let mut i: usize = 0;
    while i < n
        invariant
            i <= n,
            n == map.pairs().len(),
            apply_pairs(buf@, map.pairs()) == apply_pairs(cur@, map.pairs().skip(i as int)),
        decreases n - i,
    {
        let ghost ps = map.pairs().skip(i as int);
        proof {
            assert(ps[0] == map.pairs()[i as int]);
            assert(ps.skip(1) =~= map.pairs().skip(i + 1));
        }
        let marker = map.marker_at(i);
        let value = map.value_at(i);
        if value.len() > 0 && marker.len() > 0 {
            let next = replace_all_exec(&cur, marker, value);
            cur = next;
        } else {
            proof {
                if ps[0].1.len() > 0 {
                    // the marker text is empty, and the empty pattern
                    // replaces nothing
                    assert(replace_all(cur@, ps[0].0, ps[0].1) == cur@);
                }
            }
        }
        i += 1;
    }
    proof {
        assert(apply_pairs(cur@, map.pairs().skip(n as int)) == cur@);
    }
    cur
}

} // verus!
