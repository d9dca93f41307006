//! The underline decorator: wraps every `{{...}}` span in the buffer in an
//! underline annotation, `[` before and `]{.underline}` after, unless the
//! span already sits between exactly those two texts.
//!
//! The decorator's span grammar is looser than the scanner's: the body is
//! any run of characters on one line, ended by the first `}}`, so `{{}}`
//! and bodies holding a single `}` are spans here.  A span counts as
//! already decorated only when both the `[` before it and the
//! `]{.underline}` after it are present.  The decorator reports how many
//! spans it newly wrapped; run on its own output it wraps nothing.

use vstd::prelude::*;
use crate::text::{append_all, copy_range, occurs_at};

verus! {

/// The closing annotation text, `]{.underline}`.
pub open spec fn underline_close() -> Seq<char> {
    seq![']', '{', '.', 'u', 'n', 'd', 'e', 'r', 'l', 'i', 'n', 'e', '}']
}

/// Builds the closing annotation text.
pub fn underline_close_vec() -> (r: Vec<char>)
    ensures
        r@ == underline_close(),
{
    let mut r: Vec<char> = Vec::new();
    r.push(']');
    r.push('{');
    r.push('.');
    r.push('u');
    r.push('n');
    r.push('d');
    r.push('e');
    r.push('r');
    r.push('l');
    r.push('i');
    r.push('n');
    r.push('e');
    r.push('}');
    proof {
        assert(r@ =~= underline_close());
    }
    r
}

/// Offset of the first `}}` in `s` reachable on the current line, or -1.
pub open spec fn body_close(s: Seq<char>) -> int
    decreases s.len(),
{
    if s.len() < 2 {
        -1
    } else if s[0] == '}' && s[1] == '}' {
        0
    } else if s[0] == '\n' {
        -1
    } else if body_close(s.skip(1)) == -1 {
        -1
    } else {
        1 + body_close(s.skip(1))
    }
}

pub proof fn lemma_body_close(s: Seq<char>)
    ensures
        -1 <= body_close(s),
        body_close(s) >= 0 ==> body_close(s) + 2 <= s.len(),
        body_close(s) >= 0 ==> s[body_close(s)] == '}' && s[body_close(s) + 1] == '}' && (forall|
            i: int,
        | 0 <= i < body_close(s) ==> s[i] != '\n') && (forall|i: int|
            0 <= i < body_close(s) ==> !(#[trigger] s[i] == '}' && s[i + 1] == '}')),
    decreases s.len(),
{
    if s.len() < 2 {
    } else if s[0] == '}' && s[1] == '}' {
    } else if s[0] == '\n' {
    } else {
        lemma_body_close(s.skip(1));
        if body_close(s.skip(1)) >= 0 {
            let k = body_close(s);
            assert(k == 1 + body_close(s.skip(1)));
            assert(s[k] == '}' && s[k + 1] == '}') by {
                assert(s.skip(1)[k - 1] == '}');
                assert(s.skip(1)[k] == '}');
            }
            assert forall|i: int| 0 <= i < k implies s[i] != '\n' by {
                if i >= 1 {
                    assert(s.skip(1)[i - 1] != '\n');
                }
            }
            assert forall|i: int| 0 <= i < k implies !(#[trigger] s[i] == '}' && s[i + 1]
                == '}') by {
                if i >= 1 {
                    assert(!(s.skip(1)[i - 1] == '}' && s.skip(1)[i] == '}'));
                }
            }
        }
    }
}

/// The first clean `}}` pins `body_close` down: what stands beyond it does
/// not matter.
pub proof fn lemma_body_close_determined(s: Seq<char>, j: int)
    requires
        0 <= j,
        j + 2 <= s.len(),
        s[j] == '}',
        s[j + 1] == '}',
        forall|i: int| 0 <= i < j ==> s[i] != '\n',
        forall|i: int| 0 <= i < j ==> !(#[trigger] s[i] == '}' && s[i + 1] == '}'),
    ensures
        body_close(s) == j,
    decreases j,
{
    if j > 0 {
        assert(!(s[0] == '}' && s[1] == '}'));
        assert(s[0] != '\n');
        let t = s.skip(1);
        assert(forall|i: int| 0 <= i < t.len() ==> t[i] == s[i + 1]);
        assert forall|i: int| 0 <= i < j - 1 implies t[i] != '\n' by {
            assert(s[i + 1] != '\n');
        }
        assert forall|i: int| 0 <= i < j - 1 implies !(#[trigger] t[i] == '}' && t[i + 1]
            == '}') by {
            assert(!(s[i + 1] == '}' && s[i + 2] == '}'));
        }
        lemma_body_close_determined(t, j - 1);
    }
}

/// Does a decorator span begin at the head of `s`?
pub open spec fn dec_match(s: Seq<char>) -> bool {
    s.len() >= 2 && s[0] == '{' && s[1] == '{' && body_close(s.skip(2)) >= 0
}

/// Length of the decorator span at the head of `s`.
pub open spec fn dec_end(s: Seq<char>) -> int {
    2 + body_close(s.skip(2)) + 2
}

/// Does `]{.underline}` stand right after position `e` of `s`?
pub open spec fn is_followed(s: Seq<char>, e: int) -> bool {
    e + 13 <= s.len() && s.subrange(e, e + 13) == underline_close()
}

/// One decorator pass over the text still to scan.  `prev` is the character
/// just before it, `None` at the start of the buffer.  A span preceded by
/// `[` and followed by `]{.underline}` is copied; any other span is wrapped
/// and counted; all other text is copied.
pub open spec fn dec_rec(prev: Option<char>, s: Seq<char>) -> (Seq<char>, nat)
    decreases s.len(),
    via dec_rec_decreases
{
    if s.len() == 0 {
        (s, 0nat)
    } else if dec_match(s) {
        let e = dec_end(s);
        let m = s.take(e);
        let rest = dec_rec(Some(s[e - 1]), s.skip(e));
        if prev == Some('[') && is_followed(s, e) {
            (m + rest.0, rest.1)
        } else {
            (seq!['['] + m + underline_close() + rest.0, rest.1 + 1)
        }
    } else {
        let rest = dec_rec(Some(s[0]), s.skip(1));
        (seq![s[0]] + rest.0, rest.1)
    }
}

#[via_fn]
proof fn dec_rec_decreases(prev: Option<char>, s: Seq<char>) {
    if s.len() > 0 && dec_match(s) {
        lemma_body_close(s.skip(2));
    }
}

/// What decorating the whole buffer produces: the new text and the number
/// of spans newly wrapped.
pub open spec fn decorated(text: Seq<char>) -> (Seq<char>, nat) {
    dec_rec(None, text)
}

/// The character standing just before position `i` of the buffer.
pub open spec fn prev_at(text: Seq<char>, i: int) -> Option<char> {
    if i == 0 {
        None
    } else {
        Some(text[i - 1])
    }
}

/// When the scan fails, every `}}` pair in `s` has a newline before it.
proof fn lemma_body_close_failed(s: Seq<char>, j: int)
    requires
        body_close(s) == -1,
        0 <= j,
        j + 2 <= s.len(),
        s[j] == '}',
        s[j + 1] == '}',
    ensures
        exists|i: int| 0 <= i < j && s[i] == '\n',
    decreases s.len(),
{
    assert(j != 0);
    if s[0] == '\n' {
        assert(s[0] == '\n' && 0 < j);
    } else {
        let t = s.skip(1);
        lemma_body_close(t);
        assert(body_close(t) == -1);
        assert(t[j - 1] == '}' && t[j] == '}');
        lemma_body_close_failed(t, j - 1);
        let i = choose|i: int| 0 <= i < j - 1 && t[i] == '\n';
        assert(s[i + 1] == '\n' && 0 <= i + 1 < j);
    }
}

/// A complete span stays a span, with the same end, whatever follows it.
proof fn lemma_dec_match_extend(m: Seq<char>, s: Seq<char>)
    requires
        dec_match(m),
        dec_end(m) == m.len(),
    ensures
        dec_match(m + s),
        dec_end(m + s) == m.len(),
{
    lemma_body_close(m.skip(2));
    let w = m.skip(2);
    let j = body_close(w);
    let u = (m + s).skip(2);
    assert(u =~= w + s);
    assert(u[j] == '}' && u[j + 1] == '}') by {
        assert(u[j] == w[j]);
        assert(u[j + 1] == w[j + 1]);
    }
    assert forall|i: int| 0 <= i < j implies u[i] != '\n' by {
        assert(u[i] == w[i]);
    }
    assert forall|i: int| 0 <= i < j implies !(#[trigger] u[i] == '}' && u[i + 1] == '}') by {
        assert(u[i] == w[i]);
        assert(u[i + 1] == w[i + 1]);
    }
    lemma_body_close_determined(u, j);
    assert((m + s)[0] == '{' && (m + s)[1] == '{');
}

/// The character the scanner hands on after a copied stretch: the last of
/// the stretch, or what came before an empty one.
spec fn next_prev(prev: Option<char>, p: Seq<char>) -> Option<char> {
    if p.len() == 0 {
        prev
    } else {
        Some(p[p.len() - 1])
    }
}

/// Text in which no span starts is copied through unchanged, and scanning
/// resumes beyond it.
proof fn lemma_copied_through(prev: Option<char>, p: Seq<char>, s: Seq<char>)
    requires
        forall|k: int| 0 <= k < p.len() ==> !dec_match(#[trigger] (p + s).skip(k)),
    ensures
        dec_rec(prev, p + s).0 == p + dec_rec(next_prev(prev, p), s).0,
        dec_rec(prev, p + s).1 == dec_rec(next_prev(prev, p), s).1,
    decreases p.len(),
{
    if p.len() == 0 {
        assert(p + s =~= s);
        assert(p + dec_rec(prev, s).0 =~= dec_rec(prev, s).0);
    } else {
        let c = p[0];
        let t = p + s;
        assert(t.skip(0) =~= t);
        assert(!dec_match(t));
        assert(t.len() > 0);
        assert(t[0] == c);
        assert(t.skip(1) =~= p.skip(1) + s);
        assert forall|k: int| 0 <= k < p.skip(1).len() implies !dec_match(
            #[trigger] (p.skip(1) + s).skip(k),
        ) by {
            assert((p + s).skip(k + 1) =~= (p.skip(1) + s).skip(k));
            assert(!dec_match((p + s).skip(k + 1)));
        }
        lemma_copied_through(Some(c), p.skip(1), s);
        let np = next_prev(Some(c), p.skip(1));
        assert(np == next_prev(prev, p)) by {
            if p.len() == 1 {
                assert(p.skip(1).len() == 0);
            } else {
                assert(p.skip(1)[p.skip(1).len() - 1] == p[p.len() - 1]);
            }
        }
        assert(dec_rec(prev, t).0 == seq![c] + dec_rec(Some(c), t.skip(1)).0);
        assert(seq![c] + (p.skip(1) + dec_rec(np, s).0) =~= p + dec_rec(np, s).0);
    }
}

/// The closing annotation is plain text to the scanner: it is copied
/// through, and scanning resumes after its final `}`.
proof fn lemma_close_copied(prev: Option<char>, s: Seq<char>)
    ensures
        dec_rec(prev, underline_close() + s).0 == underline_close() + dec_rec(Some('}'), s).0,
        dec_rec(prev, underline_close() + s).1 == dec_rec(Some('}'), s).1,
{
    let c = underline_close();
    assert forall|k: int| 0 <= k < c.len() implies !dec_match(#[trigger] (c + s).skip(k)) by {
        let t = (c + s).skip(k);
        assert(t[0] == c[k]);
        if k == 1 {
            assert(t.len() >= 2);
            assert(t[1] == c[2]);
            assert(c[2] == '.');
        } else {
            assert(c[k] != '{');
        }
    }
    lemma_copied_through(prev, c, s);
    assert(next_prev(prev, c) == Some('}')) by {
        assert(c[12] == '}');
    }
}

/// The first character the scanner emits for a non-empty text: the text's
/// own first character, or the `[` of a fresh wrap.
proof fn lemma_output_head(prev: Option<char>, s: Seq<char>)
    requires
        s.len() > 0,
    ensures
        dec_rec(prev, s).0.len() > 0,
        dec_rec(prev, s).0[0] == s[0] || dec_rec(prev, s).0[0] == '[',
{
    if dec_match(s) {
        lemma_body_close(s.skip(2));
        let e = dec_end(s);
        if prev == Some('[') && is_followed(s, e) {
            assert(dec_rec(prev, s).0[0] == s.take(e)[0]);
        } else {
            assert(dec_rec(prev, s).0[0] == '[');
        }
    } else {
        assert(dec_rec(prev, s).0[0] == s[0]);
    }
}

/// A failed span scan stays failed on the decorator's output: decorating
/// cannot bring a `}}` within reach that was not reachable before.
proof fn lemma_failed_scan_preserved(prev: Option<char>, s: Seq<char>)
    requires
        body_close(s) == -1,
    ensures
        body_close(dec_rec(prev, s).0) == -1,
    decreases s.len(),
{
    if s.len() == 0 {
    } else if dec_match(s) {
        lemma_body_close(s.skip(2));
        let j = body_close(s.skip(2));
        assert(s[2 + j] == '}' && s[2 + j + 1] == '}') by {
            assert(s.skip(2)[j] == '}');
            assert(s.skip(2)[j + 1] == '}');
        }
        lemma_body_close_failed(s, 2 + j);
        let i = choose|i: int| 0 <= i < 2 + j && s[i] == '\n';
        if i >= 2 {
            assert(s.skip(2)[i - 2] == '\n');
            assert(false);
        } else {
            assert(false);
        }
    } else {
        let o = dec_rec(prev, s).0;
        let o1 = dec_rec(Some(s[0]), s.skip(1)).0;
        assert(o == seq![s[0]] + o1);
        if s.len() == 1 {
            assert(s.skip(1).len() == 0);
            assert(o1.len() == 0);
            assert(o.len() == 1);
        } else {
            assert(!(s[0] == '}' && s[1] == '}'));
            lemma_output_head(Some(s[0]), s.skip(1));
            assert(o1[0] == s[1] || o1[0] == '[');
            assert(o[1] == o1[0]);
            assert(!(o[0] == '}' && o[1] == '}'));
            if s[0] == '\n' {
                assert(body_close(o) == -1);
            } else {
                lemma_body_close(s.skip(1));
                assert(body_close(s.skip(1)) == -1);
                lemma_failed_scan_preserved(Some(s[0]), s.skip(1));
                assert(o.skip(1) =~= o1);
                assert(body_close(o) == -1);
            }
        }
    }
}

/// A span that already sits between `[` and `]{.underline}` is left exactly
/// as it stands, contributes no count, and scanning resumes after the
/// closing annotation.
pub proof fn lemma_decorated_span_untouched(prev: Option<char>, s: Seq<char>)
    requires
        dec_match(s),
        prev == Some('['),
        is_followed(s, dec_end(s)),
    ensures
        dec_rec(prev, s).0 == s.take(dec_end(s) + 13) + dec_rec(Some('}'), s.skip(
            dec_end(s) + 13,
        )).0,
        dec_rec(prev, s).1 == dec_rec(Some('}'), s.skip(dec_end(s) + 13)).1,
{
    lemma_body_close(s.skip(2));
    let e = dec_end(s);
    let j = body_close(s.skip(2));
    assert(s[e - 1] == '}') by {
        assert(s.skip(2)[j + 1] == '}');
    }
    assert(s.skip(e).take(13) =~= s.subrange(e, e + 13));
    assert(s.skip(e) =~= underline_close() + s.skip(e + 13));
    lemma_close_copied(Some('}'), s.skip(e + 13));
    let o2 = dec_rec(Some('}'), s.skip(e + 13)).0;
    assert(dec_rec(prev, s).0 == s.take(e) + (underline_close() + o2));
    assert(s.take(e) + (underline_close() + o2) =~= s.take(e + 13) + o2) by {
        assert(forall|i: int| 0 <= i < e ==> #[trigger] s.take(e + 13)[i] == s.take(e)[i]);
        assert(forall|i: int|
            e <= i < e + 13 ==> #[trigger] s.take(e + 13)[i] == (underline_close())[i - e]);
    }
}

/// Decorating is idempotent: run on its own output, the decorator changes
/// nothing and wraps zero spans.
pub proof fn lemma_decorate_idempotent(prev: Option<char>, s: Seq<char>)
    ensures
        dec_rec(prev, dec_rec(prev, s).0).0 == dec_rec(prev, s).0,
        dec_rec(prev, dec_rec(prev, s).0).1 == 0,
    decreases s.len(),
{
    let o = dec_rec(prev, s).0;
    if s.len() == 0 {
    } else if dec_match(s) {
        lemma_body_close(s.skip(2));
        let e = dec_end(s);
        let m = s.take(e);
        let j = body_close(s.skip(2));
        assert(s[e - 1] == '}') by {
            assert(s.skip(2)[j + 1] == '}');
        }
        assert(m[0] == '{' && m[1] == '{');
        // the span is complete in itself: its own scan ends where it ends
        assert(dec_match(m) && dec_end(m) == e) by {
            let w = m.skip(2);
            assert(w =~= s.skip(2).take(j + 2));
            assert(w[j] == '}' && w[j + 1] == '}') by {
                assert(w[j] == s.skip(2)[j]);
                assert(w[j + 1] == s.skip(2)[j + 1]);
            }
            assert forall|i: int| 0 <= i < j implies w[i] != '\n' by {
                assert(w[i] == s.skip(2)[i]);
            }
            assert forall|i: int| 0 <= i < j implies !(#[trigger] w[i] == '}' && w[i + 1]
                == '}') by {
                assert(w[i] == s.skip(2)[i]);
                assert(w[i + 1] == s.skip(2)[i + 1]);
            }
            lemma_body_close_determined(w, j);
        }
        let rest = dec_rec(Some(s[e - 1]), s.skip(e));
        if prev == Some('[') && is_followed(s, e) {
            assert(s.skip(e).take(13) =~= s.subrange(e, e + 13));
            assert(s.skip(e) =~= underline_close() + s.skip(e + 13));
            lemma_close_copied(Some('}'), s.skip(e + 13));
            let o2 = dec_rec(Some('}'), s.skip(e + 13)).0;
            assert(rest.0 == underline_close() + o2);
            assert(o == m + (underline_close() + o2));
            lemma_dec_match_extend(m, underline_close() + o2);
            assert(dec_match(o) && dec_end(o) == e);
            assert(o.take(e) =~= m);
            assert(o.skip(e) =~= underline_close() + o2);
            assert(is_followed(o, e)) by {
                assert(o.subrange(e, e + 13) =~= underline_close());
            }
            assert(o[e - 1] == m[e - 1]);
            assert(m[e - 1] == s[e - 1]);
            lemma_close_copied(Some('}'), o2);
            lemma_decorate_idempotent(Some('}'), s.skip(e + 13));
            assert(dec_rec(Some('}'), o2).0 == o2 && dec_rec(Some('}'), o2).1 == 0);
            assert(dec_rec(prev, o).0 == o.take(e) + (underline_close() + dec_rec(
                Some('}'),
                o2,
            ).0));
            assert(m + (underline_close() + o2) =~= o);
        } else {
            let o1 = rest.0;
            lemma_decorate_idempotent(Some('}'), s.skip(e));
            assert(o == seq!['['] + m + underline_close() + o1);
            assert(o[0] == '[');
            assert(!dec_match(o));
            let t1 = o.skip(1);
            assert(t1 =~= m + (underline_close() + o1));
            lemma_dec_match_extend(m, underline_close() + o1);
            assert(dec_match(t1) && dec_end(t1) == e);
            assert(t1.take(e) =~= m);
            assert(t1.skip(e) =~= underline_close() + o1);
            assert(is_followed(t1, e)) by {
                assert(t1.subrange(e, e + 13) =~= underline_close());
            }
            assert(t1[e - 1] == m[e - 1]);
            assert(m[e - 1] == s[e - 1]);
            lemma_close_copied(Some('}'), o1);
            assert(dec_rec(Some('['), t1).0 == m + (underline_close() + dec_rec(
                Some('}'),
                o1,
            ).0));
            assert(dec_rec(Some('}'), o1).0 == o1 && dec_rec(Some('}'), o1).1 == 0);
            assert(dec_rec(prev, o).0 == seq![o[0]] + dec_rec(Some('['), o.skip(1)).0);
            assert(seq!['['] + (m + (underline_close() + o1)) =~= o);
        }
    } else {
        let o1 = dec_rec(Some(s[0]), s.skip(1)).0;
        assert(o == seq![s[0]] + o1);
        lemma_decorate_idempotent(Some(s[0]), s.skip(1));
        assert(!dec_match(o)) by {
            if s.len() == 1 {
                assert(s.skip(1).len() == 0);
                assert(o.len() == 1);
            } else {
                lemma_output_head(Some(s[0]), s.skip(1));
                assert(o[1] == o1[0]);
                if s[0] == '{' && s[1] == '{' {
                    lemma_body_close(s.skip(2));
                    assert(body_close(s.skip(2)) == -1);
                    assert(!dec_match(s.skip(1))) by {
                        if s.len() >= 3 && s[2] == '{' {
                            assert(s.skip(2)[0] == '{');
                            lemma_body_close(s.skip(3));
                            assert(s.skip(2).skip(1) =~= s.skip(3));
                            assert(body_close(s.skip(3)) == -1);
                            assert(s.skip(1).skip(2) =~= s.skip(3));
                        } else if s.len() >= 3 {
                            assert(s.skip(1)[1] == s[2]);
                        } else {
                            assert(s.skip(1).len() < 2);
                        }
                    }
                    let o2 = dec_rec(Some(s[1]), s.skip(2)).0;
                    assert(o1 == seq![s[1]] + o2) by {
                        assert(s.skip(1)[0] == s[1]);
                        assert(s.skip(1).skip(1) =~= s.skip(2));
                    }
                    lemma_failed_scan_preserved(Some(s[1]), s.skip(2));
                    assert(o.skip(2) =~= o2);
                    assert(body_close(o.skip(2)) == -1);
                } else {
                    if s[0] == '{' {
                        assert(o1[0] == s[1] || o1[0] == '[');
                        assert(o[1] != '{');
                    }
                }
            }
        }
        assert(o[0] == s[0]);
        assert(o.skip(1) =~= o1);
        assert(dec_rec(prev, o).0 == seq![o[0]] + dec_rec(Some(o[0]), o.skip(1)).0);
        assert(seq![s[0]] + o1 =~= o);
    }
}

/// Decorating a whole buffer twice in succession changes nothing the second
/// time and reports a count of zero.
pub proof fn lemma_decorated_fixed_point(text: Seq<char>)
    ensures
        decorated(decorated(text).0).0 == decorated(text).0,
        decorated(decorated(text).0).1 == 0,
{
    lemma_decorate_idempotent(None, text);
}

/// Finds the first `}}` at or after `from` with no newline on the way.
fn find_body_close(text: &Vec<char>, from: usize) -> (r: Option<usize>)
    requires
        from <= text@.len(),
    ensures
        match r {
            Some(j) => from <= j && j + 2 <= text@.len() && body_close(text@.skip(from as int))
                == j - from,
            None => body_close(text@.skip(from as int)) == -1,
        },
{
    let n = text.len();
    let mut j: usize = from;
    while n - j > 1
        invariant
            from <= j,
            j <= n,
            n == text@.len(),
            body_close(text@.skip(from as int)) == (if body_close(text@.skip(j as int)) == -1 {
                -1
            } else {
                body_close(text@.skip(j as int)) + (j - from)
            }),
        decreases n - j,
    {
        let ghost a = text@.skip(j as int);
        proof {
            assert(a.len() >= 2);
            assert(a[0] == text@[j as int]);
            assert(a[1] == text@[j + 1]);
        }
        if text[j] == '}' && text[j + 1] == '}' {
            return Some(j);
        }
        if text[j] == '\n' {
            return None;
        }
        proof {
            assert(a.skip(1) =~= text@.skip(j + 1));
            lemma_body_close(text@.skip(j + 1));
        }
        j += 1;
    }
    proof {
        assert(text@.skip(j as int).len() < 2);
    }
    None
}

/// Decorates every undecorated `{{...}}` span in the buffer and reports how
/// many spans were newly wrapped.
pub fn decorate_markers(buf: &Vec<char>) -> (r: (Vec<char>, usize))
    ensures
        r.0@ == decorated(buf@).0,
        r.1 as nat == decorated(buf@).1,
{
    let close = underline_close_vec();
    let n = buf.len();
    let mut out: Vec<char> = Vec::new();
    let mut cnt: usize = 0;
    let mut i: usize = 0;
    proof {
        assert(buf@.skip(0) =~= buf@);
    }
    while i < n
        invariant
            i <= n,
            n == buf@.len(),
            cnt <= i,
            close@ == underline_close(),
            decorated(buf@).0 == out@ + dec_rec(prev_at(buf@, i as int), buf@.skip(i as int)).0,
            decorated(buf@).1 == cnt + dec_rec(prev_at(buf@, i as int), buf@.skip(i as int)).1,
        decreases n - i,
    {
        let ghost s = buf@.skip(i as int);
        let ghost prev = prev_at(buf@, i as int);
        let mut matched_end: usize = 0;
        let mut has_match = false;
        if buf[i] == '{' && i + 1 < n && buf[i + 1] == '{' {
            proof {
                assert(s.skip(2) =~= buf@.skip(i + 2));
            }
            match find_body_close(buf, i + 2) {
                Some(j) => {
                    has_match = true;
                    matched_end = j + 2;
                    proof {
                        assert(s[0] == '{' && s[1] == '{');
                        assert(body_close(s.skip(2)) == j - (i + 2));
                        assert(dec_match(s));
                        assert(dec_end(s) == matched_end - i);
                    }
                },
                None => {
                    proof {
                        assert(!dec_match(s));
                    }
                },
            }
        } else {
            proof {
                assert(s[0] == buf@[i as int]);
                assert(s.len() >= 2 ==> s[1] == buf@[i + 1]);
                assert(!dec_match(s));
            }
        }
        if has_match {
            let e = matched_end;
            let ghost de = dec_end(s);
            proof {
                assert(de == e - i);
                assert(s.take(de) =~= buf@.subrange(i as int, e as int));
                assert(s.skip(de) =~= buf@.skip(e as int));
                assert(s[de - 1] == buf@[e - 1]);
                assert(prev_at(buf@, e as int) == Some(buf@[e - 1]));
            }
            let piece = copy_range(buf, i, e);
            let mut already = false;
            if i > 0 && 13 <= n - e {
                let before = buf[i - 1];
                if before == '[' && occurs_at(buf, &close, e) {
                    already = true;
                }
            }
            proof {
                if already {
                    assert(prev == Some('['));
                    assert(s.subrange(de, de + 13) =~= buf@.subrange(e as int, e + 13));
                    assert(is_followed(s, de));
                } else {
                    if prev == Some('[') && is_followed(s, de) {
                        assert(i > 0 && buf@[i - 1] == '[');
                        assert(de + 13 <= s.len());
                        assert(buf@.subrange(e as int, e + 13) =~= s.subrange(de, de + 13));
                        assert(false);
                    }
                }
            }
            let ghost pre_out = out@;
            if already {
                append_all(&mut out, &piece);
                proof {
                    let rest = dec_rec(Some(s[de - 1]), s.skip(de));
                    assert(dec_rec(prev, s) == (s.take(de) + rest.0, rest.1));
                    assert(pre_out + (s.take(de) + rest.0) =~= out@ + rest.0);
                }
            } else {
                out.push('[');
                append_all(&mut out, &piece);
                append_all(&mut out, &close);
                cnt += 1;
                proof {
                    let rest = dec_rec(Some(s[de - 1]), s.skip(de));
                    assert(dec_rec(prev, s) == (
                        seq!['['] + s.take(de) + underline_close() + rest.0,
                        rest.1 + 1,
                    ));
                    assert(pre_out + (seq!['['] + s.take(de) + underline_close() + rest.0) =~= out@
                        + rest.0);
                }
            }
            i = e;
        } else {
            proof {
                let rest = dec_rec(Some(s[0]), s.skip(1));
                assert(dec_rec(prev, s) == (seq![s[0]] + rest.0, rest.1));
                assert(s[0] == buf@[i as int]);
                assert(s.skip(1) =~= buf@.skip(i + 1));
                assert(prev_at(buf@, i + 1) == Some(buf@[i as int]));
                assert(out@ + (seq![s[0]] + rest.0) =~= out@.push(buf@[i as int]) + rest.0);
            }
            out.push(buf[i]);
            i += 1;
        }
    }
    proof {
        assert(buf@.skip(n as int).len() == 0);
        assert(dec_rec(prev_at(buf@, n as int), buf@.skip(n as int)).0 =~= Seq::<char>::empty());
        assert(out@ + Seq::<char>::empty() =~= out@);
    }
    (out, cnt)
}

} // verus!
