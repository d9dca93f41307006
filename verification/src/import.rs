//! The bulk import/export text format: one `key=value` pair per line.
//!
//! Import splits the text into lines, skips blank lines and lines without a
//! `=`, splits each remaining line at its first `=`, trims both sides,
//! normalizes the key to full marker form (wrapping it in `{{`/`}}` unless
//! it is already wrapped), and overwrites the value of that marker if and
//! only if the marker is currently held by the store — the store acts as an
//! allow-list, and unknown keys are silently ignored.  There is no escaping
//! of `=` inside values: the first `=` is always the split point, a stated
//! limitation of the format.
//!
//! Export writes the store back out in the same shape, one sorted
//! `marker=value` line per entry.

use vstd::prelude::*;
use crate::store::{reconcile_map, scan_and_update_markers, ValueMap};
use crate::scan::markers_of;
use crate::subst::{apply_pairs, apply_values};
use crate::text::{append_all, copy_range, find_char, first_index_of, lemma_first_index_of, views};

verus! {

/// A character with the Unicode `White_Space` property, by code point.
pub open spec fn is_ws(c: char) -> bool {
    ||| c as u32 == 0x20
    ||| (0x09 <= c as u32 && c as u32 <= 0x0D)
    ||| c as u32 == 0x85
    ||| c as u32 == 0xA0
    ||| c as u32 == 0x1680
    ||| (0x2000 <= c as u32 && c as u32 <= 0x200A)
    ||| c as u32 == 0x2028
    ||| c as u32 == 0x2029
    ||| c as u32 == 0x202F
    ||| c as u32 == 0x205F
    ||| c as u32 == 0x3000
}

fn is_ws_exec(c: char) -> (r: bool)
    ensures
        r == is_ws(c),
{
    let u = c as u32;
    u == 0x20 || (0x09 <= u && u <= 0x0D) || u == 0x85 || u == 0xA0 || u == 0x1680 || (0x2000 <= u
        && u <= 0x200A) || u == 0x2028 || u == 0x2029 || u == 0x202F || u == 0x205F || u == 0x3000
}

/// `s` without leading whitespace.
pub open spec fn trim_start(s: Seq<char>) -> Seq<char>
    decreases s.len(),
{
    if s.len() > 0 && is_ws(s[0]) {
        trim_start(s.skip(1))
    } else {
        s
    }
}

/// `s` without trailing whitespace.
pub open spec fn trim_end(s: Seq<char>) -> Seq<char>
    decreases s.len(),
{
    if s.len() > 0 && is_ws(s[s.len() - 1]) {
        trim_end(s.take(s.len() - 1))
    } else {
        s
    }
}

/// `s` without leading or trailing whitespace.
pub open spec fn trim(s: Seq<char>) -> Seq<char> {
    trim_end(trim_start(s))
}

proof fn lemma_trim_start_at(s: Seq<char>, k: int)
    requires
        0 <= k <= s.len(),
        forall|i: int| 0 <= i < k ==> is_ws(s[i]),
        k < s.len() ==> !is_ws(s[k]),
    ensures
        trim_start(s) == s.skip(k),
    decreases k,
{
    if k == 0 {
        assert(s.skip(0) =~= s);
    } else {
        assert(is_ws(s[0]));
        assert(forall|i: int| 0 <= i < s.skip(1).len() ==> s.skip(1)[i] == s[i + 1]);
        lemma_trim_start_at(s.skip(1), k - 1);
        assert(s.skip(1).skip(k - 1) =~= s.skip(k));
    }
}

proof fn lemma_trim_end_at(s: Seq<char>, b: int)
    requires
        0 <= b <= s.len(),
        forall|i: int| b <= i < s.len() ==> is_ws(s[i]),
        b > 0 ==> !is_ws(s[b - 1]),
    ensures
        trim_end(s) == s.take(b),
    decreases s.len(),
{
    if b == s.len() {
        assert(s.take(b) =~= s);
    } else {
        assert(is_ws(s[s.len() - 1]));
        let t = s.take(s.len() - 1);
        assert(forall|i: int| 0 <= i < t.len() ==> t[i] == s[i]);
        lemma_trim_end_at(t, b);
        assert(t.take(b) =~= s.take(b));
    }
}

/// Trims whitespace from both ends.
pub fn trim_exec(v: &Vec<char>) -> (r: Vec<char>)
    ensures
        r@ == trim(v@),
{
    let n = v.len();
    let mut a: usize = 0;
    while a < n && is_ws_exec(v[a])
        invariant
            a <= n,
            n == v@.len(),
            forall|i: int| 0 <= i < a ==> is_ws(v@[i]),
        decreases n - a,
    {
        a += 1;
    }
    proof {
        lemma_trim_start_at(v@, a as int);
    }
    if a == n {
        proof {
            assert(v@.skip(n as int).len() == 0);
            assert(trim_end(v@.skip(n as int)) == v@.skip(n as int));
        }
        let r: Vec<char> = Vec::new();
        proof {
            assert(r@ =~= trim(v@));
        }
        return r;
    }
    let mut b: usize = n;
    while b > a + 1 && is_ws_exec(v[b - 1])
        invariant
            a < b <= n,
            n == v@.len(),
            forall|i: int| b <= i < n ==> is_ws(v@[i]),
        decreases b,
    {
        b -= 1;
    }
    let ghost st = v@.skip(a as int);
    proof {
        assert(forall|i: int| 0 <= i < st.len() ==> st[i] == v@[a + i]);
        if b == a + 1 {
            if is_ws(v@[b - 1]) {
                assert(false);
            }
        }
        assert(!is_ws(st[b - a - 1]));
        assert(forall|i: int| b - a <= i < st.len() ==> is_ws(st[i]));
        lemma_trim_end_at(st, b - a);
        assert(st.take(b - a) =~= v@.subrange(a as int, b as int));
    }
    copy_range(v, a, b)
}

/// A line without the `\r` that stood before its `\n` terminator.
pub open spec fn strip_cr(line: Seq<char>) -> Seq<char> {
    if line.len() > 0 && line[line.len() - 1] == '\r' {
        line.take(line.len() - 1)
    } else {
        line
    }
}

/// The buffer split into lines at `\n` (or `\r\n`); the final terminator is
/// optional and a trailing one adds no empty line.
pub open spec fn split_lines(s: Seq<char>) -> Seq<Seq<char>>
    decreases s.len(),
    via split_lines_decreases
{
    if s.len() == 0 {
        Seq::empty()
    } else {
        let k = first_index_of(s, '\n');
        if k == -1 {
            seq![s]
        } else {
            seq![strip_cr(s.take(k))] + split_lines(s.skip(k + 1))
        }
    }
}

#[via_fn]
proof fn split_lines_decreases(s: Seq<char>) {
    lemma_first_index_of(s, '\n');
}

/// Splits the text into lines.
pub fn split_lines_exec(text: &Vec<char>) -> (r: Vec<Vec<char>>)
    ensures
        views(r@) == split_lines(text@),
{
    let n = text.len();
    let mut out: Vec<Vec<char>> = Vec::new();
    let mut i: usize = 0;
    proof {
        assert(text@.skip(0) =~= text@);
    }
    while i < n
        invariant
            i <= n,
            n == text@.len(),
            split_lines(text@) == views(out@) + split_lines(text@.skip(i as int)),
        decreases n - i,
    {
        let ghost s = text@.skip(i as int);
        let ghost pre = views(out@);
        match find_char(text, i, '\n') {
            None => {
                let line = copy_range(text, i, n);
                proof {
                    assert(line@ =~= s);
                    assert(split_lines(s) == seq![s]);
                }
                out.push(line);
                i = n;
                proof {
                    assert(views(out@) =~= pre.push(s));
                    assert(split_lines(text@.skip(n as int)) == Seq::<Seq<char>>::empty());
                    assert(pre + seq![s] + Seq::<Seq<char>>::empty() =~= pre.push(s));
                }
            },
            Some(j) => {
                let mut line = copy_range(text, i, j);
                proof {
                    assert(line@ =~= s.take(j - i));
                }
                if line.len() > 0 && line[line.len() - 1] == '\r' {
                    line.pop();
                    proof {
                        assert(line@ =~= strip_cr(s.take(j - i)));
                    }
                }
                proof {
                    assert(line@ == strip_cr(s.take(j - i)));
                    assert(s.skip(j - i + 1) =~= text@.skip(j + 1));
                    assert(split_lines(s) == seq![strip_cr(s.take(j - i))] + split_lines(
                        text@.skip(j + 1),
                    ));
                }
                out.push(line);
                proof {
                    assert(views(out@) =~= pre.push(line@));
                    assert(pre + (seq![line@] + split_lines(text@.skip(j + 1))) =~= pre.push(
                        line@,
                    ) + split_lines(text@.skip(j + 1)));
                }
                i = j + 1;
            },
        }
    }
    proof {
        assert(split_lines(text@.skip(n as int)) == Seq::<Seq<char>>::empty());
        assert(views(out@) + Seq::<Seq<char>>::empty() =~= views(out@));
    }
    out
}

/// The key in full marker form: taken as is when already wrapped in
/// `{{`/`}}`, wrapped otherwise.
pub open spec fn normalize_key(k: Seq<char>) -> Seq<char> {
    if k.len() >= 2 && k[0] == '{' && k[1] == '{' && k[k.len() - 2] == '}' && k[k.len() - 1]
        == '}' {
        k
    } else {
        seq!['{', '{'] + k + seq!['}', '}']
    }
}

/// Normalizes an import key to full marker form.
pub fn normalize_key_exec(k: &Vec<char>) -> (r: Vec<char>)
    ensures
        r@ == normalize_key(k@),
{
    let n = k.len();
    if n >= 2 && k[0] == '{' && k[1] == '{' && k[n - 2] == '}' && k[n - 1] == '}' {
        let r = copy_range(k, 0, n);
        proof {
            assert(r@ =~= k@);
        }
        r
    } else {
        let mut r: Vec<char> = Vec::new();
        r.push('{');
        r.push('{');
        append_all(&mut r, k);
        r.push('}');
        r.push('}');
        proof {
            assert(r@ =~= seq!['{', '{'] + k@ + seq!['}', '}']);
        }
        r
    }
}

/// What one import line does to the map, and whether it updated a marker:
/// blank lines and lines without `=` do nothing; otherwise the line splits
/// at its first `=`, both sides are trimmed, the key is normalized, and a
/// marker the map holds is overwritten — any other key is ignored.
pub open spec fn import_line(m: Map<Seq<char>, Seq<char>>, line: Seq<char>) -> (
    Map<Seq<char>, Seq<char>>,
    nat,
) {
    if trim(line).len() == 0 {
        (m, 0nat)
    } else {
        let e = first_index_of(line, '=');
        if e == -1 {
            (m, 0nat)
        } else {
            let fk = normalize_key(trim(line.take(e)));
            let value = trim(line.skip(e + 1));
            if m.dom().contains(fk) {
                (m.insert(fk, value), 1nat)
            } else {
                (m, 0nat)
            }
        }
    }
}

/// The lines applied in order, with the total update count.
pub open spec fn import_lines(m: Map<Seq<char>, Seq<char>>, lines: Seq<Seq<char>>) -> (
    Map<Seq<char>, Seq<char>>,
    nat,
)
    decreases lines.len(),
{
    if lines.len() == 0 {
        (m, 0nat)
    } else {
        let step = import_line(m, lines[0]);
        let rest = import_lines(step.0, lines.skip(1));
        (rest.0, step.1 + rest.1)
    }
}

/// Applies `key=value` import text to the store: only markers the store
/// currently holds are overwritten; everything else is ignored.  Returns
/// how many markers were updated.
pub fn import_values(map: &mut ValueMap, text: &Vec<char>) -> (count: usize)
    requires
        old(map).wf(),
    ensures
        final(map).wf(),
        final(map).key_seq() == old(map).key_seq(),
        final(map)@ == import_lines(old(map)@, split_lines(text@)).0,
        count == import_lines(old(map)@, split_lines(text@)).1,
{
    let lines = split_lines_exec(text);
    let ghost all = views(lines@);
    let n = lines.len();
    let mut count: usize = 0;
    let mut i: usize = 0;
    proof {
        assert(all.skip(0) =~= all);
    }
    while i < n
        invariant
            i <= n,
            n == lines@.len(),
            all == views(lines@),
            count <= i,
            map.wf(),
            map.key_seq() == old(map).key_seq(),
            import_lines(old(map)@, all).0 == import_lines(map@, all.skip(i as int)).0,
            import_lines(old(map)@, all).1 == count + import_lines(map@, all.skip(i as int)).1,
        decreases n - i,
    {
        let ghost ls = all.skip(i as int);
        let ghost m0 = map@;
        let line = &lines[i];
        proof {
            assert(ls[0] == line@);
            assert(ls.skip(1) =~= all.skip(i + 1));
        }
        let trimmed = trim_exec(line);
        let mut updated: bool = false;
        if trimmed.len() > 0 {
            match find_char(line, 0, '=') {
                Some(e) => {
                    proof {
                        assert(line@.skip(0) =~= line@);
                    }
                    let rawkey = copy_range(line, 0, e);
                    let key = trim_exec(&rawkey);
                    let rawval = copy_range(line, e + 1, line.len());
                    let value = trim_exec(&rawval);
                    let fk = normalize_key_exec(&key);
                    proof {
                        assert(rawkey@ =~= line@.take(e as int));
                        assert(rawval@ =~= line@.skip(e + 1));
                    }
                    updated = map.set_value(&fk, value);
                    proof {
                        assert(import_line(m0, line@) == (map@, if updated {
                            1nat
                        } else {
                            0nat
                        }));
                    }
                },
                None => {
                    proof {
                        assert(line@.skip(0) =~= line@);
                        assert(import_line(m0, line@) == (map@, 0nat));
                    }
                },
            }
        } else {
            proof {
                assert(import_line(m0, line@) == (map@, 0nat));
            }
        }
        if updated {
            count += 1;
        }
        i += 1;
    }
    proof {
        assert(all.skip(n as int).len() == 0);
        assert(import_lines(map@, all.skip(n as int)) == (map@, 0nat));
    }
    count
}

/// The full import pipeline: reconcile the store with the markers freshly
/// scanned from the buffer, apply the `key=value` lines to markers actually
/// present, and — when at least one marker was updated — substitute the new
/// values into the buffer.  Returns the resulting buffer and the count.
pub fn import_and_apply(buf: &Vec<char>, map: &mut ValueMap, text: &Vec<char>) -> (r: (
    Vec<char>,
    usize,
))
    requires
        old(map).wf(),
    ensures
        final(map).wf(),
        ({
            let stepped = import_lines(
                reconcile_map(old(map)@, markers_of(buf@)),
                split_lines(text@),
            );
            &&& final(map)@ == stepped.0
            &&& r.1 == stepped.1
            &&& r.0@ == (if stepped.1 > 0 {
                apply_pairs(buf@, final(map).pairs())
            } else {
                buf@
            })
        }),
{
    let _markers = scan_and_update_markers(map, buf);
    let count = import_values(map, text);
    if count > 0 {
        let out = apply_values(buf, map);
        (out, count)
    } else {
        let out = copy_range(buf, 0, buf.len());
        proof {
            assert(out@ =~= buf@);
        }
        (out, count)
    }
}

/// The store as flat export text: one `marker=value` line per pair.
pub open spec fn export_pairs(ps: Seq<(Seq<char>, Seq<char>)>) -> Seq<char>
    decreases ps.len(),
{
    if ps.len() == 0 {
        Seq::empty()
    } else {
        ps[0].0 + seq!['='] + ps[0].1 + seq!['\n'] + export_pairs(ps.skip(1))
    }
}

/// Writes the store out as flat `marker=value` text, one line per marker,
/// in sorted marker order.
pub fn export_values(map: &ValueMap) -> (r: Vec<char>)
    ensures
        r@ == export_pairs(map.pairs()),
{
    let n = map.len();
    let mut out: Vec<char> = Vec::new();
    let mut i: usize = 0;
    proof {
        assert(map.pairs().skip(0) =~= map.pairs());
    }
    while i < n
        invariant
            i <= n,
            n == map.pairs().len(),
            export_pairs(map.pairs()) == out@ + export_pairs(map.pairs().skip(i as int)),
        decreases n - i,
    {
        let ghost ps = map.pairs().skip(i as int);
        let ghost pre = out@;
        proof {
            assert(ps[0] == map.pairs()[i as int]);
            assert(ps.skip(1) =~= map.pairs().skip(i + 1));
        }
        append_all(&mut out, map.marker_at(i));
        out.push('=');
        append_all(&mut out, map.value_at(i));
        out.push('\n');
        proof {
            assert(out@ =~= pre + (ps[0].0 + seq!['='] + ps[0].1 + seq!['\n']));
            assert(pre + (ps[0].0 + seq!['='] + ps[0].1 + seq!['\n'] + export_pairs(
                map.pairs().skip(i + 1),
            )) =~= out@ + export_pairs(map.pairs().skip(i + 1)));
        }
        i += 1;
    }
    proof {
        assert(export_pairs(map.pairs().skip(n as int)) == Seq::<char>::empty());
        assert(out@ + Seq::<char>::empty() =~= out@);
    }
    out
}

} // verus!
