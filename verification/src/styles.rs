//! Style inventory handling for the custom-style formatter.
//!
//! A reference document's styles arrive as plain (identifier, kind) pairs.
//! The inventory keeps the paragraph-level and character-level identifiers,
//! drops empty identifiers and the well-known built-in style names, and
//! lists each side sorted, one entry per inventory entry — an identifier a
//! document carries twice is listed twice.  A search box then filters the
//! palette case-insensitively.

use vstd::prelude::*;
use crate::text::{chars_eq, copy_range, count_of, insert_sorted, is_match_at, occurs_at,
    sorted_leq, views};

verus! {

/// Which kind of style an identifier names.
pub enum StyleKind {
    Paragraph,
    Character,
    Other,
}

/// The built-in style names a reference document always carries; these are
/// not offered in the palette.
pub open spec fn default_style_names() -> Seq<Seq<char>> {
    seq![
        seq!['N', 'o', 'r', 'm', 'a', 'l'],
        seq!['H', 'e', 'a', 'd', 'i', 'n', 'g', '1'],
        seq!['H', 'e', 'a', 'd', 'i', 'n', 'g', '2'],
        seq!['H', 'e', 'a', 'd', 'i', 'n', 'g', '3'],
        seq!['H', 'e', 'a', 'd', 'i', 'n', 'g', '4'],
        seq!['H', 'e', 'a', 'd', 'i', 'n', 'g', '5'],
        seq!['H', 'e', 'a', 'd', 'i', 'n', 'g', '6'],
        seq!['H', 'e', 'a', 'd', 'i', 'n', 'g', '7'],
        seq!['H', 'e', 'a', 'd', 'i', 'n', 'g', '8'],
        seq!['H', 'e', 'a', 'd', 'i', 'n', 'g', '9'],
        seq!['T', 'i', 't', 'l', 'e'],
        seq!['S', 'u', 'b', 't', 'i', 't', 'l', 'e'],
        seq!['L', 'i', 's', 't', 'P', 'a', 'r', 'a', 'g', 'r', 'a', 'p', 'h'],
        seq!['C', 'a', 'p', 't', 'i', 'o', 'n'],
        seq!['T', 'O', 'C', '1'],
        seq!['T', 'O', 'C', '2'],
        seq!['T', 'O', 'C', '3'],
        seq!['T', 'a', 'b', 'l', 'e', 'N', 'o', 'r', 'm', 'a', 'l'],
        seq!['D', 'e', 'f', 'a', 'u', 'l', 't', 'P', 'a', 'r', 'a', 'g', 'r', 'a', 'p', 'h', 'F', 'o', 'n', 't'],
        seq!['E', 'm', 'p', 'h', 'a', 's', 'i', 's'],
        seq!['S', 't', 'r', 'o', 'n', 'g']
    ]
}

pub open spec fn is_default_style(n: Seq<char>) -> bool {
    default_style_names().contains(n)
}

/// Builds the built-in style name list.
fn default_style_names_vec() -> (r: Vec<Vec<char>>)
    ensures
        views(r@) == default_style_names(),
{
    let mut r: Vec<Vec<char>> = Vec::new();
    let mut n0: Vec<char> = Vec::new();
    n0.push('N');
    n0.push('o');
    n0.push('r');
    n0.push('m');
    n0.push('a');
    n0.push('l');
    proof {
        assert(n0@ =~= seq!['N', 'o', 'r', 'm', 'a', 'l']);
    }
    r.push(n0);
    let mut n1: Vec<char> = Vec::new();
    n1.push('H');
    n1.push('e');
    n1.push('a');
    n1.push('d');
    n1.push('i');
    n1.push('n');
    n1.push('g');
    n1.push('1');
    proof {
        assert(n1@ =~= seq!['H', 'e', 'a', 'd', 'i', 'n', 'g', '1']);
    }
    r.push(n1);
    let mut n2: Vec<char> = Vec::new();
    n2.push('H');
    n2.push('e');
    n2.push('a');
    n2.push('d');
    n2.push('i');
    n2.push('n');
    n2.push('g');
    n2.push('2');
    proof {
        assert(n2@ =~= seq!['H', 'e', 'a', 'd', 'i', 'n', 'g', '2']);
    }
    r.push(n2);
    let mut n3: Vec<char> = Vec::new();
    n3.push('H');
    n3.push('e');
    n3.push('a');
    n3.push('d');
    n3.push('i');
    n3.push('n');
    n3.push('g');
    n3.push('3');
    proof {
        assert(n3@ =~= seq!['H', 'e', 'a', 'd', 'i', 'n', 'g', '3']);
    }
    r.push(n3);
    let mut n4: Vec<char> = Vec::new();
    n4.push('H');
    n4.push('e');
    n4.push('a');
    n4.push('d');
    n4.push('i');
    n4.push('n');
    n4.push('g');
    n4.push('4');
    proof {
        assert(n4@ =~= seq!['H', 'e', 'a', 'd', 'i', 'n', 'g', '4']);
    }
    r.push(n4);
    let mut n5: Vec<char> = Vec::new();
    n5.push('H');
    n5.push('e');
    n5.push('a');
    n5.push('d');
    n5.push('i');
    n5.push('n');
    n5.push('g');
    n5.push('5');
    proof {
        assert(n5@ =~= seq!['H', 'e', 'a', 'd', 'i', 'n', 'g', '5']);
    }
    r.push(n5);
    let mut n6: Vec<char> = Vec::new();
    n6.push('H');
    n6.push('e');
    n6.push('a');
    n6.push('d');
    n6.push('i');
    n6.push('n');
    n6.push('g');
    n6.push('6');
    proof {
        assert(n6@ =~= seq!['H', 'e', 'a', 'd', 'i', 'n', 'g', '6']);
    }
    r.push(n6);
    let mut n7: Vec<char> = Vec::new();
    n7.push('H');
    n7.push('e');
    n7.push('a');
    n7.push('d');
    n7.push('i');
    n7.push('n');
    n7.push('g');
    n7.push('7');
    proof {
        assert(n7@ =~= seq!['H', 'e', 'a', 'd', 'i', 'n', 'g', '7']);
    }
    r.push(n7);
    let mut n8: Vec<char> = Vec::new();
    n8.push('H');
    n8.push('e');
    n8.push('a');
    n8.push('d');
    n8.push('i');
    n8.push('n');
    n8.push('g');
    n8.push('8');
    proof {
        assert(n8@ =~= seq!['H', 'e', 'a', 'd', 'i', 'n', 'g', '8']);
    }
    r.push(n8);
    let mut n9: Vec<char> = Vec::new();
    n9.push('H');
    n9.push('e');
    n9.push('a');
    n9.push('d');
    n9.push('i');
    n9.push('n');
    n9.push('g');
    n9.push('9');
    proof {
        assert(n9@ =~= seq!['H', 'e', 'a', 'd', 'i', 'n', 'g', '9']);
    }
    r.push(n9);
    let mut n10: Vec<char> = Vec::new();
    n10.push('T');
    n10.push('i');
    n10.push('t');
    n10.push('l');
    n10.push('e');
    proof {
        assert(n10@ =~= seq!['T', 'i', 't', 'l', 'e']);
    }
    r.push(n10);
    let mut n11: Vec<char> = Vec::new();
    n11.push('S');
    n11.push('u');
    n11.push('b');
    n11.push('t');
    n11.push('i');
    n11.push('t');
    n11.push('l');
    n11.push('e');
    proof {
        assert(n11@ =~= seq!['S', 'u', 'b', 't', 'i', 't', 'l', 'e']);
    }
    r.push(n11);
    let mut n12: Vec<char> = Vec::new();
    n12.push('L');
    n12.push('i');
    n12.push('s');
    n12.push('t');
    n12.push('P');
    n12.push('a');
    n12.push('r');
    n12.push('a');
    n12.push('g');
    n12.push('r');
    n12.push('a');
    n12.push('p');
    n12.push('h');
    proof {
        assert(n12@ =~= seq!['L', 'i', 's', 't', 'P', 'a', 'r', 'a', 'g', 'r', 'a', 'p', 'h']);
    }
    r.push(n12);
    let mut n13: Vec<char> = Vec::new();
    n13.push('C');
    n13.push('a');
    n13.push('p');
    n13.push('t');
    n13.push('i');
    n13.push('o');
    n13.push('n');
    proof {
        assert(n13@ =~= seq!['C', 'a', 'p', 't', 'i', 'o', 'n']);
    }
    r.push(n13);
    let mut n14: Vec<char> = Vec::new();
    n14.push('T');
    n14.push('O');
    n14.push('C');
    n14.push('1');
    proof {
        assert(n14@ =~= seq!['T', 'O', 'C', '1']);
    }
    r.push(n14);
    let mut n15: Vec<char> = Vec::new();
    n15.push('T');
    n15.push('O');
    n15.push('C');
    n15.push('2');
    proof {
        assert(n15@ =~= seq!['T', 'O', 'C', '2']);
    }
    r.push(n15);
    let mut n16: Vec<char> = Vec::new();
    n16.push('T');
    n16.push('O');
    n16.push('C');
    n16.push('3');
    proof {
        assert(n16@ =~= seq!['T', 'O', 'C', '3']);
    }
    r.push(n16);
    let mut n17: Vec<char> = Vec::new();
    n17.push('T');
    n17.push('a');
    n17.push('b');
    n17.push('l');
    n17.push('e');
    n17.push('N');
    n17.push('o');
    n17.push('r');
    n17.push('m');
    n17.push('a');
    n17.push('l');
    proof {
        assert(n17@ =~= seq!['T', 'a', 'b', 'l', 'e', 'N', 'o', 'r', 'm', 'a', 'l']);
    }
    r.push(n17);
    let mut n18: Vec<char> = Vec::new();
    n18.push('D');
    n18.push('e');
    n18.push('f');
    n18.push('a');
    n18.push('u');
    n18.push('l');
    n18.push('t');
    n18.push('P');
    n18.push('a');
    n18.push('r');
    n18.push('a');
    n18.push('g');
    n18.push('r');
    n18.push('a');
    n18.push('p');
    n18.push('h');
    n18.push('F');
    n18.push('o');
    n18.push('n');
    n18.push('t');
    proof {
        assert(n18@ =~= seq!['D', 'e', 'f', 'a', 'u', 'l', 't', 'P', 'a', 'r', 'a', 'g', 'r', 'a', 'p', 'h', 'F', 'o', 'n', 't']);
    }
    r.push(n18);
    let mut n19: Vec<char> = Vec::new();
    n19.push('E');
    n19.push('m');
    n19.push('p');
    n19.push('h');
    n19.push('a');
    n19.push('s');
    n19.push('i');
    n19.push('s');
    proof {
        assert(n19@ =~= seq!['E', 'm', 'p', 'h', 'a', 's', 'i', 's']);
    }
    r.push(n19);
    let mut n20: Vec<char> = Vec::new();
    n20.push('S');
    n20.push('t');
    n20.push('r');
    n20.push('o');
    n20.push('n');
    n20.push('g');
    proof {
        assert(n20@ =~= seq!['S', 't', 'r', 'o', 'n', 'g']);
    }
    r.push(n20);
    proof {
        assert(views(r@) =~= default_style_names());
    }
    r
}

fn is_default_style_exec(name: &Vec<char>) -> (r: bool)
    ensures
        r == is_default_style(name@),
{
    let defaults = default_style_names_vec();
    let n = defaults.len();
    let mut i: usize = 0;
    while i < n
        invariant
            i <= n,
            n == defaults@.len(),
            views(defaults@) == default_style_names(),
            forall|j: int| 0 <= j < i ==> views(defaults@)[j] != name@,
        decreases n - i,
    {
        if chars_eq(&defaults[i], name) {
            proof {
                assert(default_style_names()[i as int] == name@);
            }
            return true;
        }
        i += 1;
    }
    proof {
        if default_style_names().contains(name@) {
            let j = choose|j: int|
                0 <= j < default_style_names().len() && default_style_names()[j] == name@;
            assert(views(defaults@)[j] != name@);
            assert(false);
        }
    }
    false
}

/// An identifier the palette offers: non-empty and not a built-in name.
pub open spec fn eligible_style(n: Seq<char>) -> bool {
    n.len() > 0 && !is_default_style(n)
}

/// How many inventory entries carry this identifier with this kind,
/// eligibly: the multiplicity the palette list owes the identifier.
pub open spec fn eligible_count(
    styles: Seq<(Vec<char>, StyleKind)>,
    n: Seq<char>,
    kind: StyleKind,
) -> nat
    decreases styles.len(),
{
    if styles.len() == 0 {
        0nat
    } else {
        (if styles[0].0@ == n && styles[0].1 == kind && eligible_style(n) {
            1nat
        } else {
            0nat
        }) + eligible_count(styles.skip(1), n, kind)
    }
}

/// Taking one more inventory entry adds exactly that entry's contribution.
proof fn lemma_eligible_count_step(
    styles: Seq<(Vec<char>, StyleKind)>,
    i: int,
    n: Seq<char>,
    kind: StyleKind,
)
    requires
        0 <= i < styles.len(),
    ensures
        eligible_count(styles.take(i + 1), n, kind) == eligible_count(styles.take(i), n, kind) + (
        if styles[i].0@ == n && styles[i].1 == kind && eligible_style(n) {
            1nat
        } else {
            0nat
        }),
    decreases i,
{
    let ghost c = |e: (Vec<char>, StyleKind)|
        if e.0@ == n && e.1 == kind && eligible_style(n) {
            1nat
        } else {
            0nat
        };
    if i == 0 {
        assert(styles.take(1)[0] == styles[0]);
        assert(styles.take(1).skip(1) =~= Seq::<(Vec<char>, StyleKind)>::empty());
        assert(eligible_count(Seq::<(Vec<char>, StyleKind)>::empty(), n, kind) == 0nat);
        assert(eligible_count(styles.take(1), n, kind) == c(styles[0]) + 0nat);
        assert(eligible_count(styles.take(0), n, kind) == 0nat);
    } else {
        assert(styles.take(i + 1)[0] == styles[0]);
        assert(styles.take(i)[0] == styles[0]);
        assert(styles.take(i + 1).skip(1) =~= styles.skip(1).take(i));
        assert(styles.take(i).skip(1) =~= styles.skip(1).take(i - 1));
        assert(styles.skip(1)[i - 1] == styles[i]);
        lemma_eligible_count_step(styles.skip(1), i - 1, n, kind);
        assert(eligible_count(styles.take(i + 1), n, kind) == c(styles[0]) + eligible_count(
            styles.skip(1).take(i),
            n,
            kind,
        ));
        assert(eligible_count(styles.take(i), n, kind) == c(styles[0]) + eligible_count(
            styles.skip(1).take(i - 1),
            n,
            kind,
        ));
        assert(eligible_count(styles.skip(1).take(i), n, kind) == eligible_count(
            styles.skip(1).take(i - 1),
            n,
            kind,
        ) + c(styles[i]));
    }
}

/// The collected list holds each identifier exactly as often as the first
/// `i` inventory entries carry it, eligibly, with this kind.
spec fn partition_inv(
    list: Seq<Vec<char>>,
    styles: Seq<(Vec<char>, StyleKind)>,
    i: int,
    kind: StyleKind,
) -> bool {
    forall|n: Seq<char>|
        count_of(views(list), n) == eligible_count(styles.take(i), n, kind)
}

/// One inventory entry processed: the collected list either gained exactly
/// one copy of the entry's identifier (an eligible identifier of the right
/// kind) or stands unchanged (anything else).
proof fn lemma_partition_inv_step(
    list0: Seq<Vec<char>>,
    list1: Seq<Vec<char>>,
    styles: Seq<(Vec<char>, StyleKind)>,
    i: int,
    kind: StyleKind,
    added: bool,
    nv: Seq<char>,
)
    requires
        0 <= i < styles.len(),
        partition_inv(list0, styles, i, kind),
        added ==> forall|x: Seq<char>|
            count_of(views(list1), x) == count_of(views(list0), x) + (if x == nv {
                1nat
            } else {
                0nat
            }),
        added ==> nv == styles[i].0@ && styles[i].1 == kind && eligible_style(nv),
        !added ==> list1 == list0,
        !added ==> !(eligible_style(styles[i].0@) && styles[i].1 == kind),
    ensures
        partition_inv(list1, styles, i + 1, kind),
{
    assert forall|n: Seq<char>|
        count_of(views(list1), n) == eligible_count(styles.take(i + 1), n, kind) by {
        lemma_eligible_count_step(styles, i, n, kind);
        assert(count_of(views(list0), n) == eligible_count(styles.take(i), n, kind));
        if added {
            assert(count_of(views(list1), n) == count_of(views(list0), n) + (if n == nv {
                1nat
            } else {
                0nat
            }));
        }
    }
}

/// Splits a document's style inventory into its paragraph-level and
/// character-level identifiers, dropping empty identifiers and built-in
/// names; each side comes out sorted, and every eligible inventory entry
/// contributes one list entry, duplicates included.
#[verifier::rlimit(40)]
pub fn partition_styles(styles: &Vec<(Vec<char>, StyleKind)>) -> (r: (Vec<Vec<char>>, Vec<Vec<char>>))
    ensures
        sorted_leq(views(r.0@)),
        sorted_leq(views(r.1@)),
        forall|n: Seq<char>|
            count_of(views(r.0@), n) == eligible_count(styles@, n, StyleKind::Paragraph),
        forall|n: Seq<char>|
            count_of(views(r.1@), n) == eligible_count(styles@, n, StyleKind::Character),
{
    let n = styles.len();
    let mut paras: Vec<Vec<char>> = Vec::new();
    let mut chars: Vec<Vec<char>> = Vec::new();
    let mut i: usize = 0;
    while i < n
        invariant
            i <= n,
            n == styles@.len(),
            sorted_leq(views(paras@)),
            sorted_leq(views(chars@)),
            partition_inv(paras@, styles@, i as int, StyleKind::Paragraph),
            partition_inv(chars@, styles@, i as int, StyleKind::Character),
        decreases n - i,
    {
        let ghost paras0 = paras@;
        let ghost chars0 = chars@;
        let name = copy_range(&styles[i].0, 0, styles[i].0.len());
        proof {
            assert(name@ =~= styles@[i as int].0@);
        }
        let keep = if name.len() > 0 {
            !is_default_style_exec(&name)
        } else {
            false
        };
        let ghost nv = name@;
        let ghost kind = styles@[i as int].1;
        if keep {
            match styles[i].1 {
                StyleKind::Paragraph => {
                    insert_sorted(&mut paras, name);
                },
                StyleKind::Character => {
                    insert_sorted(&mut chars, name);
                },
                StyleKind::Other => {},
            }
        }
        proof {
            assert(keep == eligible_style(nv));
            lemma_partition_inv_step(
                paras0,
                paras@,
                styles@,
                i as int,
                StyleKind::Paragraph,
                keep && kind == StyleKind::Paragraph,
                nv,
            );
            lemma_partition_inv_step(
                chars0,
                chars@,
                styles@,
                i as int,
                StyleKind::Character,
                keep && kind == StyleKind::Character,
                nv,
            );
        }
        i += 1;
    }
    proof {
        assert(styles@.take(n as int) =~= styles@);
        assert forall|m: Seq<char>|
            count_of(views(paras@), m) == eligible_count(styles@, m, StyleKind::Paragraph) by {
            assert(count_of(views(paras@), m) == eligible_count(
                styles@.take(n as int),
                m,
                StyleKind::Paragraph,
            ));
        }
        assert forall|m: Seq<char>|
            count_of(views(chars@), m) == eligible_count(styles@, m, StyleKind::Character) by {
            assert(count_of(views(chars@), m) == eligible_count(
                styles@.take(n as int),
                m,
                StyleKind::Character,
            ));
        }
    }
    (paras, chars)
}

/// What Unicode lowercasing makes of a text; the mapping itself is the
/// standard library's.
pub uninterp spec fn lower_of(s: Seq<char>) -> Seq<char>;

/// Relies on str::to_lowercase: the result is a function of the input text
/// alone, and an empty text stays empty.
#[verifier::external_body]
fn lowercase(v: &Vec<char>) -> (r: Vec<char>)
    ensures
        r@ == lower_of(v@),
        v@.len() == 0 ==> r@.len() == 0,
{
    let s: String = v.iter().collect();
    s.to_lowercase().chars().collect()
}

/// `needle` occurs somewhere in `hay`; every text contains the empty text.
pub open spec fn contains_sub(hay: Seq<char>, needle: Seq<char>) -> bool {
    exists|i: int| is_match_at(hay, needle, i)
}

/// Does `needle` occur in `hay`?
pub fn contains_sub_exec(hay: &Vec<char>, needle: &Vec<char>) -> (r: bool)
    ensures
        r == contains_sub(hay@, needle@),
{
    let n = hay.len();
    let m = needle.len();
    if m > n {
        proof {
            assert forall|i: int| !is_match_at(hay@, needle@, i) by {}
        }
        return false;
    }
    if m == 0 {
        proof {
            assert(hay@.subrange(0, 0) =~= needle@);
            assert(is_match_at(hay@, needle@, 0));
        }
        return true;
    }
    let mut i: usize = 0;
    while i < n - m + 1
        invariant
            0 < m <= n,
            n == hay@.len(),
            m == needle@.len(),
            i <= n - m + 1,
            forall|j: int| 0 <= j < i ==> !is_match_at(hay@, needle@, j),
        decreases n - m + 1 - i,
    {
        if occurs_at(hay, needle, i) {
            proof {
                assert(is_match_at(hay@, needle@, i as int));
            }
            return true;
        }
        i += 1;
    }
    proof {
        assert forall|j: int| !is_match_at(hay@, needle@, j) by {
            if 0 <= j < n - m + 1 {
                assert(!is_match_at(hay@, needle@, j));
            }
        }
    }
    false
}

/// The style name matches the search text, compared case-insensitively; an
/// empty search matches every name.
pub open spec fn style_matches(name: Seq<char>, search: Seq<char>) -> bool {
    search.len() == 0 || contains_sub(lower_of(name), lower_of(search))
}

/// The palette rows one name list contributes, in order: each matching name
/// with its paragraph-level flag.
pub open spec fn filter_rows(names: Seq<Seq<char>>, search: Seq<char>, is_block: bool) -> Seq<
    (Seq<char>, bool),
>
    decreases names.len(),
{
    if names.len() == 0 {
        Seq::empty()
    } else {
        let rest = filter_rows(names.skip(1), search, is_block);
        if style_matches(names[0], search) {
            seq![(names[0], is_block)] + rest
        } else {
            rest
        }
    }
}

/// An empty search keeps every style: the filtered rows are the whole name
/// list, in order, each with its flag.
pub proof fn lemma_empty_search_keeps_all(names: Seq<Seq<char>>, search: Seq<char>, is_block: bool)
    requires
        search.len() == 0,
    ensures
        filter_rows(names, search, is_block) == Seq::new(
            names.len(),
            |i: int| (names[i], is_block),
        ),
    decreases names.len(),
{
    if names.len() == 0 {
        assert(filter_rows(names, search, is_block) =~= Seq::new(
            names.len(),
            |i: int| (names[i], is_block),
        ));
    } else {
        assert(style_matches(names[0], search));
        lemma_empty_search_keeps_all(names.skip(1), search, is_block);
        assert(seq![(names[0], is_block)] + Seq::new(
            names.skip(1).len(),
            |i: int| (names.skip(1)[i], is_block),
        ) =~= Seq::new(names.len(), |i: int| (names[i], is_block)));
    }
}

/// The mathematical contents of a palette row list.
pub open spec fn row_views(s: Seq<(Vec<char>, bool)>) -> Seq<(Seq<char>, bool)> {
    Seq::new(s.len(), |i: int| (s[i].0@, s[i].1))
}

/// Filters the style palette by a search text, case-insensitively: the
/// matching paragraph styles first, each flagged as block-level, then the
/// matching character styles.
pub fn filter_styles(
    paragraph: &Vec<Vec<char>>,
    character: &Vec<Vec<char>>,
    search: &Vec<char>,
) -> (r: Vec<(Vec<char>, bool)>)
    ensures
        row_views(r@) == filter_rows(views(paragraph@), search@, true) + filter_rows(
            views(character@),
            search@,
            false,
        ),
{
    let needle = lowercase(search);
    let mut out: Vec<(Vec<char>, bool)> = Vec::new();
    let ghost pv = views(paragraph@);
    let ghost cv = views(character@);
    let n = paragraph.len();
    let mut i: usize = 0;
    proof {
        assert(pv.skip(0) =~= pv);
    }
    while i < n
        invariant
            i <= n,
            n == paragraph@.len(),
            pv == views(paragraph@),
            needle@ == lower_of(search@),
            search@.len() == 0 ==> needle@.len() == 0,
            filter_rows(pv, search@, true) == row_views(out@) + filter_rows(
                pv.skip(i as int),
                search@,
                true,
            ),
        decreases n - i,
    {
        let ghost names = pv.skip(i as int);
        proof {
            assert(names[0] == pv[i as int]);
            assert(names.skip(1) =~= pv.skip(i + 1));
        }
        let low = lowercase(&paragraph[i]);
        let ghost pre = row_views(out@);
        proof {
            if search@.len() == 0 {
                assert(lower_of(pv[i as int]).subrange(0, 0) =~= lower_of(search@));
                assert(is_match_at(lower_of(pv[i as int]), lower_of(search@), 0));
                assert(contains_sub(lower_of(pv[i as int]), lower_of(search@)));
            }
        }
        if contains_sub_exec(&low, &needle) {
            let name = copy_range(&paragraph[i], 0, paragraph[i].len());
            proof {
                assert(name@ =~= pv[i as int]);
            }
            out.push((name, true));
            proof {
                assert(row_views(out@) =~= pre.push((pv[i as int], true)));
                assert(pre + (seq![(pv[i as int], true)] + filter_rows(pv.skip(i + 1), search@, true))
                    =~= row_views(out@) + filter_rows(pv.skip(i + 1), search@, true));
            }
        }
        i += 1;
    }
    let ghost mid = row_views(out@);
    proof {
        assert(filter_rows(pv.skip(n as int), search@, true) == Seq::<(Seq<char>, bool)>::empty());
        assert(mid + Seq::<(Seq<char>, bool)>::empty() =~= mid);
        assert(mid == filter_rows(pv, search@, true));
        assert(cv.skip(0) =~= cv);
    }
    let k = character.len();
    let mut j: usize = 0;
    while j < k
        invariant
            j <= k,
            k == character@.len(),
            cv == views(character@),
            needle@ == lower_of(search@),
            search@.len() == 0 ==> needle@.len() == 0,
            mid == filter_rows(pv, search@, true),
            filter_rows(pv, search@, true) + filter_rows(cv, search@, false) == row_views(out@)
                + filter_rows(cv.skip(j as int), search@, false),
        decreases k - j,
    {
        let ghost names = cv.skip(j as int);
        proof {
            assert(names[0] == cv[j as int]);
            assert(names.skip(1) =~= cv.skip(j + 1));
        }
        let low = lowercase(&character[j]);
        let ghost pre = row_views(out@);
        proof {
            if search@.len() == 0 {
                assert(lower_of(cv[j as int]).subrange(0, 0) =~= lower_of(search@));
                assert(is_match_at(lower_of(cv[j as int]), lower_of(search@), 0));
                assert(contains_sub(lower_of(cv[j as int]), lower_of(search@)));
            }
        }
        if contains_sub_exec(&low, &needle) {
            let name = copy_range(&character[j], 0, character[j].len());
            proof {
                assert(name@ =~= cv[j as int]);
            }
            out.push((name, false));
            proof {
                assert(row_views(out@) =~= pre.push((cv[j as int], false)));
                assert(pre + (seq![(cv[j as int], false)] + filter_rows(
                    cv.skip(j + 1),
                    search@,
                    false,
                )) =~= row_views(out@) + filter_rows(cv.skip(j + 1), search@, false));
            }
        }
        j += 1;
    }
    proof {
        assert(filter_rows(cv.skip(k as int), search@, false) == Seq::<(Seq<char>, bool)>::empty());
        assert(row_views(out@) + Seq::<(Seq<char>, bool)>::empty() =~= row_views(out@));
    }
    out
}

/// Keeps the palette's selected index inside the filtered list: unchanged
/// while in range, else the last row, or zero for an empty list.
pub fn clamp_selected(index: usize, len: usize) -> (r: usize)
    ensures
        len == 0 ==> r == 0,
        len > 0 ==> r == (if index < len {
            index as int
        } else {
            len - 1
        }),
{
    if len == 0 {
        0
    } else if index < len {
        index
    } else {
        len - 1
    }
}

} // verus!
