//! The marker value store: a mapping from marker literal to its assigned
//! substitution value, kept in sync with the document by reconciliation.
//!
//! Reconciliation against a freshly scanned marker set keeps the value of
//! every marker still present, drops every marker that vanished, and gives
//! every new marker the empty value; afterwards the store's key set equals
//! the scanned marker set exactly.

use vstd::prelude::*;
use crate::scan::{is_marker_listing, markers_of, scan_markers};
use crate::text::{chars_eq, copy_range, lex_lt, strictly_sorted, views};

verus! {

struct MarkerBinding {
    marker: Vec<char>,
    value: Vec<char>,
}

/// The value a pair listing assigns to key `k`: the value of the first pair
/// whose key is `k`, if any.
pub open spec fn pairs_get(ps: Seq<(Seq<char>, Seq<char>)>, k: Seq<char>) -> Option<Seq<char>>
    decreases ps.len(),
{
    if ps.len() == 0 {
        None
    } else if ps[0].0 == k {
        Some(ps[0].1)
    } else {
        pairs_get(ps.skip(1), k)
    }
}

pub proof fn lemma_pairs_get_none(ps: Seq<(Seq<char>, Seq<char>)>, k: Seq<char>)
    requires
        forall|j: int| 0 <= j < ps.len() ==> ps[j].0 != k,
    ensures
        pairs_get(ps, k) is None,
    decreases ps.len(),
{
    if ps.len() > 0 {
        assert(forall|j: int| 0 <= j < ps.skip(1).len() ==> ps.skip(1)[j] == ps[j + 1]);
        lemma_pairs_get_none(ps.skip(1), k);
    }
}

pub proof fn lemma_pairs_get_first(ps: Seq<(Seq<char>, Seq<char>)>, j: int, k: Seq<char>)
    requires
        0 <= j < ps.len(),
        ps[j].0 == k,
        forall|l: int| 0 <= l < j ==> ps[l].0 != k,
    ensures
        pairs_get(ps, k) == Some(ps[j].1),
    decreases ps.len(),
{
    if j > 0 {
        assert(forall|l: int| 0 <= l < ps.skip(1).len() ==> ps.skip(1)[l] == ps[l + 1]);
        lemma_pairs_get_first(ps.skip(1), j - 1, k);
    }
}

pub proof fn lemma_pairs_get_some_contains(ps: Seq<(Seq<char>, Seq<char>)>, k: Seq<char>)
    requires
        pairs_get(ps, k) is Some,
    ensures
        exists|j: int| 0 <= j < ps.len() && ps[j].0 == k,
    decreases ps.len(),
{
    if ps.len() > 0 && ps[0].0 != k {
        lemma_pairs_get_some_contains(ps.skip(1), k);
        let j = choose|j: int| 0 <= j < ps.skip(1).len() && ps.skip(1)[j].0 == k;
        assert(ps[j + 1].0 == k);
    }
}

/// The relation between a value map before and after reconciling it with
/// marker set `ms`: keys follow `ms`; surviving markers keep their values;
/// new markers get the empty value.
pub open spec fn reconciled(
    m0: Map<Seq<char>, Seq<char>>,
    ms: Seq<Seq<char>>,
    m1: Map<Seq<char>, Seq<char>>,
) -> bool {
    &&& forall|k: Seq<char>| #[trigger] m1.dom().contains(k) <==> ms.contains(k)
    &&& forall|k: Seq<char>| #[trigger]
        ms.contains(k) ==> m1[k] == (if m0.dom().contains(k) {
            m0[k]
        } else {
            Seq::<char>::empty()
        })
}

/// The one map that reconciling `m0` with marker set `ms` produces.
pub open spec fn reconcile_map(
    m0: Map<Seq<char>, Seq<char>>,
    ms: Seq<Seq<char>>,
) -> Map<Seq<char>, Seq<char>> {
    Map::new(
        |k: Seq<char>| ms.contains(k),
        |k: Seq<char>|
            if m0.dom().contains(k) {
                m0[k]
            } else {
                Seq::<char>::empty()
            },
    )
}

/// `reconciled` pins the result down: it holds exactly of `reconcile_map`.
pub proof fn lemma_reconciled_is_reconcile_map(
    m0: Map<Seq<char>, Seq<char>>,
    ms: Seq<Seq<char>>,
    m1: Map<Seq<char>, Seq<char>>,
)
    requires
        reconciled(m0, ms, m1),
    ensures
        m1 == reconcile_map(m0, ms),
{
    assert(m1 =~= reconcile_map(m0, ms));
}

/// Two marker listings with the same elements reconcile to the same map.
pub proof fn lemma_reconcile_map_same_elements(
    m0: Map<Seq<char>, Seq<char>>,
    ms1: Seq<Seq<char>>,
    ms2: Seq<Seq<char>>,
)
    requires
        forall|k: Seq<char>| ms1.contains(k) <==> ms2.contains(k),
    ensures
        reconcile_map(m0, ms1) == reconcile_map(m0, ms2),
{
    assert(reconcile_map(m0, ms1) =~= reconcile_map(m0, ms2));
}

/// Reconciling twice in a row with the same marker set changes no value:
/// the second reconciliation returns the map unchanged.
pub proof fn lemma_reconcile_idempotent(
    m0: Map<Seq<char>, Seq<char>>,
    ms: Seq<Seq<char>>,
    m1: Map<Seq<char>, Seq<char>>,
    m2: Map<Seq<char>, Seq<char>>,
)
    requires
        reconciled(m0, ms, m1),
        reconciled(m1, ms, m2),
    ensures
        m2 == m1,
{
    assert forall|k: Seq<char>| m1.dom().contains(k) implies m2[k] == m1[k] by {
        assert(ms.contains(k));
    }
    assert(m2 =~= m1);
}

/// After reconciling with `s1` and then with `s2`, the key set is exactly
/// `s2`; markers in both sets keep the value they had after the first
/// reconciliation; markers only in `s2` hold the empty value.
pub proof fn lemma_reconcile_sequence(
    m0: Map<Seq<char>, Seq<char>>,
    s1: Seq<Seq<char>>,
    m1: Map<Seq<char>, Seq<char>>,
    s2: Seq<Seq<char>>,
    m2: Map<Seq<char>, Seq<char>>,
)
    requires
        reconciled(m0, s1, m1),
        reconciled(m1, s2, m2),
    ensures
        forall|k: Seq<char>| #[trigger] m2.dom().contains(k) <==> s2.contains(k),
        forall|k: Seq<char>| s1.contains(k) && #[trigger] s2.contains(k) ==> m2[k] == m1[k],
        forall|k: Seq<char>|
            #[trigger] s2.contains(k) && !s1.contains(k) ==> m2[k] == Seq::<char>::empty(),
{
}

/// The marker value store.
pub struct ValueMap {
    entries: Vec<MarkerBinding>,
}

impl View for ValueMap {
    type V = Map<Seq<char>, Seq<char>>;

    /// The mapping this store holds.
    closed spec fn view(&self) -> Map<Seq<char>, Seq<char>> {
        Map::new(
            |k: Seq<char>| pairs_get(self.pairs(), k) is Some,
            |k: Seq<char>| pairs_get(self.pairs(), k)->Some_0,
        )
    }
}

impl ValueMap {
    /// The store's contents as a pair listing, in storage order.
    pub closed spec fn pairs(&self) -> Seq<(Seq<char>, Seq<char>)> {
        Seq::new(self.entries@.len(), |i: int| (self.entries@[i].marker@, self.entries@[i].value@))
    }

    /// The store's keys, in storage order.
    pub open spec fn key_seq(&self) -> Seq<Seq<char>> {
        Seq::new(self.pairs().len(), |i: int| self.pairs()[i].0)
    }

    /// Well-formed: keys strictly sorted, hence unique.
    pub open spec fn wf(&self) -> bool {
        strictly_sorted(self.key_seq())
    }

    /// The pair listing is faithful to the map view: every listed pair is a
    /// map entry, and every key in the map is listed.
    pub proof fn lemma_pairs_characterize(&self)
        requires
            self.wf(),
        ensures
            forall|i: int|
                0 <= i < self.pairs().len() ==> self@.dom().contains(#[trigger] self.pairs()[i].0)
                    && self@[self.pairs()[i].0] == self.pairs()[i].1,
            forall|k: Seq<char>| #[trigger] self@.dom().contains(k) ==> self.key_seq().contains(k),
    {
        assert forall|i: int| 0 <= i < self.pairs().len() implies self@.dom().contains(
            #[trigger] self.pairs()[i].0,
        ) && self@[self.pairs()[i].0] == self.pairs()[i].1 by {
            assert forall|l: int| 0 <= l < i implies self.pairs()[l].0 != self.pairs()[i].0 by {
                assert(lex_lt(self.key_seq()[l], self.key_seq()[i]));
            }
            lemma_pairs_get_first(self.pairs(), i, self.pairs()[i].0);
        }
        assert forall|k: Seq<char>| #[trigger] self@.dom().contains(k) implies self.key_seq(
        ).contains(k) by {
            lemma_pairs_get_some_contains(self.pairs(), k);
            let j = choose|j: int| 0 <= j < self.pairs().len() && self.pairs()[j].0 == k;
            assert(self.key_seq()[j] == k);
        }
    }

    /// An empty store.
    pub fn new() -> (r: ValueMap)
        ensures
            r.wf(),
            r@ == Map::<Seq<char>, Seq<char>>::empty(),
            r.pairs() == Seq::<(Seq<char>, Seq<char>)>::empty(),
    {
        let r = ValueMap { entries: Vec::new() };
        proof {
            assert(r.pairs() =~= Seq::<(Seq<char>, Seq<char>)>::empty());
            assert(r@ =~= Map::<Seq<char>, Seq<char>>::empty());
        }
        r
    }

    /// Number of markers held.
    pub fn len(&self) -> (r: usize)
        ensures
            r == self.pairs().len(),
    {
        self.entries.len()
    }

    /// The marker at storage position `i`.
    pub fn marker_at(&self, i: usize) -> (r: &Vec<char>)
        requires
            i < self.pairs().len(),
        ensures
            r@ == self.pairs()[i as int].0,
    {
        &self.entries[i].marker
    }

    /// The value at storage position `i`.
    pub fn value_at(&self, i: usize) -> (r: &Vec<char>)
        requires
            i < self.pairs().len(),
        ensures
            r@ == self.pairs()[i as int].1,
    {
        &self.entries[i].value
    }

    /// Looks a marker up.
    pub fn get<'a>(&'a self, k: &Vec<char>) -> (r: Option<&'a Vec<char>>)
        ensures
            match r {
                Some(v) => self@.dom().contains(k@) && v@ == self@[k@],
                None => !self@.dom().contains(k@),
            },
    {
        let n = self.entries.len();
        let mut i: usize = 0;
        proof {
            assert(self.pairs().skip(0) =~= self.pairs());
        }
        while i < n
            invariant
                i <= n,
                n == self.entries@.len(),
                pairs_get(self.pairs(), k@) == pairs_get(self.pairs().skip(i as int), k@),
            decreases n - i,
        {
            let ghost ps = self.pairs().skip(i as int);
            if chars_eq(&self.entries[i].marker, k) {
                proof {
                    assert(ps[0] == self.pairs()[i as int]);
                    assert(pairs_get(self.pairs(), k@) == Some(self.pairs()[i as int].1));
                }
                return Some(&self.entries[i].value);
            }
            proof {
                assert(ps[0] == self.pairs()[i as int]);
                assert(ps.skip(1) =~= self.pairs().skip(i + 1));
            }
            i += 1;
        }
        proof {
            assert(self.pairs().skip(n as int).len() == 0);
        }
        None
    }

    /// Is this marker currently held?
    pub fn contains_marker(&self, k: &Vec<char>) -> (r: bool)
        ensures
            r == self@.dom().contains(k@),
    {
        match self.get(k) {
            Some(_) => true,
            None => false,
        }
    }

    /// Reconciles the store with a freshly scanned marker set: markers still
    /// present keep their values, vanished markers are dropped, and new
    /// markers get the empty value.  Afterwards the key set equals the
    /// marker set exactly.
    pub fn reconcile(&mut self, markers: &Vec<Vec<char>>)
        requires
            old(self).wf(),
            strictly_sorted(views(markers@)),
        ensures
            final(self).wf(),
            final(self).key_seq() == views(markers@),
            reconciled(old(self)@, views(markers@), final(self)@),
    {
        let ghost ms = views(markers@);
        let n = markers.len();
        let mut new_entries: Vec<MarkerBinding> = Vec::new();
        let mut i: usize = 0;
        while i < n
            invariant
                i <= n,
                n == markers@.len(),
                ms == views(markers@),
                *self == *old(self),
                old(self).wf(),
                new_entries@.len() == i,
                forall|j: int| 0 <= j < i ==> new_entries@[j].marker@ == ms[j],
                forall|j: int|
                    0 <= j < i ==> new_entries@[j].value@ == (if old(self)@.dom().contains(
                        ms[j],
                    ) {
                        old(self)@[ms[j]]
                    } else {
                        Seq::<char>::empty()
                    }),
            decreases n - i,
        {
            let m = &markers[i];
            let value: Vec<char> = match self.get(m) {
                Some(v) => {
                    let c = copy_range(v, 0, v.len());
                    proof {
                        assert(c@ =~= v@);
                    }
                    c
                },
                None => Vec::new(),
            };
            let marker = copy_range(m, 0, m.len());
            proof {
                assert(marker@ =~= m@);
            }
            new_entries.push(MarkerBinding { marker, value });
            i += 1;
        }
        self.entries = new_entries;
        proof {
            assert(self.key_seq() =~= ms);
            assert forall|k: Seq<char>| self@.dom().contains(k) <==> ms.contains(k) by {
                if pairs_get(self.pairs(), k) is Some {
                    lemma_pairs_get_some_contains(self.pairs(), k);
                    let j = choose|j: int| 0 <= j < self.pairs().len() && self.pairs()[j].0 == k;
                    assert(ms[j] == k);
                }
                if ms.contains(k) {
                    let j = choose|j: int| 0 <= j < ms.len() && ms[j] == k;
                    assert forall|l: int| 0 <= l < j implies self.pairs()[l].0 != k by {
                        assert(lex_lt(ms[l], ms[j]));
                    }
                    lemma_pairs_get_first(self.pairs(), j, k);
                }
            }
            assert forall|k: Seq<char>| #[trigger] ms.contains(k) implies self@[k] == (if old(
                self,
            )@.dom().contains(k) {
                old(self)@[k]
            } else {
                Seq::<char>::empty()
            }) by {
                let j = choose|j: int| 0 <= j < ms.len() && ms[j] == k;
                assert forall|l: int| 0 <= l < j implies self.pairs()[l].0 != k by {
                    assert(lex_lt(ms[l], ms[j]));
                }
                lemma_pairs_get_first(self.pairs(), j, k);
                assert(self.pairs()[j].1 == new_entries@[j].value@);
            }
        }
    }

    /// The markers currently held, in sorted order, for display.
    pub fn marker_list(&self) -> (r: Vec<Vec<char>>)
        ensures
            views(r@) == self.key_seq(),
    {
        let n = self.entries.len();
        let mut r: Vec<Vec<char>> = Vec::new();
        let mut i: usize = 0;
        while i < n
            invariant
                i <= n,
                n == self.entries@.len(),
                r@.len() == i,
                forall|j: int| 0 <= j < i ==> r@[j]@ == self.key_seq()[j],
            decreases n - i,
        {
            let m = &self.entries[i].marker;
            let c = copy_range(m, 0, m.len());
            proof {
                assert(c@ =~= m@);
            }
            r.push(c);
            i += 1;
        }
        proof {
            assert(views(r@) =~= self.key_seq());
        }
        r
    }

    /// Overwrites the value of a marker already held; a no-op when the
    /// marker is absent.  Reports whether an update took place.
    pub fn set_value(&mut self, k: &Vec<char>, v: Vec<char>) -> (updated: bool)
        requires
            old(self).wf(),
        ensures
            final(self).wf(),
            final(self).key_seq() == old(self).key_seq(),
            updated == old(self)@.dom().contains(k@),
            updated ==> final(self)@ == old(self)@.insert(k@, v@),
            !updated ==> *final(self) == *old(self),
    {
        let n = self.entries.len();
        let mut i: usize = 0;
        while i < n
            invariant
                i <= n,
                n == self.entries@.len(),
                *self == *old(self),
                old(self).wf(),
                forall|j: int| 0 <= j < i ==> self.pairs()[j].0 != k@,
            decreases n - i,
        {
            if chars_eq(&self.entries[i].marker, k) {
                let ghost ps = self.pairs();
                let marker = copy_range(k, 0, k.len());
                proof {
                    assert(marker@ =~= k@);
                }
                self.entries[i] = MarkerBinding { marker, value: v };
                proof {
                    let ps2 = self.pairs();
                    assert(ps2 =~= ps.update(i as int, (k@, v@)));
                    assert(self.key_seq() =~= old(self).key_seq());
                    lemma_pairs_get_first(ps, i as int, k@);
                    lemma_set_value_view(ps, i as int, k@, v@);
                    assert(self@ =~= old(self)@.insert(k@, v@));
                    assert(strictly_sorted(self.key_seq()));
                    assert(old(self)@.dom().contains(k@));
                }
                return true;
            }
            i += 1;
        }
        proof {
            lemma_pairs_get_none(self.pairs(), k@);
        }
        false
    }
}

/// Scans the buffer and reconciles the store with the markers found, the
/// step every edit-driven refresh performs; returns the sorted marker list
/// for display.
pub fn scan_and_update_markers(map: &mut ValueMap, buf: &Vec<char>) -> (markers: Vec<Vec<char>>)
    requires
        old(map).wf(),
    ensures
        final(map).wf(),
        is_marker_listing(buf@, views(markers@)),
        final(map)@ == reconcile_map(old(map)@, markers_of(buf@)),
        final(map).key_seq() == views(markers@),
{
    let markers = scan_markers(buf);
    map.reconcile(&markers);
    proof {
        lemma_reconciled_is_reconcile_map(old(map)@, views(markers@), map@);
        lemma_reconcile_map_same_elements(old(map)@, views(markers@), markers_of(buf@));
    }
    markers
}

/// After overwriting the value at the first occurrence of key `k`, the pair
/// listing assigns `v` to `k` and is unchanged on every other key.
proof fn lemma_set_value_view(ps: Seq<(Seq<char>, Seq<char>)>, i: int, k: Seq<char>, v: Seq<char>)
    requires
        0 <= i < ps.len(),
        ps[i].0 == k,
        forall|l: int| 0 <= l < i ==> ps[l].0 != k,
    ensures
        pairs_get(ps.update(i, (k, v)), k) == Some(v),
        forall|k2: Seq<char>|
            k2 != k ==> pairs_get(ps.update(i, (k, v)), k2) == pairs_get(ps, k2),
    decreases ps.len(),
{
    let ps2 = ps.update(i, (k, v));
    assert(forall|l: int| 0 <= l < i ==> ps2[l].0 != k);
    lemma_pairs_get_first(ps2, i, k);
    assert(pairs_get(ps2, k) == Some(v));
    assert forall|k2: Seq<char>| k2 != k implies pairs_get(ps2, k2) == pairs_get(ps, k2) by {
        lemma_pairs_get_skip_update(ps, i, k, v, k2);
    }
}

/// Updating one pair whose key is not `k2` leaves the value of `k2` alone.
proof fn lemma_pairs_get_skip_update(
    ps: Seq<(Seq<char>, Seq<char>)>,
    i: int,
    k: Seq<char>,
    v: Seq<char>,
    k2: Seq<char>,
)
    requires
        0 <= i < ps.len(),
        k2 != k,
        ps[i].0 == k,
    ensures
        pairs_get(ps.update(i, (k, v)), k2) == pairs_get(ps, k2),
    decreases ps.len(),
{
    let ps2 = ps.update(i, (k, v));
    if i == 0 {
        assert(ps2[0].0 == k);
        assert(ps[0].0 == k);
        assert(ps2.skip(1) =~= ps.skip(1));
    } else {
        assert(ps2[0] == ps[0]);
        if ps[0].0 != k2 {
            assert(ps2.skip(1) =~= ps.skip(1).update(i - 1, (k, v)));
            assert(ps.skip(1)[i - 1].0 == k);
            lemma_pairs_get_skip_update(ps.skip(1), i - 1, k, v, k2);
        }
    }
}

} // verus!
