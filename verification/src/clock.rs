//! Vector clocks: one logical counter per replica, merged by taking maxima.

use std::cmp::Ordering;

use vstd::prelude::*;
use vstd::std_specs::cmp::PartialEqSpecImpl;

verus! {

/// One entry of a vector clock: a replica and the counter recorded for it.
pub type Entry = (u16, u64);

/// Index of the first entry of `s` that belongs to `node`.
pub open spec fn first_index(s: Seq<Entry>, node: u16) -> Option<int>
    decreases s.len(),
{
    if s.len() == 0 {
        None
    } else if s[0].0 == node {
        Some(0)
    } else {
        match first_index(s.drop_first(), node) {
            Some(i) => Some(i + 1),
            None => None,
        }
    }
}

/// `i` is the position of the first entry for `node`.
pub open spec fn is_first(s: Seq<Entry>, node: u16, i: int) -> bool {
    &&& 0 <= i < s.len()
    &&& s[i].0 == node
    &&& forall|j: int| 0 <= j < i ==> s[j].0 != node
}

/// What `first_index` means.
pub broadcast proof fn lemma_first_index_spec(s: Seq<Entry>, node: u16)
    ensures
        match #[trigger] first_index(s, node) {
            Some(i) => is_first(s, node, i),
            None => forall|j: int| 0 <= j < s.len() ==> s[j].0 != node,
        },
    decreases s.len(),
{
    if s.len() > 0 && s[0].0 != node {
        lemma_first_index_spec(s.drop_first(), node);
        match first_index(s.drop_first(), node) {
            Some(i) => {
                assert forall|j: int| 0 <= j < i + 1 implies s[j].0 != node by {
                    if j > 0 {
                        assert(s[j] == s.drop_first()[j - 1]);
                    }
                }
            },
            None => {
                assert forall|j: int| 0 <= j < s.len() implies s[j].0 != node by {
                    if j > 0 {
                        assert(s[j] == s.drop_first()[j - 1]);
                    }
                }
            },
        }
    }
}

/// There is only one first entry for a replica.
pub proof fn lemma_first_index_at(s: Seq<Entry>, node: u16, i: int)
    requires
        is_first(s, node, i),
    ensures
        first_index(s, node) == Some(i),
{
    lemma_first_index_spec(s, node);
    match first_index(s, node) {
        Some(k) => {
            if k < i {
                assert(s[k].0 != node);
            } else if i < k {
                assert(s[i].0 != node);
            }
        },
        None => {
            assert(s[i].0 != node);
        },
    }
}

/// The counter a clock records for `node`: that of its first entry for the node.
pub open spec fn clock_in(s: Seq<Entry>, node: u16) -> Option<u64> {
    match first_index(s, node) {
        Some(i) => Some(s[i].1),
        None => None,
    }
}

/// The counter recorded for `node`, or 0 where the clock has none.
pub open spec fn count(s: Seq<Entry>, node: u16) -> u64 {
    match clock_in(s, node) {
        Some(c) => c,
        None => 0,
    }
}

/// Every entry is at most the counter that the clock records for its replica,
/// so a later duplicate entry never hides a larger count.
pub open spec fn well_formed(s: Seq<Entry>) -> bool {
    forall|j: int| 0 <= j < s.len() ==> s[j].1 <= count(s, s[j].0)
}

/// The clock as a map from the replicas it knows to their counters.
pub open spec fn clock_map(s: Seq<Entry>) -> Map<u16, u64> {
    Map::new(|n: u16| first_index(s, n) is Some, |n: u16| count(s, n))
}

pub open spec fn max_u64(a: u64, b: u64) -> u64 {
    if a >= b {
        a
    } else {
        b
    }
}

/// Pointwise maximum of two clock maps; a replica known to one side only keeps its counter.
pub open spec fn join(a: Map<u16, u64>, b: Map<u16, u64>) -> Map<u16, u64> {
    Map::new(
        |n: u16| a.contains_key(n) || b.contains_key(n),
        |n: u16|
            if a.contains_key(n) && b.contains_key(n) {
                max_u64(a[n], b[n])
            } else if a.contains_key(n) {
                a[n]
            } else {
                b[n]
            },
    )
}


/// `m` with the counter of `n` raised to at least `c`.
pub open spec fn raise(m: Map<u16, u64>, n: u16, c: u64) -> Map<u16, u64> {
    if m.contains_key(n) {
        m.insert(n, max_u64(m[n], c))
    } else {
        m.insert(n, c)
    }
}

/// `s` after the entry `e` of another clock was merged into it: the first entry
/// for `e.0` is raised to `e.1`, or `e` is appended where `s` has none.
pub open spec fn merge_entry(s: Seq<Entry>, e: Entry) -> Seq<Entry> {
    match first_index(s, e.0) {
        Some(i) => s.update(i, (e.0, max_u64(s[i].1, e.1))),
        None => s.push(e),
    }
}

/// `s` after every entry of `o` was merged into it, in order.
pub open spec fn merge(s: Seq<Entry>, o: Seq<Entry>) -> Seq<Entry>
    decreases o.len(),
{
    if o.len() == 0 {
        s
    } else {
        merge_entry(merge(s, o.drop_last()), o.last())
    }
}

/// `s` after a message from `node` was received: the first entry for `node` is
/// incremented, where there is one, and the entry `(node, 1)` is appended.
pub open spec fn tick(s: Seq<Entry>, node: u16) -> Seq<Entry> {
    let bumped = match first_index(s, node) {
        Some(i) => s.update(i, (node, (s[i].1 + 1) as u64)),
        None => s,
    };
    bumped.push((node, 1u64))
}

/// Two sequences whose entries name the same replicas in the same places
/// have the same first entries.
pub proof fn lemma_same_nodes(s1: Seq<Entry>, s2: Seq<Entry>, n: u16)
    requires
        s1.len() == s2.len(),
        forall|j: int| 0 <= j < s1.len() ==> s1[j].0 == s2[j].0,
    ensures
        first_index(s1, n) == first_index(s2, n),
{
    lemma_first_index_spec(s1, n);
    lemma_first_index_spec(s2, n);
    match first_index(s1, n) {
        Some(i) => {
            lemma_first_index_at(s2, n, i);
        },
        None => {
            match first_index(s2, n) {
                Some(k) => {
                    assert(s1[k].0 == n);
                },
                None => {},
            }
        },
    }
}

/// First entries after an entry is appended.
pub proof fn lemma_push_first(s: Seq<Entry>, e: Entry, n: u16)
    ensures
        first_index(s.push(e), n) == (if first_index(s, n) is Some {
            first_index(s, n)
        } else if e.0 == n {
            Some(s.len() as int)
        } else {
            None
        }),
{
    let t = s.push(e);
    lemma_first_index_spec(s, n);
    lemma_first_index_spec(t, n);
    match first_index(s, n) {
        Some(i) => {
            assert(is_first(t, n, i)) by {
                assert(t[i] == s[i]);
                assert forall|j: int| 0 <= j < i implies t[j].0 != n by {
                    assert(t[j] == s[j]);
                }
            }
            lemma_first_index_at(t, n, i);
        },
        None => {
            if e.0 == n {
                assert(is_first(t, n, s.len() as int)) by {
                    assert forall|j: int| 0 <= j < s.len() implies t[j].0 != n by {
                        assert(t[j] == s[j]);
                    }
                }
                lemma_first_index_at(t, n, s.len() as int);
            } else {
                assert forall|j: int| 0 <= j < t.len() implies t[j].0 != n by {
                    if j < s.len() {
                        assert(t[j] == s[j]);
                    }
                }
                match first_index(t, n) {
                    Some(k) => {
                        assert(t[k].0 == n);
                    },
                    None => {},
                }
            }
        },
    }
}

/// Merging one entry raises the clock map at that entry's replica, and keeps a
/// well-formed clock well-formed.
pub proof fn lemma_merge_entry(s: Seq<Entry>, e: Entry)
    ensures
        clock_map(merge_entry(s, e)) == raise(clock_map(s), e.0, e.1),
        well_formed(s) ==> well_formed(merge_entry(s, e)),
        forall|n: u16| count(s, n) <= #[trigger] count(merge_entry(s, e), n),
{
    let t = merge_entry(s, e);
    lemma_first_index_spec(s, e.0);
    match first_index(s, e.0) {
        Some(i) => {
            assert forall|n: u16| #[trigger] first_index(t, n) == first_index(s, n) by {
                lemma_same_nodes(s, t, n);
            }
            assert forall|n: u16| #[trigger] count(t, n) == (if n == e.0 {
                max_u64(s[i].1, e.1)
            } else {
                count(s, n)
            }) by {
                lemma_first_index_spec(s, n);
            }
            assert(clock_map(t) =~= raise(clock_map(s), e.0, e.1));
            if well_formed(s) {
                assert forall|j: int| 0 <= j < t.len() implies t[j].1 <= #[trigger] count(t, t[j].0) by {
                    assert(s[j].1 <= count(s, s[j].0));
                    assert(count(t, t[j].0) == (if t[j].0 == e.0 {
                        max_u64(s[i].1, e.1)
                    } else {
                        count(s, t[j].0)
                    }));
                }
            }
        },
        None => {
            assert forall|n: u16|
                #![trigger first_index(t, n)]
                #![trigger count(t, n)]
                count(t, n) == (if n == e.0 {
                e.1
            } else {
                count(s, n)
            }) && (first_index(t, n) is Some <==> (first_index(s, n) is Some || n == e.0)) by {
                lemma_push_first(s, e, n);
                lemma_first_index_spec(s, n);
            }
            assert(clock_map(t) =~= raise(clock_map(s), e.0, e.1));
            if well_formed(s) {
                assert forall|j: int| 0 <= j < t.len() implies t[j].1 <= #[trigger] count(t, t[j].0) by {
                    if j < s.len() {
                        assert(t[j] == s[j]);
                        assert(s[j].1 <= count(s, s[j].0));
                    }
                }
            }
        },
    }
}

/// A well-formed clock is the clock without its last entry, raised by that entry;
/// and dropping the last entry keeps it well-formed.
pub proof fn lemma_drop_last(o: Seq<Entry>)
    requires
        o.len() > 0,
        well_formed(o),
    ensures
        well_formed(o.drop_last()),
        clock_map(o) == raise(clock_map(o.drop_last()), o.last().0, o.last().1),
{
    let p = o.drop_last();
    let e = o.last();
    assert(o == p.push(e));
    assert forall|n: u16|
        #![trigger first_index(o, n)]
        #![trigger count(o, n)]
        count(o, n) == (if first_index(p, n) is Some {
            count(p, n)
        } else if n == e.0 {
            e.1
        } else {
            0
        }) && (first_index(o, n) is Some <==> (first_index(p, n) is Some || n == e.0)) by {
        lemma_push_first(p, e, n);
        lemma_first_index_spec(p, n);
    }
    assert forall|j: int| 0 <= j < p.len() implies p[j].1 <= count(p, p[j].0) by {
        assert(p[j] == o[j]);
        assert(o[j].1 <= count(o, o[j].0));
        lemma_first_index_spec(p, p[j].0);
    }
    assert(e.1 <= count(o, e.0)) by {
        assert(o[o.len() - 1] == e);
    }
    assert(clock_map(o) =~= raise(clock_map(p), e.0, e.1));
}

pub proof fn lemma_raise_join(a: Map<u16, u64>, b: Map<u16, u64>, n: u16, c: u64)
    ensures
        raise(join(a, b), n, c) == join(a, raise(b, n, c)),
{
    assert(raise(join(a, b), n, c) =~= join(a, raise(b, n, c)));
}

/// Merging a well-formed clock `o` into `s` gives the pointwise maximum of the two
/// clock maps, never lowers a counter, and keeps `s` well-formed.
pub proof fn lemma_merge(s: Seq<Entry>, o: Seq<Entry>)
    ensures
        well_formed(o) ==> clock_map(merge(s, o)) == join(clock_map(s), clock_map(o)),
        well_formed(s) ==> well_formed(merge(s, o)),
        forall|n: u16| count(s, n) <= #[trigger] count(merge(s, o), n),
    decreases o.len(),
{
    if o.len() == 0 {
        assert(clock_map(o) =~= Map::<u16, u64>::empty());
        assert(join(clock_map(s), clock_map(o)) =~= clock_map(s));
    } else {
        let p = o.drop_last();
        lemma_merge(s, p);
        lemma_merge_entry(merge(s, p), o.last());
        if well_formed(o) {
            lemma_drop_last(o);
            lemma_raise_join(clock_map(s), clock_map(p), o.last().0, o.last().1);
        }
        assert forall|n: u16| count(s, n) <= #[trigger] count(merge(s, o), n) by {
            assert(count(s, n) <= count(merge(s, p), n));
            assert(count(merge(s, p), n) <= count(merge_entry(merge(s, p), o.last()), n));
        }
    }
}

/// Receiving from `node` adds one to its counter and keeps the clock well-formed.
pub proof fn lemma_tick(s: Seq<Entry>, node: u16)
    requires
        count(s, node) < u64::MAX,
    ensures
        clock_map(tick(s, node)) == clock_map(s).insert(node, (count(s, node) + 1) as u64),
        well_formed(s) ==> well_formed(tick(s, node)),
{
    let t = tick(s, node);
    lemma_first_index_spec(s, node);
    let bumped = match first_index(s, node) {
        Some(i) => s.update(i, (node, (s[i].1 + 1) as u64)),
        None => s,
    };
    assert forall|n: u16|
        #![trigger first_index(t, n)]
        #![trigger count(t, n)]
        count(t, n) == (if n == node {
            (count(s, n) + 1) as u64
        } else {
            count(s, n)
        }) && (first_index(t, n) is Some <==> (first_index(s, n) is Some || n == node)) by {
        lemma_same_nodes(s, bumped, n);
        lemma_push_first(bumped, (node, 1u64), n);
        lemma_first_index_spec(s, n);
    }
    assert(clock_map(t) =~= clock_map(s).insert(node, (count(s, node) + 1) as u64));
    if well_formed(s) {
        assert forall|j: int| 0 <= j < t.len() implies t[j].1 <= count(t, t[j].0) by {
            if j < s.len() {
                assert(t[j] == bumped[j]);
                assert(s[j].1 <= count(s, s[j].0));
            }
        }
    }
}

/// The entries of `b` that are ahead of what `a` records for their replicas.
pub open spec fn behind(a: Seq<Entry>, b: Seq<Entry>) -> Seq<Entry> {
    b.filter(|e: Entry| e.1 > count(a, e.0))
}

/// `a` records, for every entry of `b`, a counter at least as large.
pub open spec fn dominates(a: Seq<Entry>, b: Seq<Entry>) -> bool {
    forall|j: int| 0 <= j < b.len() ==> b[j].1 <= count(a, b[j].0)
}

/// `a` and `b` are the same clock: neither is ahead of the other anywhere.
pub open spec fn equivalent(a: Seq<Entry>, b: Seq<Entry>) -> bool {
    dominates(a, b) && dominates(b, a)
}

/// Nothing of `b` is ahead of `a` exactly when `a` dominates `b`.
pub proof fn lemma_behind_empty(a: Seq<Entry>, b: Seq<Entry>)
    ensures
        behind(a, b).len() == 0 <==> dominates(a, b),
{
    broadcast use vstd::seq_lib::group_filter_ensures;

    let p = |e: Entry| e.1 > count(a, e.0);
    if behind(a, b).len() == 0 {
        assert forall|j: int| 0 <= j < b.len() implies b[j].1 <= count(a, b[j].0) by {
            if b[j].1 > count(a, b[j].0) {
                b.lemma_filter_contains(p, j);
                assert(b.filter(p).contains(b[j]));
            }
        }
    } else {
        let x = b.filter(p)[0];
        assert(b.filter(p).contains(x));
        b.lemma_filter_contains_rev(p, x);
        b.lemma_filter_pred(p, 0);
        let j = choose|j: int| 0 <= j < b.len() && b[j] == x;
        assert(b[j].1 > count(a, b[j].0));
    }
}

/// For a well-formed `b`, `a` dominates `b` exactly when `a` records, for every
/// replica that `b` knows, at least the counter that `b` records.
pub proof fn lemma_dominates_counts(a: Seq<Entry>, b: Seq<Entry>)
    requires
        well_formed(b),
    ensures
        dominates(a, b) <==> (forall|n: u16|
            clock_map(b).contains_key(n) ==> #[trigger] count(b, n) <= count(a, n)),
{
    broadcast use lemma_first_index_spec;

    if dominates(a, b) {
        assert forall|n: u16| clock_map(b).contains_key(n) implies #[trigger] count(b, n) <= count(a, n) by {
            let j = first_index(b, n)->0;
            assert(b[j].1 <= count(a, b[j].0));
        }
    }
    if forall|n: u16| clock_map(b).contains_key(n) ==> #[trigger] count(b, n) <= count(a, n) {
        assert forall|j: int| 0 <= j < b.len() implies b[j].1 <= count(a, b[j].0) by {
            assert(b[j].1 <= count(b, b[j].0));
            assert(clock_map(b).contains_key(b[j].0));
        }
    }
}

/// The largest counter among the entries for `node`, or 0 where there is none.
pub open spec fn peak(s: Seq<Entry>, node: u16) -> u64
    decreases s.len(),
{
    if s.len() == 0 {
        0
    } else {
        max_u64(peak(s.drop_last(), node), if s.last().0 == node { s.last().1 } else { 0 })
    }
}

/// `peak` is an upper bound of the entries for the replica, and is 0 or one of them.
pub proof fn lemma_peak_spec(s: Seq<Entry>, node: u16)
    ensures
        forall|j: int| 0 <= j < s.len() && s[j].0 == node ==> s[j].1 <= peak(s, node),
        peak(s, node) == 0 || exists|j: int|
            0 <= j < s.len() && s[j].0 == node && s[j].1 == peak(s, node),
    decreases s.len(),
{
    if s.len() > 0 {
        let p = s.drop_last();
        lemma_peak_spec(p, node);
        assert forall|j: int| 0 <= j < s.len() && s[j].0 == node implies s[j].1 <= peak(s, node) by {
            if j < s.len() - 1 {
                assert(s[j] == p[j]);
            }
        }
        if peak(s, node) != 0 {
            if peak(s, node) == peak(p, node) {
                let j = choose|j: int| 0 <= j < p.len() && p[j].0 == node && p[j].1 == peak(p, node);
                assert(s[j] == p[j]);
            } else {
                assert(s[s.len() - 1].0 == node && s[s.len() - 1].1 == peak(s, node));
            }
        }
    }
}

/// A value with the two properties of `lemma_peak_spec` is the peak.
pub proof fn lemma_peak_unique(s: Seq<Entry>, node: u16, x: u64)
    requires
        forall|j: int| 0 <= j < s.len() && s[j].0 == node ==> s[j].1 <= x,
        x == 0 || exists|j: int| 0 <= j < s.len() && s[j].0 == node && s[j].1 == x,
    ensures
        peak(s, node) == x,
{
    lemma_peak_spec(s, node);
    if x != 0 {
        let j = choose|j: int| 0 <= j < s.len() && s[j].0 == node && s[j].1 == x;
        assert(x <= peak(s, node));
    }
    if peak(s, node) != 0 {
        let j = choose|j: int| 0 <= j < s.len() && s[j].0 == node && s[j].1 == peak(s, node);
        assert(peak(s, node) <= x);
    }
}

/// The counter a merged entry leaves for `n`.
pub proof fn lemma_count_merge_entry(s: Seq<Entry>, e: Entry, n: u16)
    ensures
        count(merge_entry(s, e), n) == (if n == e.0 {
            max_u64(count(s, n), e.1)
        } else {
            count(s, n)
        }),
        (first_index(merge_entry(s, e), n) is Some) == (first_index(s, n) is Some || n == e.0),
{
    lemma_merge_entry(s, e);
    let t = merge_entry(s, e);
    assert(clock_map(t).contains_key(n) == raise(clock_map(s), e.0, e.1).contains_key(n));
    if clock_map(t).contains_key(n) {
        assert(clock_map(t)[n] == raise(clock_map(s), e.0, e.1)[n]);
    }
}

/// Merging any clock `b` into `a` leaves, for every replica, the larger of `a`'s
/// counter and the largest entry of `b`; the replicas known afterwards are those
/// known to either.
pub proof fn lemma_count_merge_any(a: Seq<Entry>, b: Seq<Entry>, n: u16)
    ensures
        count(merge(a, b), n) == max_u64(count(a, n), peak(b, n)),
        (first_index(merge(a, b), n) is Some) == (first_index(a, n) is Some || exists|j: int|
            0 <= j < b.len() && b[j].0 == n),
    decreases b.len(),
{
    if b.len() > 0 {
        let p = b.drop_last();
        lemma_count_merge_any(a, p, n);
        lemma_count_merge_entry(merge(a, p), b.last(), n);
        if exists|j: int| 0 <= j < b.len() && b[j].0 == n {
            let j = choose|j: int| 0 <= j < b.len() && b[j].0 == n;
            if j < b.len() - 1 {
                assert(p[j] == b[j]);
            }
        }
        if exists|j: int| 0 <= j < p.len() && p[j].0 == n {
            let j = choose|j: int| 0 <= j < p.len() && p[j].0 == n;
            assert(b[j] == p[j]);
        }
    }
}

/// The largest entry of a replica after a merge is the larger of the two clocks'.
pub proof fn lemma_peak_merge_entry(s: Seq<Entry>, e: Entry, n: u16)
    ensures
        peak(merge_entry(s, e), n) == max_u64(peak(s, n), if e.0 == n { e.1 } else { 0 }),
{
    broadcast use lemma_first_index_spec;

    match first_index(s, e.0) {
        Some(i) => {
            let t = s.update(i, (e.0, max_u64(s[i].1, e.1)));
            let x = max_u64(peak(s, n), if e.0 == n { e.1 } else { 0 });
            lemma_peak_spec(s, n);
            assert forall|j: int| 0 <= j < t.len() && t[j].0 == n implies t[j].1 <= x by {
                if j != i {
                    assert(t[j] == s[j]);
                }
            }
            if x != 0 {
                if e.0 == n && x == max_u64(s[i].1, e.1) {
                    assert(t[i].0 == n && t[i].1 == x);
                } else if x == peak(s, n) {
                    let j = choose|j: int| 0 <= j < s.len() && s[j].0 == n && s[j].1 == peak(s, n);
                    if j == i {
                        assert(t[i].1 == x);
                    } else {
                        assert(t[j] == s[j]);
                    }
                } else {
                    assert(e.0 == n && x == e.1);
                    assert(t[i].1 == x);
                }
            }
            lemma_peak_unique(t, n, x);
        },
        None => {
            assert(s.push(e).drop_last() == s);
        },
    }
}

/// The largest entry of a replica in a merged clock is the larger of the two clocks'.
pub proof fn lemma_peak_merge(a: Seq<Entry>, b: Seq<Entry>, n: u16)
    ensures
        peak(merge(a, b), n) == max_u64(peak(a, n), peak(b, n)),
    decreases b.len(),
{
    if b.len() > 0 {
        lemma_peak_merge(a, b.drop_last(), n);
        lemma_peak_merge_entry(merge(a, b.drop_last()), b.last(), n);
    }
}

/// Clocks that compare equal are well-formed and record the same counter for every
/// replica.
pub proof fn lemma_equivalent_well_formed(a: Seq<Entry>, b: Seq<Entry>)
    requires
        equivalent(a, b),
    ensures
        well_formed(a),
        well_formed(b),
        forall|n: u16| #[trigger] count(a, n) == count(b, n),
{
    broadcast use lemma_first_index_spec;

    assert forall|n: u16| #[trigger] count(a, n) == count(b, n) by {
        if first_index(a, n) is Some {
            let i = first_index(a, n)->0;
            assert(a[i].1 <= count(b, a[i].0));
        }
        if first_index(b, n) is Some {
            let i = first_index(b, n)->0;
            assert(b[i].1 <= count(a, b[i].0));
        }
    }
    assert forall|j: int| 0 <= j < a.len() implies a[j].1 <= count(a, a[j].0) by {
        assert(a[j].1 <= count(b, a[j].0));
    }
    assert forall|j: int| 0 <= j < b.len() implies b[j].1 <= count(b, b[j].0) by {
        assert(b[j].1 <= count(a, b[j].0));
    }
}

/// A clock that dominates two clocks dominates their merge.
pub proof fn lemma_merge_dominated(a: Seq<Entry>, b: Seq<Entry>, c: Seq<Entry>)
    requires
        dominates(c, a),
        dominates(c, b),
    ensures
        dominates(c, merge(a, b)),
    decreases b.len(),
{
    broadcast use lemma_first_index_spec;

    if b.len() > 0 {
        let p = b.drop_last();
        let e = b.last();
        assert forall|j: int| 0 <= j < p.len() implies p[j].1 <= count(c, p[j].0) by {
            assert(p[j] == b[j]);
        }
        lemma_merge_dominated(a, p, c);
        let s = merge(a, p);
        assert(e.1 <= count(c, e.0)) by {
            assert(b[b.len() - 1] == e);
        }
        let t = merge_entry(s, e);
        match first_index(s, e.0) {
            Some(i) => {
                assert forall|j: int| 0 <= j < t.len() implies t[j].1 <= count(c, t[j].0) by {
                    if j != i {
                        assert(t[j] == s[j]);
                    } else {
                        assert(s[i].1 <= count(c, s[i].0));
                    }
                }
            },
            None => {
                assert forall|j: int| 0 <= j < t.len() implies t[j].1 <= count(c, t[j].0) by {
                    if j < s.len() {
                        assert(t[j] == s[j]);
                    }
                }
            },
        }
    }
}

/// The counters of a clock, read from its clock map: a replica it does not know
/// counts as 0.
pub proof fn lemma_map_ext(x: Seq<Entry>, y: Seq<Entry>)
    requires
        forall|n: u16| #[trigger] count(x, n) == count(y, n),
        forall|n: u16| (#[trigger] first_index(x, n) is Some) == (first_index(y, n) is Some),
    ensures
        clock_map(x) == clock_map(y),
{
    assert(clock_map(x) =~= clock_map(y));
}

/// Merging is commutative for well-formed clocks: merging `b` into `a` and `a`
/// into `b` give the same clock map. (It is not for every clock: merging
/// `[(1, 1), (1, 2)]` into the empty clock records 2 for replica 1, the other way
/// round 1.)
pub proof fn law_update_commutative(a: Seq<Entry>, b: Seq<Entry>)
    requires
        well_formed(a),
        well_formed(b),
    ensures
        clock_map(merge(a, b)) == clock_map(merge(b, a)),
{
    lemma_merge(a, b);
    lemma_merge(b, a);
    assert(join(clock_map(a), clock_map(b)) =~= join(clock_map(b), clock_map(a)));
}

/// Merging a well-formed clock into itself changes no counter. (Merging
/// `[(1, 1), (1, 2)]` into itself raises replica 1 from 1 to 2.)
pub proof fn law_update_idempotent(a: Seq<Entry>)
    requires
        well_formed(a),
    ensures
        clock_map(merge(a, a)) == clock_map(a),
{
    lemma_merge(a, a);
    assert(join(clock_map(a), clock_map(a)) =~= clock_map(a));
}

/// Repeating a merge changes nothing, for every pair of clocks.
pub proof fn law_update_repeat(a: Seq<Entry>, b: Seq<Entry>)
    ensures
        clock_map(merge(merge(a, b), b)) == clock_map(merge(a, b)),
{
    assert forall|n: u16| #[trigger] count(merge(merge(a, b), b), n) == count(merge(a, b), n) by {
        lemma_count_merge_any(a, b, n);
        lemma_count_merge_any(merge(a, b), b, n);
    }
    assert forall|n: u16|
        (#[trigger] first_index(merge(merge(a, b), b), n) is Some) == (first_index(
            merge(a, b),
            n,
        ) is Some) by {
        lemma_count_merge_any(a, b, n);
        lemma_count_merge_any(merge(a, b), b, n);
    }
    lemma_map_ext(merge(merge(a, b), b), merge(a, b));
}

/// Merging is associative, for every three clocks: the order in which they are
/// combined does not change the resulting counters or the replicas known.
pub proof fn law_update_associative(a: Seq<Entry>, b: Seq<Entry>, c: Seq<Entry>)
    ensures
        clock_map(merge(merge(a, b), c)) == clock_map(merge(a, merge(b, c))),
{
    broadcast use lemma_first_index_spec;

    let l = merge(merge(a, b), c);
    let r = merge(a, merge(b, c));
    assert forall|n: u16| #[trigger] count(l, n) == count(r, n) by {
        lemma_count_merge_any(a, b, n);
        lemma_count_merge_any(merge(a, b), c, n);
        lemma_count_merge_any(a, merge(b, c), n);
        lemma_peak_merge(b, c, n);
    }
    assert forall|n: u16| (#[trigger] first_index(l, n) is Some) == (first_index(r, n) is Some) by {
        lemma_count_merge_any(a, b, n);
        lemma_count_merge_any(merge(a, b), c, n);
        lemma_count_merge_any(a, merge(b, c), n);
        lemma_count_merge_any(b, c, n);
        if exists|j: int| 0 <= j < b.len() && b[j].0 == n {
            let j = choose|j: int| 0 <= j < b.len() && b[j].0 == n;
            assert(first_index(b, n) is Some);
        }
        if exists|j: int| 0 <= j < merge(b, c).len() && merge(b, c)[j].0 == n {
            let j = choose|j: int| 0 <= j < merge(b, c).len() && merge(b, c)[j].0 == n;
            assert(first_index(merge(b, c), n) is Some);
        }
        if first_index(merge(b, c), n) is Some {
            let j = first_index(merge(b, c), n)->0;
            assert(merge(b, c)[j].0 == n);
        }
        if first_index(b, n) is Some {
            let j = first_index(b, n)->0;
            assert(b[j].0 == n);
        }
    }
    lemma_map_ext(l, r);
}

/// After a merge the clock dominates the clock merged in, and the clock it was
/// where that was well-formed; and any clock that dominates both dominates it.
/// (A clock `[(1, 1), (1, 2)]` is not dominated by itself, merged with anything or
/// not.)
pub proof fn law_update_least_upper_bound(a: Seq<Entry>, b: Seq<Entry>, c: Seq<Entry>)
    ensures
        well_formed(a) ==> dominates(merge(a, b), a),
        dominates(merge(a, b), b),
        dominates(c, a) && dominates(c, b) ==> dominates(c, merge(a, b)),
{
    let m = merge(a, b);
    assert forall|j: int| 0 <= j < b.len() implies b[j].1 <= count(m, b[j].0) by {
        lemma_peak_spec(b, b[j].0);
        lemma_count_merge_any(a, b, b[j].0);
    }
    if well_formed(a) {
        assert forall|j: int| 0 <= j < a.len() implies a[j].1 <= count(m, a[j].0) by {
            lemma_count_merge_any(a, b, a[j].0);
        }
    }
    if dominates(c, a) && dominates(c, b) {
        lemma_merge_dominated(a, b, c);
    }
}

/// Receiving from `from` moves a well-formed clock forward at `from` only: the new
/// clock dominates the old one, and the entries of the new clock that are ahead of
/// the old one are some, all for `from`.
pub proof fn law_recv_advances(s: Seq<Entry>, from: u16)
    requires
        well_formed(s),
        count(s, from) < u64::MAX,
    ensures
        dominates(tick(s, from), s),
        behind(s, tick(s, from)).len() > 0,
        forall|k: int|
            0 <= k < behind(s, tick(s, from)).len() ==> #[trigger] behind(s, tick(s, from))[k].0
                == from,
{
    broadcast use lemma_first_index_spec;
    broadcast use vstd::seq_lib::group_filter_ensures;

    let t = tick(s, from);
    lemma_tick(s, from);
    assert forall|n: u16| #[trigger] count(t, n) == (if n == from {
        (count(s, n) + 1) as u64
    } else {
        count(s, n)
    }) by {
        assert(clock_map(t).contains_key(n) == clock_map(s).insert(
            from,
            (count(s, from) + 1) as u64,
        ).contains_key(n));
        if clock_map(t).contains_key(n) {
            assert(clock_map(t)[n] == clock_map(s).insert(from, (count(s, from) + 1) as u64)[n]);
        }
    }
    assert forall|j: int| 0 <= j < s.len() implies s[j].1 <= count(t, s[j].0) by {
        assert(s[j].1 <= count(s, s[j].0));
    }
    let p = |e: Entry| e.1 > count(s, e.0);
    let bumped = match first_index(s, from) {
        Some(i) => s.update(i, (from, (s[i].1 + 1) as u64)),
        None => s,
    };
    assert forall|k: int| 0 <= k < t.filter(p).len() implies #[trigger] t.filter(p)[k].0 == from by {
        let x = t.filter(p)[k];
        assert(t.filter(p).contains(x));
        t.lemma_filter_contains_rev(p, x);
        t.lemma_filter_pred(p, k);
        let j = choose|j: int| 0 <= j < t.len() && t[j] == x;
        if j < s.len() && x.0 != from {
            assert(t[j] == bumped[j]);
            assert(bumped[j] == s[j]);
            assert(s[j].1 <= count(s, s[j].0));
        }
    }
    match first_index(s, from) {
        Some(i) => {
            assert(t[i] == (from, (s[i].1 + 1) as u64));
            assert(p(t[i]));
            t.lemma_filter_contains(p, i);
        },
        None => {
            assert(t[s.len() as int] == (from, 1u64));
            assert(p(t[s.len() as int]));
            t.lemma_filter_contains(p, s.len() as int);
        },
    }
}

/// Two clocks compare equal exactly when both are well-formed and they record the
/// same counter for every replica, a replica that a clock does not know counting as
/// 0. (A clock that is not well-formed is not even equal to itself.)
pub proof fn law_equivalent_iff_same_counters(a: Seq<Entry>, b: Seq<Entry>)
    ensures
        equivalent(a, b) <==> (well_formed(a) && well_formed(b) && forall|n: u16|
            #[trigger] count(a, n) == count(b, n)),
{
    if equivalent(a, b) {
        lemma_equivalent_well_formed(a, b);
    }
    if well_formed(a) && well_formed(b) && forall|n: u16| #[trigger] count(a, n) == count(b, n) {
        lemma_dominates_counts(a, b);
        lemma_dominates_counts(b, a);
    }
}

/// Position of the first entry for `node`.
fn position_in(entries: &Vec<Entry>, node: &u16) -> (r: Option<usize>)
    ensures
        match r {
            Some(i) => i < entries@.len() && first_index(entries@, *node) == Some(i as int),
            None => first_index(entries@, *node) is None,
        },
{
    broadcast use lemma_first_index_spec;

    let mut i: usize = 0;
    while i < entries.len()
        invariant
            0 <= i <= entries@.len(),
            forall|j: int| 0 <= j < i ==> entries@[j].0 != *node,
        decreases entries@.len() - i,
    {
        if entries[i].0 == *node {
            proof {
                lemma_first_index_at(entries@, *node, i as int);
            }
            return Some(i);
        }
        i = i + 1;
    }
    None
}

/// A vector clock.
pub struct VectorClock {
    entries: Vec<Entry>,
}

impl View for VectorClock {
    type V = Seq<Entry>;

    closed spec fn view(&self) -> Seq<Entry> {
        self.entries@
    }
}

impl VectorClock {
    /// A clock that knows only `me`, at 0.
    pub fn new(me: u16) -> (r: Self)
        ensures
            r@ == seq![(me, 0u64)],
            clock_map(r@) == map![me => 0u64],
    {
        broadcast use lemma_first_index_spec;
        let mut entries: Vec<Entry> = Vec::new();
        entries.push((me, 0));
        let r = VectorClock { entries };
        assert(first_index(r@, me) == Some(0int));
        assert(clock_map(r@) =~= map![me => 0u64]);
        r
    }

    /// Appends an entry.
    fn add_node(&mut self, from: &u16, clock: u64)
        ensures
            final(self)@ == old(self)@.push((*from, clock)),
    {
        self.entries.push((*from, clock));
    }

    /// Records a message received from `from`: its first entry, where there is
    /// one, goes up by one, and an entry `(from, 1)` is appended.
    pub fn recv(&mut self, from: &u16)
        requires
            count(old(self)@, *from) < u64::MAX,
        ensures
            final(self)@ == tick(old(self)@, *from),
            clock_map(final(self)@) == clock_map(old(self)@).insert(
                *from,
                (count(old(self)@, *from) + 1) as u64,
            ),
            well_formed(old(self)@) ==> well_formed(final(self)@),
    {
        proof {
            lemma_tick(self@, *from);
        }
        if let Some(i) = position_in(&self.entries, from) {
            let c = self.entries[i].1;
            self.entries.set(i, (*from, c + 1));
        }
        self.add_node(from, 1);
    }

    /// Merges `other` into this clock: every entry of `other`, in order, raises the
    /// first entry for its replica, or is appended where this clock has none.
    pub fn update(&mut self, other: &Self)
        ensures
            final(self)@ == merge(old(self)@, other@),
            well_formed(other@) ==> clock_map(final(self)@) == join(
                clock_map(old(self)@),
                clock_map(other@),
            ),
            well_formed(old(self)@) ==> well_formed(final(self)@),
    {
        proof {
            lemma_merge(self@, other@);
        }
        let ghost s0 = self@;
        let mut k: usize = 0;
        while k < other.entries.len()
            invariant
                0 <= k <= other@.len(),
                other.entries@ == other@,
                self@ == merge(s0, other@.take(k as int)),
            decreases other@.len() - k,
        {
            proof {
                assert(other@.take(k + 1).drop_last() == other@.take(k as int));
                assert(other@.take(k + 1).last() == other@[k as int]);
            }
            let (n, c) = other.entries[k];
            proof {
                lemma_first_index_spec(self@, n);
            }
            match position_in(&self.entries, &n) {
                Some(i) => {
                    let current = self.entries[i].1;
                    let raised = if c >= current {
                        c
                    } else {
                        current
                    };
                    self.entries.set(i, (n, raised));
                },
                None => {
                    self.add_node(&n, c);
                },
            }
            k = k + 1;
        }
        proof {
            assert(other@.take(other@.len() as int) == other@);
        }
    }

    /// The entries of `other` that are ahead of this clock, in their order in `other`.
    pub fn behind_nodes(&self, other: &Self) -> (r: Vec<Entry>)
        ensures
            r@ == behind(self@, other@),
    {
        let ghost p = |e: Entry| e.1 > count(self@, e.0);
        let mut r: Vec<Entry> = Vec::new();
        let mut k: usize = 0;
        while k < other.entries.len()
            invariant
                0 <= k <= other@.len(),
                other.entries@ == other@,
                p == (|e: Entry| e.1 > count(self@, e.0)),
                r@ == other@.take(k as int).filter(p),
            decreases other@.len() - k,
        {
            proof {
                reveal_with_fuel(Seq::<_>::filter, 1);
                assert(other@.take(k + 1).drop_last() == other@.take(k as int));
                assert(other@.take(k + 1).last() == other@[k as int]);
            }
            let e = other.entries[k];
            let mine = match self.clock_of(&e.0) {
                Some(c) => c,
                None => 0,
            };
            if e.1 > mine {
                r.push(e);
            }
            k = k + 1;
        }
        proof {
            assert(other@.take(other@.len() as int) == other@);
        }
        r
    }

    /// The entries, in order.
    pub fn entries(&self) -> (r: Vec<Entry>)
        ensures
            r@ == self@,
    {
        let mut r: Vec<Entry> = Vec::new();
        let mut k: usize = 0;
        while k < self.entries.len()
            invariant
                0 <= k <= self@.len(),
                self.entries@ == self@,
                r@ == self@.take(k as int),
            decreases self@.len() - k,
        {
            r.push(self.entries[k]);
            proof {
                assert(self@.take(k + 1) == self@.take(k as int).push(self@[k as int]));
            }
            k = k + 1;
        }
        proof {
            assert(self@.take(self@.len() as int) == self@);
        }
        r
    }

    /// A clock made of the given entries, in order.
    pub fn from_entries(entries: Vec<Entry>) -> (r: Self)
        ensures
            r@ == entries@,
    {
        VectorClock { entries }
    }

    /// Whether every entry is at most the counter recorded for its replica, so that
    /// no later duplicate entry holds a larger count than the first.
    pub fn is_well_formed(&self) -> (r: bool)
        ensures
            r == well_formed(self@),
    {
        let mut j: usize = 0;
        while j < self.entries.len()
            invariant
                0 <= j <= self@.len(),
                self.entries@ == self@,
                forall|k: int| 0 <= k < j ==> self@[k].1 <= count(self@, self@[k].0),
            decreases self@.len() - j,
        {
            let e = self.entries[j];
            let recorded = match self.clock_of(&e.0) {
                Some(c) => c,
                None => 0,
            };
            if e.1 > recorded {
                return false;
            }
            j = j + 1;
        }
        true
    }

    /// Whether this clock records the same counters as `other` for every entry of
    /// either: neither has an entry ahead of the other.
    fn same_as(&self, other: &Self) -> (r: bool)
        ensures
            r == equivalent(self@, other@),
    {
        proof {
            lemma_behind_empty(self@, other@);
            lemma_behind_empty(other@, self@);
        }
        self.behind_nodes(other).len() == 0 && other.behind_nodes(self).len() == 0
    }

    /// Compares two clocks that are not equal: `None` where each is ahead of the
    /// other somewhere, and `Some(Ordering::Greater)` where only one of them is.
    pub fn partial_cmp(&self, other: &Self) -> (r: Option<Ordering>)
        requires
            !equivalent(self@, other@),
        ensures
            r == (if !dominates(self@, other@) && !dominates(other@, self@) {
                None::<Ordering>
            } else {
                Some(Ordering::Greater)
            }),
    {
        proof {
            lemma_behind_empty(self@, other@);
            lemma_behind_empty(other@, self@);
        }
        let mut gt: Option<&VectorClock> = None;
        if self.behind_nodes(other).len() > 0 {
            gt = Some(other);
        }
        if other.behind_nodes(self).len() > 0 {
            match gt {
                Some(_) => {
                    return None;
                },
                None => {
                    gt = Some(self);
                },
            }
        }
        match gt {
            Some(n) => {
                if *n == *self {
                    Some(Ordering::Greater)
                } else {
                    Some(Ordering::Greater)
                }
            },
            None => vstd::pervasive::unreached(),
        }
    }

    /// The counter recorded for `node`, if the clock knows it.
    pub fn clock_of(&self, node: &u16) -> (r: Option<u64>)
        ensures
            r == clock_in(self@, *node),
    {
        match position_in(&self.entries, node) {
            Some(i) => Some(self.entries[i].1),
            None => None,
        }
    }
}

impl Clone for VectorClock {
    fn clone(&self) -> (r: Self)
        ensures
            r@ == self@,
    {
        VectorClock { entries: self.entries() }
    }
}

impl PartialEq for VectorClock {
    fn eq(&self, other: &Self) -> (r: bool) {
        self.same_as(other)
    }
}

impl PartialEqSpecImpl for VectorClock {
    open spec fn obeys_eq_spec() -> bool {
        true
    }

    open spec fn eq_spec(&self, other: &Self) -> bool {
        equivalent(self@, other@)
    }
}

impl Eq for VectorClock {

}

} // verus!
