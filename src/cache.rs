//! The connection cache: each desired connection with the connections
//! believed relevant to it, and the pure steps that keep it current.
//!
//! An empty list of connections means "needs refresh".

use vstd::prelude::*;
use crate::config::{Config, DesiredConnection, DesiredConnectionView, is_ignored, label_set};
use crate::mvg::{Connection, TransportType};

verus! {

/// Below this many connections left for a desired connection, all of them
/// are dropped so that a fresh list is fetched.
pub const TOO_FEW_CONNECTIONS: usize = 3;

/// A connection stays reachable while at least the walk divided by this
/// much remains before it departs: with 2, half of the walk.
pub const REMAINING_WALK_DIVISOR: i64 = 2;

/// Each desired connection with its cached connections, in configuration
/// order.
#[derive(Debug, Clone)]
pub struct ConnectionsCache {
    pub connections: Vec<(DesiredConnection, Vec<Connection>)>,
}

/// One cache entry as a mathematical value.
pub open spec fn entry_view(e: (DesiredConnection, Vec<Connection>)) -> (
    DesiredConnectionView,
    Seq<Connection>,
) {
    (e.0@, e.1@)
}

impl View for ConnectionsCache {
    type V = Seq<(DesiredConnectionView, Seq<Connection>)>;

    open spec fn view(&self) -> Seq<(DesiredConnectionView, Seq<Connection>)> {
        self.connections@.map_values(|e: (DesiredConnection, Vec<Connection>)| entry_view(e))
    }
}

/// Every cached connection has at least one leg.
pub open spec fn cache_wf(c: Seq<(DesiredConnectionView, Seq<Connection>)>) -> bool {
    forall|i: int, j: int| 0 <= i < c.len() && 0 <= j < c[i].1.len() ==> #[trigger] c[i].1[j].wf()
}

/// The desired connections of a cache, in order.
pub open spec fn desired_of(c: Seq<(DesiredConnectionView, Seq<Connection>)>) -> Seq<
    DesiredConnectionView,
> {
    c.map_values(|e: (DesiredConnectionView, Seq<Connection>)| e.0)
}

/// The cache after reconciliation with the configured desired connections:
/// unchanged if they match, otherwise the configured ones with empty lists.
pub open spec fn reconciled(
    c: Seq<(DesiredConnectionView, Seq<Connection>)>,
    cfg: Seq<DesiredConnectionView>,
) -> Seq<(DesiredConnectionView, Seq<Connection>)> {
    if desired_of(c) == cfg {
        c
    } else {
        cfg.map_values(|d: DesiredConnectionView| (d, Seq::<Connection>::empty()))
    }
}

/// A connection can still be caught at `now` by someone who needs `walk`
/// seconds to the start: it has not left, and at least the walk divided by
/// `REMAINING_WALK_DIVISOR` remains before it leaves (compared exactly,
/// after multiplying through by the divisor).
pub open spec fn reachable(c: Connection, walk: i64, now: i64) -> bool {
    &&& now <= c.departure_time()
    &&& REMAINING_WALK_DIVISOR * now <= REMAINING_WALK_DIVISOR * c.departure_time() - walk
}

/// The connections of a list that are still reachable, in order.
pub open spec fn reachable_only(cs: Seq<Connection>, walk: i64, now: i64) -> Seq<Connection> {
    cs.filter(reachable_at(walk, now))
}

/// Reachability at `now` for a walk of `walk` seconds, as a predicate.
pub open spec fn reachable_at(walk: i64, now: i64) -> spec_fn(Connection) -> bool {
    |c: Connection| reachable(c, walk, now)
}

/// The cache with every unreachable connection removed.
pub open spec fn without_unreachable(
    c: Seq<(DesiredConnectionView, Seq<Connection>)>,
    now: i64,
) -> Seq<(DesiredConnectionView, Seq<Connection>)> {
    c.map_values(
        |e: (DesiredConnectionView, Seq<Connection>)|
            (e.0, reachable_only(e.1, e.0.walk_to_start, now)),
    )
}

/// A connection starts with a leg worth taking: not a walk, and not on an
/// ignored line.
pub open spec fn allowed_start(c: Connection, ignore: Set<Seq<char>>) -> bool {
    &&& c.first_part().line.transport_type != TransportType::Pedestrian
    &&& !ignore.contains(c.first_part().line.label@)
}

/// The connections of a list that start with an allowed leg, in order.
pub open spec fn allowed_only(cs: Seq<Connection>, ignore: Set<Seq<char>>) -> Seq<Connection> {
    cs.filter(allowed_with(ignore))
}

/// Starting with an allowed leg for the ignore list `ignore`, as a predicate.
pub open spec fn allowed_with(ignore: Set<Seq<char>>) -> spec_fn(Connection) -> bool {
    |c: Connection| allowed_start(c, ignore)
}

/// The cache with every connection removed that starts with a disallowed leg.
pub open spec fn without_disallowed_starts(c: Seq<(DesiredConnectionView, Seq<Connection>)>) -> Seq<
    (DesiredConnectionView, Seq<Connection>),
> {
    c.map_values(
        |e: (DesiredConnectionView, Seq<Connection>)|
            (e.0, allowed_only(e.1, e.0.ignore_starting_with)),
    )
}

/// A list of `k` connections is too short for `limit`.
pub open spec fn too_few(k: nat, limit: usize) -> bool {
    0 < k < limit
}

/// The cache with every list that is too short emptied.
pub open spec fn without_too_few(
    c: Seq<(DesiredConnectionView, Seq<Connection>)>,
    limit: usize,
) -> Seq<(DesiredConnectionView, Seq<Connection>)> {
    c.map_values(
        |e: (DesiredConnectionView, Seq<Connection>)|
            (e.0, if too_few(e.1.len(), limit) {
                Seq::<Connection>::empty()
            } else {
                e.1
            }),
    )
}

/// The reachable connections of a list, in order.
fn keep_reachable(cs: Vec<Connection>, walk: i64, now: i64) -> (r: Vec<Connection>)
    requires
        forall|j: int| 0 <= j < cs@.len() ==> #[trigger] cs@[j].wf(),
    ensures
        r@ == reachable_only(cs@, walk, now),
{
    let mut r: Vec<Connection> = Vec::new();
    let mut rest = cs;
    while rest.len() > 0
        invariant
            rest@.len() <= cs@.len(),
            rest@ == cs@.skip(cs@.len() - rest@.len()),
            r@ == reachable_only(cs@.take(cs@.len() - rest@.len()), walk, now),
            forall|j: int| 0 <= j < cs@.len() ==> #[trigger] cs@[j].wf(),
        decreases rest@.len(),
    {
        let ghost done = cs@.len() - rest@.len();
        let c = rest.remove(0);
        proof {
            assert(cs@.take(done + 1).drop_last() =~= cs@.take(done));
            assert(cs@.take(done + 1).last() == c);
            reveal(Seq::filter);
            assert(rest@ =~= cs@.skip(done + 1));
            assert(c.wf());
        }
        let dep = c.planned_departure_time();
        let divisor = REMAINING_WALK_DIVISOR as i128;
        if now <= dep && divisor * (now as i128) <= divisor * (dep as i128) - (walk as i128) {
            r.push(c);
        }
    }
    proof {
        assert(cs@.take(cs@.len() as int) =~= cs@);
    }
    r
}

/// The connections of a list that start with an allowed leg, in order.
fn keep_allowed(cs: Vec<Connection>, ignore: &Vec<String>) -> (r: Vec<Connection>)
    requires
        forall|j: int| 0 <= j < cs@.len() ==> #[trigger] cs@[j].wf(),
    ensures
        r@ == allowed_only(cs@, label_set(ignore@)),
{
    let mut r: Vec<Connection> = Vec::new();
    let mut rest = cs;
    while rest.len() > 0
        invariant
            rest@.len() <= cs@.len(),
            rest@ == cs@.skip(cs@.len() - rest@.len()),
            r@ == allowed_only(cs@.take(cs@.len() - rest@.len()), label_set(ignore@)),
            forall|j: int| 0 <= j < cs@.len() ==> #[trigger] cs@[j].wf(),
        decreases rest@.len(),
    {
        let ghost done = cs@.len() - rest@.len();
        let c = rest.remove(0);
        proof {
            assert(cs@.take(done + 1).drop_last() =~= cs@.take(done));
            assert(cs@.take(done + 1).last() == c);
            reveal(Seq::filter);
            assert(rest@ =~= cs@.skip(done + 1));
            assert(c.wf());
        }
        let first = c.departure();
        if first.line_transport_type() != TransportType::Pedestrian && !is_ignored(
            &first.line.label,
            ignore,
        ) {
            r.push(c);
        }
    }
    proof {
        assert(cs@.take(cs@.len() as int) =~= cs@);
    }
    r
}


/// How many entries of a cache have an empty list and need a refresh.
pub open spec fn pending_count(c: Seq<(DesiredConnectionView, Seq<Connection>)>) -> nat
    decreases c.len(),
{
    if c.len() == 0 {
        0
    } else {
        pending_count(c.drop_last()) + if c.last().1.len() == 0 {
            1nat
        } else {
            0nat
        }
    }
}

/// The entry at `i` after a refresh with the fetched lists `fetched`, one
/// for each entry with an empty list, in order: entries with connections
/// stay as they are; an empty one receives its fetched list.
pub open spec fn refreshed_entry<E>(
    c: Seq<(DesiredConnectionView, Seq<Connection>)>,
    fetched: Seq<Result<Vec<Connection>, E>>,
    i: int,
) -> (DesiredConnectionView, Seq<Connection>) {
    if c[i].1.len() > 0 {
        c[i]
    } else {
        match fetched[pending_count(c.take(i)) as int] {
            Ok(cs) => (c[i].0, cs@),
            Err(_) => c[i],
        }
    }
}

/// Counting the entries to refresh grows with the prefix counted.
proof fn lemma_pending_monotone(c: Seq<(DesiredConnectionView, Seq<Connection>)>, i: int, j: int)
    requires
        0 <= i <= j <= c.len(),
    ensures
        pending_count(c.take(i)) <= pending_count(c.take(j)),
    decreases j - i,
{
    if i < j {
        assert(c.take(j).drop_last() =~= c.take(j - 1));
        lemma_pending_monotone(c, i, j - 1);
    }
}

/// The listed items of one entry: each connection whose first line is not
/// ignored, paired with the walk to the start, in order.
pub open spec fn listed(walk: i64, ignore: Set<Seq<char>>, cs: Seq<Connection>) -> Seq<
    (i64, Connection),
>
    decreases cs.len(),
{
    if cs.len() == 0 {
        Seq::empty()
    } else {
        let rest = listed(walk, ignore, cs.drop_last());
        if ignore.contains(cs.last().first_part().line.label@) {
            rest
        } else {
            rest.push((walk, cs.last()))
        }
    }
}

/// The listed items of all entries, entry after entry.
pub open spec fn flattened(c: Seq<(DesiredConnectionView, Seq<Connection>)>) -> Seq<
    (i64, Connection),
>
    decreases c.len(),
{
    if c.len() == 0 {
        Seq::empty()
    } else {
        flattened(c.drop_last()) + listed(
            c.last().0.walk_to_start,
            c.last().0.ignore_starting_with,
            c.last().1,
        )
    }
}

/// The moment one has to leave for an item: its departure minus the walk.
pub open spec fn leave_time(item: (i64, Connection)) -> int {
    item.1.departure_time() - item.0
}

/// Items in ascending order of leave time.
pub open spec fn sorted_by_leave_time(s: Seq<(i64, Connection)>) -> bool {
    forall|i: int, j: int| 0 <= i <= j < s.len() ==> leave_time(s[i]) <= leave_time(s[j])
}

/// The items that have to leave at `t`, in order.
pub open spec fn leaving_at(s: Seq<(i64, Connection)>, t: int) -> Seq<(i64, Connection)>
    decreases s.len(),
{
    if s.len() == 0 {
        Seq::empty()
    } else {
        let rest = leaving_at(s.drop_last(), t);
        if leave_time(s.last()) == t {
            rest.push(s.last())
        } else {
            rest
        }
    }
}

/// The items of a view, with the connections they refer to.
pub open spec fn items_of<'a>(s: Seq<(i64, &'a Connection)>) -> Seq<(i64, Connection)> {
    s.map_values(|x: (i64, &'a Connection)| (x.0, *x.1))
}

/// Picking the items of one leave time distributes over concatenation.
proof fn lemma_leaving_at_add(a: Seq<(i64, Connection)>, b: Seq<(i64, Connection)>, t: int)
    ensures
        leaving_at(a + b, t) == leaving_at(a, t) + leaving_at(b, t),
    decreases b.len(),
{
    if b.len() == 0 {
        assert(a + b =~= a);
        assert(leaving_at(a, t) + leaving_at(b, t) =~= leaving_at(a, t));
    } else {
        assert((a + b).drop_last() =~= a + b.drop_last());
        lemma_leaving_at_add(a, b.drop_last(), t);
        if leave_time(b.last()) == t {
            assert(leaving_at(a, t) + leaving_at(b.drop_last(), t).push(b.last()) =~= (leaving_at(
                a,
                t,
            ) + leaving_at(b.drop_last(), t)).push(b.last()));
        }
    }
}

/// No item leaves at `t` if all leave later.
proof fn lemma_leaving_at_none(s: Seq<(i64, Connection)>, t: int)
    requires
        forall|i: int| 0 <= i < s.len() ==> leave_time(#[trigger] s[i]) > t,
    ensures
        leaving_at(s, t) == Seq::<(i64, Connection)>::empty(),
    decreases s.len(),
{
    if s.len() > 0 {
        lemma_leaving_at_none(s.drop_last(), t);
    }
}

/// Inserting `x` into sorted items after every item that leaves no later
/// appends `x` to the items of its leave time and keeps all others.
proof fn lemma_leaving_at_insert(s: Seq<(i64, Connection)>, p: int, x: (i64, Connection), t: int)
    requires
        0 <= p <= s.len(),
        forall|i: int| p <= i < s.len() ==> leave_time(#[trigger] s[i]) > leave_time(x),
    ensures
        leaving_at(s.insert(p, x), t) == if leave_time(x) == t {
            leaving_at(s, t).push(x)
        } else {
            leaving_at(s, t)
        },
{
    let head = s.take(p);
    let tail = s.skip(p);
    assert(s =~= head + tail);
    assert(s.insert(p, x) =~= (head + seq![x]) + tail);
    lemma_leaving_at_add(head + seq![x], tail, t);
    lemma_leaving_at_add(head, seq![x], t);
    lemma_leaving_at_add(head, tail, t);
    assert(seq![x].drop_last() =~= Seq::<(i64, Connection)>::empty());
    assert(seq![x].last() == x);
    assert(leaving_at(seq![x].drop_last(), t) =~= Seq::<(i64, Connection)>::empty());
    if leave_time(x) == t {
        assert forall|i: int| 0 <= i < tail.len() implies leave_time(#[trigger] tail[i]) > t by {
            assert(tail[i] == s[p + i]);
        }
        lemma_leaving_at_none(tail, t);
        assert(leaving_at(head, t) + Seq::<(i64, Connection)>::empty() =~= leaving_at(head, t));
        assert(leaving_at(seq![x], t) =~= seq![x]);
        assert(leaving_at(head, t) + seq![x] =~= leaving_at(head, t).push(x));
    } else {
        assert(leaving_at(seq![x], t) =~= Seq::<(i64, Connection)>::empty());
        assert(leaving_at(head, t) + Seq::<(i64, Connection)>::empty() =~= leaving_at(head, t));
    }
}

/// Reconciling twice with the same configuration changes nothing more than
/// reconciling once.
pub proof fn lemma_reconcile_idempotent(
    c: Seq<(DesiredConnectionView, Seq<Connection>)>,
    cfg: Seq<DesiredConnectionView>,
)
    ensures
        reconciled(reconciled(c, cfg), cfg) == reconciled(c, cfg),
{
    if desired_of(c) != cfg {
        let r = reconciled(c, cfg);
        assert(desired_of(r) =~= cfg);
    }
}

/// If the configuration differs from the cached desired connections, every
/// entry of the reconciled cache has an empty list.
pub proof fn lemma_reconcile_discards(
    c: Seq<(DesiredConnectionView, Seq<Connection>)>,
    cfg: Seq<DesiredConnectionView>,
)
    requires
        desired_of(c) != cfg,
    ensures
        forall|i: int|
            0 <= i < reconciled(c, cfg).len() ==> (#[trigger] reconciled(c, cfg)[i]).1.len() == 0,
{
}

/// A later instant only evicts more: every connection kept at `t2` is also
/// kept at any earlier `t1`.
pub proof fn lemma_eviction_monotone_in_time(
    c: Seq<(DesiredConnectionView, Seq<Connection>)>,
    t1: i64,
    t2: i64,
)
    requires
        t1 <= t2,
    ensures
        without_unreachable(c, t1).len() == without_unreachable(c, t2).len(),
        forall|i: int, x: Connection|
            0 <= i < c.len() && #[trigger] without_unreachable(c, t2)[i].1.contains(x)
                ==> without_unreachable(c, t1)[i].1.contains(x),
{
    assert forall|i: int, x: Connection|
        0 <= i < c.len() && #[trigger] without_unreachable(c, t2)[i].1.contains(
            x,
        ) implies without_unreachable(c, t1)[i].1.contains(x) by {
        let walk = c[i].0.walk_to_start;
        let cs = c[i].1;
        cs.lemma_filter_contains_rev(reachable_at(walk, t2), x);
        let k = choose|k: int| 0 <= k < cs.len() && cs[k] == x;
        assert(reachable(x, walk, t1));
        cs.lemma_filter_contains(reachable_at(walk, t1), k);
    }
}

/// Splitting a sequence splits the items of each leave time the same way.
proof fn lemma_leaving_at_split(s: Seq<(i64, Connection)>, t: int, m: int)
    requires
        0 <= m <= s.len(),
    ensures
        leaving_at(s, t) == leaving_at(s.take(m), t) + leaving_at(s.skip(m), t),
{
    assert(s =~= s.take(m) + s.skip(m));
    lemma_leaving_at_add(s.take(m), s.skip(m), t);
}

/// Counting the items of one leave time grows with the prefix counted.
proof fn lemma_leaving_at_count_monotone(s: Seq<(i64, Connection)>, t: int, p: int, q: int)
    requires
        0 <= p <= q <= s.len(),
    ensures
        leaving_at(s.take(p), t).len() <= leaving_at(s.take(q), t).len(),
{
    lemma_leaving_at_split(s.take(q), t, p);
    assert(s.take(q).take(p) =~= s.take(p));
}

/// The item at `p` is the next item of its leave time after those before it.
proof fn lemma_leaving_at_position(s: Seq<(i64, Connection)>, p: int)
    requires
        0 <= p < s.len(),
    ensures
        leaving_at(s.take(p + 1), leave_time(s[p])) == leaving_at(s.take(p), leave_time(s[p])).push(
            s[p],
        ),
        leaving_at(s.take(p), leave_time(s[p])).len() < leaving_at(s, leave_time(s[p])).len(),
        leaving_at(s, leave_time(s[p]))[leaving_at(s.take(p), leave_time(s[p])).len() as int]
            == s[p],
{
    let t = leave_time(s[p]);
    assert(s.take(p + 1).drop_last() =~= s.take(p));
    assert(s.take(p + 1).last() == s[p]);
    lemma_leaving_at_split(s, t, p + 1);
}

/// Every item of one leave time stands at some position of the sequence,
/// after exactly as many items of that leave time as precede it there.
proof fn lemma_leaving_at_origin(s: Seq<(i64, Connection)>, t: int, i: int)
    requires
        0 <= i < leaving_at(s, t).len(),
    ensures
        exists|a: int|
            0 <= a < s.len() && s[a] == leaving_at(s, t)[i] && leaving_at(s.take(a), t).len() == i,
    decreases s.len(),
{
    let d = s.drop_last();
    if i < leaving_at(d, t).len() {
        lemma_leaving_at_origin(d, t, i);
        let a = choose|a: int|
            0 <= a < d.len() && d[a] == leaving_at(d, t)[i] && leaving_at(d.take(a), t).len() == i;
        assert(d.take(a) =~= s.take(a));
        assert(s[a] == leaving_at(s, t)[i]);
    } else {
        let a = s.len() - 1;
        assert(s.take(a) =~= d);
        assert(s[a] == leaving_at(s, t)[i]);
    }
}

/// Items with equal leave time keep their relative order: if two sequences
/// hold the same items of every leave time in the same order, then any two
/// items of `r` that leave at the same moment stand in `f` in the same
/// order.
pub proof fn lemma_equal_leave_times_keep_order(
    r: Seq<(i64, Connection)>,
    f: Seq<(i64, Connection)>,
    p: int,
    q: int,
)
    requires
        forall|t: int| #[trigger] leaving_at(r, t) == leaving_at(f, t),
        0 <= p < q < r.len(),
        leave_time(r[p]) == leave_time(r[q]),
    ensures
        exists|a: int, b: int| 0 <= a < b < f.len() && f[a] == r[p] && f[b] == r[q],
{
    let t = leave_time(r[p]);
    lemma_leaving_at_position(r, p);
    lemma_leaving_at_position(r, q);
    let i = leaving_at(r.take(p), t).len() as int;
    let j = leaving_at(r.take(q), t).len() as int;
    lemma_leaving_at_count_monotone(r, t, p + 1, q);
    assert(i < j);
    assert(leaving_at(r, t) == leaving_at(f, t));
    lemma_leaving_at_origin(f, t, i);
    lemma_leaving_at_origin(f, t, j);
    let a = choose|a: int|
        0 <= a < f.len() && f[a] == leaving_at(f, t)[i] && leaving_at(f.take(a), t).len() == i;
    let b = choose|b: int|
        0 <= b < f.len() && f[b] == leaving_at(f, t)[j] && leaving_at(f.take(b), t).len() == j;
    if b <= a {
        lemma_leaving_at_count_monotone(f, t, b, a);
    }
    assert(f[a] == r[p] && f[b] == r[q]);
}

/// A filtered list holds only connections of the list.
proof fn lemma_filter_within(cs: Seq<Connection>, p: spec_fn(Connection) -> bool, j: int)
    requires
        0 <= j < cs.filter(p).len(),
    ensures
        cs.contains(cs.filter(p)[j]),
        p(cs.filter(p)[j]),
{
    assert(cs.filter(p).contains(cs.filter(p)[j]));
    cs.lemma_filter_contains_rev(p, cs.filter(p)[j]);
}

/// Evicting unreachable connections keeps every connection well formed.
proof fn lemma_reachable_wf(c: Seq<(DesiredConnectionView, Seq<Connection>)>, now: i64)
    requires
        cache_wf(c),
    ensures
        cache_wf(without_unreachable(c, now)),
{
    let w = without_unreachable(c, now);
    assert forall|i: int, j: int| 0 <= i < w.len() && 0 <= j < w[i].1.len() implies #[trigger] w[i].1[j].wf() by {
        let p = reachable_at(c[i].0.walk_to_start, now);
        lemma_filter_within(c[i].1, p, j);
        let k = choose|k: int| 0 <= k < c[i].1.len() && c[i].1[k] == w[i].1[j];
        assert(c[i].1[k].wf());
    }
}

/// Evicting connections with a disallowed start keeps every connection
/// well formed.
proof fn lemma_allowed_wf(c: Seq<(DesiredConnectionView, Seq<Connection>)>)
    requires
        cache_wf(c),
    ensures
        cache_wf(without_disallowed_starts(c)),
{
    let w = without_disallowed_starts(c);
    assert forall|i: int, j: int| 0 <= i < w.len() && 0 <= j < w[i].1.len() implies #[trigger] w[i].1[j].wf() by {
        let p = allowed_with(c[i].0.ignore_starting_with);
        lemma_filter_within(c[i].1, p, j);
        let k = choose|k: int| 0 <= k < c[i].1.len() && c[i].1[k] == w[i].1[j];
        assert(c[i].1[k].wf());
    }
}

/// Order items by leave time; items with equal leave time keep their order.
fn sort_by_leave_time<'a>(items: Vec<(i64, &'a Connection)>) -> (r: Vec<(i64, &'a Connection)>)
    requires
        forall|k: int| 0 <= k < items@.len() ==> (#[trigger] items@[k]).1.wf(),
    ensures
        sorted_by_leave_time(items_of(r@)),
        forall|t: int| #[trigger] leaving_at(items_of(r@), t) == leaving_at(items_of(items@), t),
        forall|k: int| 0 <= k < r@.len() ==> (#[trigger] r@[k]).1.wf(),
{
    let mut out: Vec<(i64, &'a Connection)> = Vec::new();
    let mut rest = items;
    let ghost all = items@;
    proof {
        assert(items_of(out@) =~= Seq::<(i64, Connection)>::empty());
        assert(items_of(all.take(0)) =~= Seq::<(i64, Connection)>::empty());
    }
    while rest.len() > 0
        invariant
            all == items@,
            forall|k: int| 0 <= k < all.len() ==> (#[trigger] all[k]).1.wf(),
            rest@.len() <= all.len(),
            rest@ == all.skip(all.len() - rest@.len()),
            sorted_by_leave_time(items_of(out@)),
            forall|t: int|
                #[trigger] leaving_at(items_of(out@), t) == leaving_at(
                    items_of(all.take(all.len() - rest@.len())),
                    t,
                ),
            forall|k: int| 0 <= k < out@.len() ==> (#[trigger] out@[k]).1.wf(),
        decreases rest@.len(),
    {
        let ghost done = all.len() - rest@.len();
        let x = rest.remove(0);
        proof {
            assert(rest@ =~= all.skip(done + 1));
            assert(x == all[done]);
        }
        let key = (x.1.planned_departure_time() as i128) - (x.0 as i128);
        let mut p: usize = 0;
        while p < out.len() && (out[p].1.planned_departure_time() as i128) - (out[p].0 as i128)
            <= key
            invariant
                p <= out@.len(),
                forall|k: int| 0 <= k < out@.len() ==> (#[trigger] out@[k]).1.wf(),
                forall|q: int| 0 <= q < p ==> leave_time(#[trigger] items_of(out@)[q]) <= key,
            decreases out@.len() - p,
        {
            p = p + 1;
        }
        let ghost y = (x.0, *x.1);
        let ghost old_items = items_of(out@);
        proof {
            assert(leave_time(y) == key);
            assert forall|q: int| p <= q < old_items.len() implies leave_time(#[trigger] old_items[q])
                > leave_time(y) by {
                assert(leave_time(old_items[p as int]) > key);
            }
        }
        out.insert(p, x);
        proof {
            assert(items_of(out@) =~= old_items.insert(p as int, y));
            let prefix = items_of(all.take(done + 1));
            assert(prefix.drop_last() =~= items_of(all.take(done)));
            assert(prefix.last() == y);
            assert forall|t: int| #[trigger] leaving_at(items_of(out@), t) == leaving_at(prefix, t) by {
                lemma_leaving_at_insert(old_items, p as int, y, t);
            }
            assert forall|i: int, j: int| 0 <= i <= j < items_of(out@).len() implies leave_time(
                items_of(out@)[i],
            ) <= leave_time(items_of(out@)[j]) by {
                if j < p {
                } else if i > p {
                    assert(items_of(out@)[i] == old_items[i - 1]);
                    assert(items_of(out@)[j] == old_items[j - 1]);
                } else if i == p && j > p {
                    assert(items_of(out@)[j] == old_items[j - 1]);
                } else if i < p && j > p {
                    assert(items_of(out@)[j] == old_items[j - 1]);
                    assert(items_of(out@)[i] == old_items[i]);
                }
            }
        }
    }
    proof {
        assert(all.take(all.len() as int) =~= all);
    }
    out
}

impl Default for ConnectionsCache {
    fn default() -> (r: Self)
        ensures
            r@.len() == 0,
    {
        ConnectionsCache { connections: Vec::new() }
    }
}

impl ConnectionsCache {
    /// Every cached connection has at least one leg.
    pub open spec fn wf(&self) -> bool {
        cache_wf(self@)
    }

    /// Reconcile the cache with the configuration `config`.
    ///
    /// If the desired connections of `config` equal the cached ones, in
    /// order, the cache is returned as it is; otherwise all cached
    /// connections are discarded and the configured desired connections
    /// start with empty lists.
    pub fn update_config(self, config: Config) -> (r: Self)
        ensures
            r@ == reconciled(self@, config@),
            desired_of(self@) == config@ ==> r == self,
    {
        let n = self.connections.len();
        let mut same = n == config.connections.len();
        proof {
            assert(desired_of(self@).len() == n);
        }
        let mut i: usize = 0;
        while same && i < n
            invariant
                n == self.connections@.len(),
                i <= n,
                same ==> n == config.connections@.len(),
                same ==> forall|j: int| 0 <= j < i ==> self.connections@[j].0@ == config.connections@[j]@,
                !same ==> desired_of(self@) != config@,
            decreases n - i,
        {
            if self.connections[i].0 != config.connections[i] {
                proof {
                    assert(desired_of(self@)[i as int] != config@[i as int]);
                }
                same = false;
            }
            i = i + 1;
        }
        if same {
            proof {
                assert(desired_of(self@) =~= config@);
            }
            return self;
        }
        let mut entries: Vec<(DesiredConnection, Vec<Connection>)> = Vec::new();
        let mut rest = config.connections;
        let ghost all = config.connections@;
        let ghost cfg = config@;
        while rest.len() > 0
            invariant
                desired_of(self@) != cfg,
                cfg == all.map_values(|d: DesiredConnection| d@),
                rest@.len() <= all.len(),
                rest@ == all.skip(all.len() - rest@.len()),
                entries@.len() == all.len() - rest@.len(),
                forall|j: int|
                    0 <= j < entries@.len() ==> #[trigger] entries@[j].0 == all[j]
                        && entries@[j].1@.len() == 0,
            decreases rest@.len(),
        {
            let ghost done = all.len() - rest@.len();
            let d = rest.remove(0);
            proof {
                assert(rest@ =~= all.skip(done + 1));
            }
            entries.push((d, Vec::new()));
        }
        let r = ConnectionsCache { connections: entries };
        proof {
            assert forall|j: int| 0 <= j < r@.len() implies #[trigger] r@[j] == reconciled(
                self@,
                cfg,
            )[j] by {
                assert(entries@[j].0 == all[j]);
                assert(entries@[j].1@ =~= Seq::<Connection>::empty());
            }
            assert(r@ =~= reconciled(self@, cfg));
        }
        r
    }

    /// Remove every connection that can no longer be caught at `now`: it
    /// has left, or less than the walk to its start divided by
    /// `REMAINING_WALK_DIVISOR` (half of it) remains.
    pub fn evict_unreachable_connections(self, now: i64) -> (r: Self)
        requires
            self.wf(),
        ensures
            r@ == without_unreachable(self@, now),
            r.wf(),
    {
        let mut entries: Vec<(DesiredConnection, Vec<Connection>)> = Vec::new();
        let mut rest = self.connections;
        let ghost all = self@;
        while rest.len() > 0
            invariant
                all == self@,
                cache_wf(all),
                rest@.len() <= all.len(),
                forall|j: int|
                    0 <= j < rest@.len() ==> #[trigger] entry_view(rest@[j]) == all[all.len()
                        - rest@.len() + j],
                entries@.len() == all.len() - rest@.len(),
                forall|j: int|
                    0 <= j < entries@.len() ==> #[trigger] entry_view(entries@[j])
                        == without_unreachable(all, now)[j],
            decreases rest@.len(),
        {
            let ghost done = all.len() - rest@.len();
            let ghost before = rest@;
            let (d, cs) = rest.remove(0);
            proof {
                assert(entry_view(before[0]) == all[done]);
                assert forall|j: int| 0 <= j < rest@.len() implies #[trigger] entry_view(rest@[j])
                    == all[all.len() - rest@.len() + j] by {
                    assert(rest@[j] == before[j + 1]);
                }
                assert forall|k: int| 0 <= k < cs@.len() implies #[trigger] cs@[k].wf() by {
                    assert(all[done].1[k] == cs@[k]);
                }
            }
            let kept = keep_reachable(cs, d.walk_to_start, now);
            entries.push((d, kept));
        }
        let r = ConnectionsCache { connections: entries };
        proof {
            assert(r@ =~= without_unreachable(self@, now));
            lemma_reachable_wf(self@, now);
        }
        r
    }

    /// Remove every connection whose first leg is a walk or rides an
    /// ignored line: the walk to the first station is already accounted
    /// for, and ignored lines are unwanted.
    pub fn evict_starts_with_pedestrian(self) -> (r: Self)
        requires
            self.wf(),
        ensures
            r@ == without_disallowed_starts(self@),
            r.wf(),
    {
        let mut entries: Vec<(DesiredConnection, Vec<Connection>)> = Vec::new();
        let mut rest = self.connections;
        let ghost all = self@;
        while rest.len() > 0
            invariant
                all == self@,
                cache_wf(all),
                rest@.len() <= all.len(),
                forall|j: int|
                    0 <= j < rest@.len() ==> #[trigger] entry_view(rest@[j]) == all[all.len()
                        - rest@.len() + j],
                entries@.len() == all.len() - rest@.len(),
                forall|j: int|
                    0 <= j < entries@.len() ==> #[trigger] entry_view(entries@[j])
                        == without_disallowed_starts(all)[j],
            decreases rest@.len(),
        {
            let ghost done = all.len() - rest@.len();
            let ghost before = rest@;
            let (d, cs) = rest.remove(0);
            proof {
                assert(entry_view(before[0]) == all[done]);
                assert forall|j: int| 0 <= j < rest@.len() implies #[trigger] entry_view(rest@[j])
                    == all[all.len() - rest@.len() + j] by {
                    assert(rest@[j] == before[j + 1]);
                }
                assert forall|k: int| 0 <= k < cs@.len() implies #[trigger] cs@[k].wf() by {
                    assert(all[done].1[k] == cs@[k]);
                }
            }
            let kept = keep_allowed(cs, &d.ignore_starting_with);
            entries.push((d, kept));
        }
        let r = ConnectionsCache { connections: entries };
        proof {
            assert(r@ =~= without_disallowed_starts(self@));
            lemma_allowed_wf(self@);
        }
        r
    }

    /// Empty every list that holds fewer than `limit` connections, so that
    /// it is fetched anew rather than topped up; empty lists stay empty.
    pub fn evict_too_few_connections(self, limit: usize) -> (r: Self)
        ensures
            r@ == without_too_few(self@, limit),
            r@.len() == self@.len(),
            forall|i: int| 0 <= i < self@.len() ==> #[trigger] r@[i].0 == self@[i].0,
            forall|i: int|
                0 <= i < self@.len() ==> (#[trigger] r@[i].1.len() == 0 <==> (0 < self@[i].1.len()
                    < limit || self@[i].1.len() == 0)),
            forall|i: int|
                0 <= i < self@.len() && (self@[i].1.len() == 0 || self@[i].1.len() >= limit)
                    ==> #[trigger] r@[i] == self@[i],
            self.wf() ==> r.wf(),
    {
        let mut entries: Vec<(DesiredConnection, Vec<Connection>)> = Vec::new();
        let mut rest = self.connections;
        let ghost all = self@;
        while rest.len() > 0
            invariant
                all == self@,
                rest@.len() <= all.len(),
                forall|j: int|
                    0 <= j < rest@.len() ==> #[trigger] entry_view(rest@[j]) == all[all.len()
                        - rest@.len() + j],
                entries@.len() == all.len() - rest@.len(),
                forall|j: int|
                    0 <= j < entries@.len() ==> #[trigger] entry_view(entries@[j])
                        == without_too_few(all, limit)[j],
            decreases rest@.len(),
        {
            let ghost done = all.len() - rest@.len();
            let ghost before = rest@;
            let (d, cs) = rest.remove(0);
            proof {
                assert(entry_view(before[0]) == all[done]);
                assert forall|j: int| 0 <= j < rest@.len() implies #[trigger] entry_view(rest@[j])
                    == all[all.len() - rest@.len() + j] by {
                    assert(rest@[j] == before[j + 1]);
                }
            }
            if cs.len() == 0 || limit <= cs.len() {
                entries.push((d, cs));
            } else {
                let emptied: Vec<Connection> = Vec::new();
                proof {
                    assert(emptied@ =~= Seq::<Connection>::empty());
                }
                entries.push((d, emptied));
            }
        }
        let r = ConnectionsCache { connections: entries };
        proof {
            assert(r@ =~= without_too_few(self@, limit));
        }
        r
    }

    /// The positions of the entries whose list is empty, in order: the
    /// `k`-th of them is the `k`-th entry to refresh.
    pub fn pending_indices(&self) -> (r: Vec<usize>)
        ensures
            r@.len() == pending_count(self@),
            forall|k: int|
                #![trigger r@[k]]
                0 <= k < r@.len() ==> {
                    &&& 0 <= r@[k] < self@.len()
                    &&& self@[r@[k] as int].1.len() == 0
                    &&& pending_count(self@.take(r@[k] as int)) == k
                },
    {
        let mut r: Vec<usize> = Vec::new();
        let n = self.connections.len();
        let mut i: usize = 0;
        while i < n
            invariant
                n == self@.len(),
                i <= n,
                r@.len() == pending_count(self@.take(i as int)),
                forall|k: int|
                    #![trigger r@[k]]
                    0 <= k < r@.len() ==> {
                        &&& 0 <= r@[k] < i
                        &&& self@[r@[k] as int].1.len() == 0
                        &&& pending_count(self@.take(r@[k] as int)) == k
                    },
            decreases n - i,
        {
            proof {
                assert(self@.take(i + 1).drop_last() =~= self@.take(i as int));
            }
            if self.connections[i].1.len() == 0 {
                r.push(i);
            }
            i = i + 1;
        }
        proof {
            assert(self@.take(n as int) =~= self@);
        }
        r
    }

    /// Fill every entry whose list is empty with its fetched list.
    ///
    /// `fetched` holds one outcome for each entry with an empty list, in
    /// the order of `pending_indices`. Entries with connections are kept as
    /// they are. If any outcome is an error, the first of them is returned.
    pub fn refresh_empty<E>(self, fetched: Vec<Result<Vec<Connection>, E>>) -> (r: Result<Self, E>)
        requires
            fetched@.len() == pending_count(self@),
        ensures
            match r {
                Ok(c) => {
                    &&& forall|k: int| 0 <= k < fetched@.len() ==> #[trigger] fetched@[k] is Ok
                    &&& c@.len() == self@.len()
                    &&& forall|i: int|
                        0 <= i < self@.len() ==> #[trigger] c@[i] == refreshed_entry(
                            self@,
                            fetched@,
                            i,
                        )
                },
                Err(e) => exists|k: int|
                    0 <= k < fetched@.len() && fetched@[k] == Err::<Vec<Connection>, E>(e) && forall|
                        j: int,
                    |
                        0 <= j < k ==> #[trigger] fetched@[j] is Ok,
            },
            r matches Ok(c) ==> forall|i: int|
                0 <= i < self@.len() && self@[i].1.len() > 0 ==> #[trigger] c@[i] == self@[i],
    {
        let mut entries: Vec<(DesiredConnection, Vec<Connection>)> = Vec::new();
        let mut rest = self.connections;
        let mut results = fetched;
        let ghost all = self@;
        let ghost outcomes = fetched@;
        while rest.len() > 0
            invariant
                all == self@,
                outcomes == fetched@,
                outcomes.len() == pending_count(all),
                rest@.len() <= all.len(),
                forall|j: int|
                    0 <= j < rest@.len() ==> #[trigger] entry_view(rest@[j]) == all[all.len()
                        - rest@.len() + j],
                entries@.len() == all.len() - rest@.len(),
                results@.len() + pending_count(all.take(entries@.len() as int)) == outcomes.len(),
                forall|j: int|
                    0 <= j < results@.len() ==> #[trigger] results@[j] == outcomes[outcomes.len()
                        - results@.len() + j],
                forall|k: int|
                    0 <= k < outcomes.len() - results@.len() ==> #[trigger] outcomes[k] is Ok,
                forall|j: int|
                    0 <= j < entries@.len() ==> #[trigger] entry_view(entries@[j])
                        == refreshed_entry(all, outcomes, j),
            decreases rest@.len(),
        {
            let ghost done = all.len() - rest@.len();
            let ghost before = rest@;
            let ghost before_results = results@;
            let (d, cs) = rest.remove(0);
            proof {
                assert(entry_view(before[0]) == all[done]);
                assert forall|j: int| 0 <= j < rest@.len() implies #[trigger] entry_view(rest@[j])
                    == all[all.len() - rest@.len() + j] by {
                    assert(rest@[j] == before[j + 1]);
                }
                assert(all.take(done + 1).drop_last() =~= all.take(done));
                lemma_pending_monotone(all, done + 1, all.len() as int);
                assert(all.take(all.len() as int) =~= all);
            }
            if cs.len() == 0 {
                let outcome = results.remove(0);
                proof {
                    assert forall|j: int| 0 <= j < results@.len() implies #[trigger] results@[j]
                        == outcomes[outcomes.len() - results@.len() + j] by {
                        assert(results@[j] == before_results[j + 1]);
                    }
                }
                match outcome {
                    Ok(fresh) => {
                        entries.push((d, fresh));
                    },
                    Err(e) => {
                        return Err(e);
                    },
                }
            } else {
                entries.push((d, cs));
            }
        }
        let r = ConnectionsCache { connections: entries };
        proof {
            assert(all.take(all.len() as int) =~= all);
            assert(r@ =~= Seq::new(all.len(), |i: int| refreshed_entry(all, outcomes, i)));
        }
        Ok(r)
    }

    /// All connections of all entries with the walk to their start, in
    /// ascending order of the moment one has to leave (departure minus
    /// walk); connections that leave at the same moment keep the order of
    /// their entries and lists. A connection whose first line is ignored by
    /// its entry is left out.
    pub fn all_connections(&self) -> (r: Vec<(i64, &Connection)>)
        requires
            self.wf(),
        ensures
            sorted_by_leave_time(items_of(r@)),
            forall|t: int| #[trigger] leaving_at(items_of(r@), t) == leaving_at(flattened(self@), t),
            forall|p: int, q: int|
                0 <= p < q < r@.len() && #[trigger] leave_time(items_of(r@)[p]) == #[trigger] leave_time(
                    items_of(r@)[q],
                ) ==> exists|a: int, b: int|
                    0 <= a < b < flattened(self@).len() && flattened(self@)[a] == items_of(r@)[p]
                        && flattened(self@)[b] == items_of(r@)[q],
    {
        let mut flat: Vec<(i64, &Connection)> = Vec::new();
        let n = self.connections.len();
        let mut i: usize = 0;
        proof {
            assert(items_of(flat@) =~= flattened(self@.take(0)));
        }
        while i < n
            invariant
                n == self@.len(),
                i <= n,
                self.wf(),
                items_of(flat@) == flattened(self@.take(i as int)),
                forall|k: int| 0 <= k < flat@.len() ==> (#[trigger] flat@[k]).1.wf(),
            decreases n - i,
        {
            let entry = &self.connections[i];
            let walk = entry.0.walk_to_start;
            let ignore = &entry.0.ignore_starting_with;
            let cs = &entry.1;
            let ghost base = items_of(flat@);
            let ghost e = self@[i as int];
            let mut j: usize = 0;
            proof {
                assert(base + listed(walk, label_set(ignore@), cs@.take(0)) =~= base);
            }
            while j < cs.len()
                invariant
                    e == self@[i as int],
                    e.1 == cs@,
                    e.0.walk_to_start == walk,
                    e.0.ignore_starting_with == label_set(ignore@),
                    0 <= i < n,
                    n == self@.len(),
                    self.wf(),
                    j <= cs@.len(),
                    items_of(flat@) == base + listed(walk, label_set(ignore@), cs@.take(j as int)),
                    forall|k: int| 0 <= k < flat@.len() ==> (#[trigger] flat@[k]).1.wf(),
                decreases cs@.len() - j,
            {
                let c = &cs[j];
                proof {
                    assert(cs@.take(j + 1).drop_last() =~= cs@.take(j as int));
                    assert(cs@.take(j + 1).last() == *c);
                    assert(self@[i as int].1[j as int].wf());
                }
                let ghost before = items_of(flat@);
                if !is_ignored(&c.departure().line.label, ignore) {
                    flat.push((walk, c));
                    proof {
                        assert(items_of(flat@) =~= before.push((walk, *c)));
                    }
                }
                j = j + 1;
            }
            proof {
                assert(cs@.take(cs@.len() as int) =~= cs@);
                assert(self@.take(i + 1).drop_last() =~= self@.take(i as int));
                assert(self@.take(i + 1).last() == e);
            }
            i = i + 1;
        }
        proof {
            assert(self@.take(n as int) =~= self@);
        }
        let r = sort_by_leave_time(flat);
        proof {
            assert forall|p: int, q: int|
                0 <= p < q < r@.len() && #[trigger] leave_time(items_of(r@)[p]) == #[trigger] leave_time(
                    items_of(r@)[q],
                ) implies exists|a: int, b: int|
                0 <= a < b < flattened(self@).len() && flattened(self@)[a] == items_of(r@)[p]
                    && flattened(self@)[b] == items_of(r@)[q] by {
                lemma_equal_leave_times_keep_order(items_of(r@), flattened(self@), p, q);
            }
        }
        r
    }

    /// The eviction before a refresh: drop what can no longer be caught at
    /// `now`, then empty every list left with too few connections.
    pub fn evict_before_refresh(self, now: i64) -> (r: Self)
        requires
            self.wf(),
        ensures
            r@ == without_too_few(without_unreachable(self@, now), TOO_FEW_CONNECTIONS),
            r.wf(),
    {
        self.evict_unreachable_connections(now).evict_too_few_connections(TOO_FEW_CONNECTIONS)
    }

    /// The eviction after a refresh: drop what can no longer be caught at
    /// `now` (fetched lists may hold such), then what starts with a
    /// disallowed leg.
    pub fn evict_after_refresh(self, now: i64) -> (r: Self)
        requires
            self.wf(),
        ensures
            r@ == without_disallowed_starts(without_unreachable(self@, now)),
            r.wf(),
    {
        self.evict_unreachable_connections(now).evict_starts_with_pedestrian()
    }

    /// Whether every cached connection has at least one leg.
    pub fn is_well_formed(&self) -> (r: bool)
        ensures
            r == self.wf(),
    {
        let n = self.connections.len();
        let mut i: usize = 0;
        while i < n
            invariant
                n == self@.len(),
                i <= n,
                forall|a: int, b: int|
                    0 <= a < i && 0 <= b < self@[a].1.len() ==> #[trigger] self@[a].1[b].wf(),
            decreases n - i,
        {
            let cs = &self.connections[i].1;
            let mut j: usize = 0;
            while j < cs.len()
                invariant
                    0 <= i < n,
                    n == self@.len(),
                    cs@ == self@[i as int].1,
                    j <= cs@.len(),
                    forall|a: int, b: int|
                        0 <= a < i && 0 <= b < self@[a].1.len() ==> #[trigger] self@[a].1[b].wf(),
                    forall|b: int| 0 <= b < j ==> #[trigger] cs@[b].wf(),
                decreases cs@.len() - j,
            {
                if cs[j].parts.len() == 0 {
                    proof {
                        assert(!self@[i as int].1[j as int].wf());
                    }
                    return false;
                }
                j = j + 1;
            }
            proof {
                assert forall|a: int, b: int|
                    0 <= a < i + 1 && 0 <= b < self@[a].1.len() implies #[trigger] self@[a].1[b].wf() by {
                    if a == i {
                        assert(cs@[b].wf());
                    }
                }
            }
            i = i + 1;
        }
        true
    }
}

} // verus!
