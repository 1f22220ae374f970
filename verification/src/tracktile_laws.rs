use vstd::prelude::*;
use crate::connection::Connection;
use crate::color::Color;
use crate::tracktile::{
    Tracktile, Train, ConnectionType, exit_side, switches, mixes_all, any_crash, crashes, arrivals,
    arrivals_before, arrival, meet_along, merge_spec, is_first_merge, same_way_out, some_merge,
    ready_seq, recolored, is_first_going, goes, some_going, TileEvent,
};

verus! {

/// A train that comes in by a side where the tile has track leaves by
/// another side of the tile.
pub proof fn lemma_exit_side_in_range(t: Tracktile, d: u8)
    requires
        t.wf(),
        t.spec_has_any_connection(d),
    ensures
        exit_side(t.active_connection, t.passive_connection, d) < 4,
        exit_side(t.active_connection, t.passive_connection, d) != d,
        d < 4,
{
}

/// Outside M and J tracks, trains that come in by different sides leave by
/// different sides.
pub proof fn lemma_no_collision_outside_switches(t: Tracktile, s1: u8, s2: u8)
    requires
        t.wf(),
        t.spec_has_any_connection(s1),
        t.spec_has_any_connection(s2),
        s1 != s2,
        !switches(t.spec_type()),
    ensures
        exit_side(t.active_connection, t.passive_connection, s1) != exit_side(
            t.active_connection,
            t.passive_connection,
            s2,
        ),
{
}

/// Two trains that come in by different sides and leave by the same side
/// come in by the same two sides as any other such pair.
pub proof fn lemma_collision_pair_unique(t: Tracktile, s1: u8, s2: u8, s3: u8, s4: u8)
    requires
        t.wf(),
        t.spec_has_any_connection(s1),
        t.spec_has_any_connection(s2),
        t.spec_has_any_connection(s3),
        t.spec_has_any_connection(s4),
        s1 != s2,
        s3 != s4,
        exit_side(t.active_connection, t.passive_connection, s1) == exit_side(
            t.active_connection,
            t.passive_connection,
            s2,
        ),
        exit_side(t.active_connection, t.passive_connection, s3) == exit_side(
            t.active_connection,
            t.passive_connection,
            s4,
        ),
    ensures
        (s1 == s3 && s2 == s4) || (s1 == s4 && s2 == s3),
{
}

/// The trains `ts` came into tile `t` by different sides where it has track,
/// and each heads for the other end of its connection.
pub open spec fn routed(t: Tracktile, ts: Seq<Train>) -> bool {
    &&& forall|i: int| 0 <= i < ts.len() ==> t.spec_has_any_connection(#[trigger] ts[i].source)
        && ts[i].destination == exit_side(t.active_connection, t.passive_connection, ts[i].source)
    &&& forall|i: int, k: int| 0 <= i < ts.len() && 0 <= k < ts.len() && i != k
        ==> #[trigger] ts[i].source != #[trigger] ts[k].source
}

/// The two sequences hold trains with the same sources and destinations, in
/// the same order.
pub open spec fn same_routes(a: Seq<Train>, b: Seq<Train>) -> bool {
    &&& a.len() == b.len()
    &&& forall|i: int| 0 <= i < a.len() ==> (#[trigger] a[i]).source == b[i].source && a[i].destination == b[i].destination
}

proof fn lemma_arrivals_before_routed(t: Tracktile, colors: Seq<Option<Color>>, n: int)
    requires
        t.wf(),
        colors.len() == 4,
        !any_crash(t.active_connection, t.passive_connection, colors),
        0 <= n <= 4,
    ensures
        routed(t, arrivals_before(t.active_connection, t.passive_connection, colors, n)),
        forall|i: int| 0 <= i < arrivals_before(t.active_connection, t.passive_connection, colors, n).len()
            ==> (#[trigger] arrivals_before(t.active_connection, t.passive_connection, colors, n)[i]).source < n,
    decreases n,
{
    let a = t.active_connection;
    let p = t.passive_connection;
    if n > 0 {
        lemma_arrivals_before_routed(t, colors, n - 1);
        let pre = arrivals_before(a, p, colors, n - 1);
        let one = arrival(a, p, colors, n - 1);
        let all = arrivals_before(a, p, colors, n);
        assert(all == pre + one);
        assert(!crashes(a, p, colors, n - 1));
        if colors[n - 1] is Some {
            assert(t.spec_has_any_connection((n - 1) as u8));
            assert(all.len() == pre.len() + 1);
            assert(all[pre.len() as int] == one[0]);
            assert forall|i: int| 0 <= i < all.len() implies #[trigger] all[i].source < n && t.spec_has_any_connection(
                all[i].source,
            ) && all[i].destination == exit_side(a, p, all[i].source) by {
                if i < pre.len() {
                    assert(all[i] == pre[i]);
                }
            }
            assert forall|i: int, k: int| 0 <= i < all.len() && 0 <= k < all.len() && i != k
                implies #[trigger] all[i].source != #[trigger] all[k].source by {
                if i < pre.len() {
                    assert(all[i] == pre[i]);
                }
                if k < pre.len() {
                    assert(all[k] == pre[k]);
                }
            }
        } else {
            assert(all =~= pre);
        }
    } else {
        assert(arrivals_before(a, p, colors, n).len() == 0);
    }
}

/// Trains accepted without a crash came in by different sides where the tile
/// has track, each heading for the other end of its connection.
pub proof fn lemma_arrivals_routed(t: Tracktile, colors: Seq<Option<Color>>)
    requires
        t.wf(),
        colors.len() == 4,
        !any_crash(t.active_connection, t.passive_connection, colors),
    ensures
        routed(t, arrivals(t.active_connection, t.passive_connection, colors)),
{
    lemma_arrivals_before_routed(t, colors, 4);
    assert(arrivals_before(t.active_connection, t.passive_connection, colors, 4) == arrivals(
        t.active_connection,
        t.passive_connection,
        colors,
    )) by {
        reveal_with_fuel(arrivals_before, 5);
    }
}

proof fn lemma_meet_along_keeps_routes(ts: Seq<Train>, c: crate::connection::Connection)
    ensures
        same_routes(meet_along(ts, c).0, ts),
{
    if crate::tracktile::some_going(ts, c.dir1, c.dir2) && crate::tracktile::some_going(ts, c.dir2, c.dir1) {
        let j = choose|j: int| is_first_going(ts, j, c.dir1, c.dir2);
        let k = choose|k: int| is_first_going(ts, k, c.dir2, c.dir1);
        let jj = choose|j: int| 0 <= j < ts.len() && crate::tracktile::goes(#[trigger] ts[j], c.dir1, c.dir2);
        assert(exists|j: int| is_first_going(ts, j, c.dir1, c.dir2)) by {
            lemma_first_going_exists(ts, c.dir1, c.dir2, jj);
        }
        let kk = choose|k: int| 0 <= k < ts.len() && crate::tracktile::goes(#[trigger] ts[k], c.dir2, c.dir1);
        assert(exists|k: int| is_first_going(ts, k, c.dir2, c.dir1)) by {
            lemma_first_going_exists(ts, c.dir2, c.dir1, kk);
        }
    }
}

proof fn lemma_first_going_exists(ts: Seq<Train>, s: u8, d: u8, j: int)
    requires
        0 <= j < ts.len(),
        crate::tracktile::goes(ts[j], s, d),
    ensures
        exists|m: int| is_first_going(ts, m, s, d),
    decreases j,
{
    if exists|m: int| 0 <= m < j && crate::tracktile::goes(#[trigger] ts[m], s, d) {
        let m = choose|m: int| 0 <= m < j && crate::tracktile::goes(#[trigger] ts[m], s, d);
        lemma_first_going_exists(ts, s, d, m);
    } else {
        assert(is_first_going(ts, j, s, d));
    }
}

/// A tick only paints trains: each keeps its place, its source and its
/// destination.
pub proof fn law_tick_keeps_routes(t: Tracktile)
    ensures
        same_routes(t.tick_spec().0, t.trains@),
{
    let ts = t.trains@;
    let ty = t.spec_type();
    if ts.len() >= 2 {
        if mixes_all(ty) {
        } else if ty == ConnectionType::Z {
            let first = meet_along(ts, t.active_connection->0);
            lemma_meet_along_keeps_routes(ts, t.active_connection->0);
            lemma_meet_along_keeps_routes(first.0, t.passive_connection->0);
        } else if switches(ty) {
            lemma_meet_along_keeps_routes(ts, t.active_connection->0);
        }
    }
}

proof fn lemma_routed_same_routes(t: Tracktile, a: Seq<Train>, b: Seq<Train>)
    requires
        routed(t, b),
        same_routes(a, b),
    ensures
        routed(t, a),
{
    assert forall|i: int, k: int| 0 <= i < a.len() && 0 <= k < a.len() && i != k implies #[trigger] a[i].source
        != #[trigger] a[k].source by {
        assert(b[i].source != b[k].source);
    }
}

proof fn lemma_routed_ready_without_merge(t: Tracktile, ts: Seq<Train>)
    requires
        t.wf(),
        routed(t, ts),
        !some_merge(ts),
    ensures
        ready_seq(ts),
{
    assert forall|i: int| 0 <= i < ts.len() implies #[trigger] ts[i].destination < 4 by {
        lemma_exit_side_in_range(t, ts[i].source);
    }
    assert forall|i: int, k: int| 0 <= i < ts.len() && 0 <= k < ts.len() && i != k implies #[trigger] ts[i].destination
        != #[trigger] ts[k].destination by {
        assert(!same_way_out(ts, i, k));
    }
}

#[verifier::rlimit(40)]
#[verifier::spinoff_prover]
proof fn lemma_merge_ready(t: Tracktile, ts: Seq<Train>)
    requires
        t.wf(),
        routed(t, ts),
    ensures
        ready_seq(merge_spec(ts).0),
{
    if !some_merge(ts) {
        lemma_routed_ready_without_merge(t, ts);
    } else {
        let (i0, k0) = choose|i: int, k: int| #[trigger] same_way_out(ts, i, k);
        assert(exists|i: int, k: int| is_first_merge(ts, i, k)) by {
            lemma_first_merge_exists(ts, i0, k0);
        }
        let (i, k) = choose|i: int, k: int| is_first_merge(ts, i, k);
        assert(is_first_merge(ts, i, k));
        let m = crate::color::mix_spec(seq![ts[i].color, ts[k].color]);
        let u = ts.update(i, recolored(ts[i], m));
        let r = u.remove(k);
        assert(r == merge_spec(ts).0);
        assert(same_routes(u, ts));
        assert forall|j: int| 0 <= j < r.len() implies #[trigger] r[j].destination < 4 by {
            let jj = if j < k { j } else { j + 1 };
            assert(r[j] == u[jj]);
            lemma_exit_side_in_range(t, ts[jj].source);
        }
        assert forall|j1: int, j2: int| 0 <= j1 < r.len() && 0 <= j2 < r.len() && j1 != j2 implies #[trigger] r[j1].destination
            != #[trigger] r[j2].destination by {
            let o1 = if j1 < k { j1 } else { j1 + 1 };
            let o2 = if j2 < k { j2 } else { j2 + 1 };
            assert(r[j1] == u[o1]);
            assert(r[j2] == u[o2]);
            if r[j1].destination == r[j2].destination {
                assert(ts[o1].source != ts[o2].source);
                assert(ts[i].source != ts[k].source);
                lemma_collision_pair_unique(t, ts[o1].source, ts[o2].source, ts[i].source, ts[k].source);
                assert(ts[o1].source != ts[k].source);
                assert(ts[o2].source != ts[k].source);
            }
        }
    }
}

proof fn lemma_first_merge_exists(ts: Seq<Train>, i: int, k: int)
    requires
        same_way_out(ts, i, k),
    ensures
        exists|i2: int, k2: int| is_first_merge(ts, i2, k2),
    decreases i, k,
{
    if exists|i2: int, k2: int| 0 <= i2 < i && #[trigger] same_way_out(ts, i2, k2) {
        let (i2, k2) = choose|i2: int, k2: int| 0 <= i2 < i && #[trigger] same_way_out(ts, i2, k2);
        lemma_first_merge_exists(ts, i2, k2);
    } else if exists|k2: int| 0 <= k2 < k && #[trigger] same_way_out(ts, i, k2) {
        let k2 = choose|k2: int| 0 <= k2 < k && #[trigger] same_way_out(ts, i, k2);
        lemma_first_merge_exists(ts, i, k2);
    } else {
        assert(is_first_merge(ts, i, k));
    }
}

/// Trains accepted into an empty tile without a crash, once they have met
/// (a tick) and merged (the interaction as they leave), leave by different
/// sides of the tile: dispatching them is always possible.
pub proof fn law_dispatch_after_interaction(
    t0: Tracktile,
    colors: Seq<Option<Color>>,
    t1: Tracktile,
    t2: Tracktile,
)
    requires
        t0.wf(),
        t0.trains@.len() == 0,
        colors.len() == 4,
        !any_crash(t0.active_connection, t0.passive_connection, colors),
        t1.active_connection == t0.active_connection,
        t1.passive_connection == t0.passive_connection,
        t1.trains@ == t0.trains@ + arrivals(t0.active_connection, t0.passive_connection, colors),
        t2.active_connection == t1.active_connection,
        t2.passive_connection == t1.passive_connection,
        t2.trains@ == t1.tick_spec().0,
    ensures
        ready_seq(t2.interact_spec().0),
{
    lemma_arrivals_routed(t0, colors);
    let arr = arrivals(t0.active_connection, t0.passive_connection, colors);
    assert(t1.trains@ == arr);
    assert(routed(t2, arr));
    law_tick_keeps_routes(t1);
    lemma_routed_same_routes(t2, t2.trains@, arr);
    let ts = t2.trains@;
    let ty = t2.spec_type();
    if ts.len() >= 2 && !mixes_all(ty) && ty != ConnectionType::Z {
        lemma_merge_ready(t2, ts);
    } else {
        assert forall|i: int| 0 <= i < ts.len() implies #[trigger] ts[i].destination < 4 by {
            lemma_exit_side_in_range(t2, ts[i].source);
        }
        if ts.len() >= 2 {
            assert(!switches(ty));
            assert forall|i: int, k: int| 0 <= i < ts.len() && 0 <= k < ts.len() && i != k implies #[trigger] ts[i].destination
                != #[trigger] ts[k].destination by {
                lemma_no_collision_outside_switches(t2, ts[i].source, ts[k].source);
            }
        }
    }
}

/// Swapping the active and the passive connection keeps the shape of an M
/// or J track and its well-formedness: a track that switched switches back
/// the next time an odd number of trains passes, and two switches restore it.
pub proof fn law_switch_is_reversible(t: Tracktile, t1: Tracktile)
    requires
        t.wf(),
        switches(t.spec_type()),
        t1.active_connection == t.passive_connection,
        t1.passive_connection == t.active_connection,
    ensures
        t1.wf(),
        t1.spec_type() == t.spec_type(),
        switches(t1.spec_type()),
{
}

proof fn lemma_first_going_unique(ts: Seq<Train>, j: int, j2: int, s: u8, d: u8)
    requires
        is_first_going(ts, j, s, d),
        is_first_going(ts, j2, s, d),
    ensures
        j == j2,
{
    if j < j2 {
        assert(!goes(ts[j], s, d));
    } else if j2 < j {
        assert(!goes(ts[j2], s, d));
    }
}

proof fn lemma_meet_along_pair(ts: Seq<Train>, c: Connection, j: int, k: int)
    requires
        c.dir1 != c.dir2,
        is_first_going(ts, j, c.dir1, c.dir2),
        is_first_going(ts, k, c.dir2, c.dir1),
    ensures
        ({
            let m = crate::color::mix_spec(seq![ts[j].color, ts[k].color]);
            &&& j != k
            &&& meet_along(ts, c).0 == ts.update(j, recolored(ts[j], m)).update(k, recolored(ts[k], m))
            &&& meet_along(ts, c).1 == seq![TileEvent::TrainSound(m), TileEvent::FireOnConnection(c, m)]
        }),
{
    assert(some_going(ts, c.dir1, c.dir2));
    assert(some_going(ts, c.dir2, c.dir1));
    let j0 = choose|j: int| is_first_going(ts, j, c.dir1, c.dir2);
    let k0 = choose|k: int| is_first_going(ts, k, c.dir2, c.dir1);
    lemma_first_going_unique(ts, j, j0, c.dir1, c.dir2);
    lemma_first_going_unique(ts, k, k0, c.dir2, c.dir1);
}

proof fn lemma_meet_along_changes(ts: Seq<Train>, c: Connection)
    requires
        c.dir1 != c.dir2,
    ensures
        meet_along(ts, c).0.len() == ts.len(),
        forall|i: int| 0 <= i < ts.len() && #[trigger] meet_along(ts, c).0[i].color != ts[i].color ==> ((goes(
            ts[i],
            c.dir1,
            c.dir2,
        ) || goes(ts[i], c.dir2, c.dir1)) && exists|k: int| 0 <= k < ts.len() && #[trigger] goes(
            ts[k],
            ts[i].destination,
            ts[i].source,
        )),
        !(some_going(ts, c.dir1, c.dir2) && some_going(ts, c.dir2, c.dir1)) ==> meet_along(ts, c) == (
        ts,
        Seq::<TileEvent>::empty(),
        ),
{
    lemma_meet_along_keeps_routes(ts, c);
    if some_going(ts, c.dir1, c.dir2) && some_going(ts, c.dir2, c.dir1) {
        let jj = choose|j: int| 0 <= j < ts.len() && goes(#[trigger] ts[j], c.dir1, c.dir2);
        lemma_first_going_exists(ts, c.dir1, c.dir2, jj);
        let kk = choose|k: int| 0 <= k < ts.len() && goes(#[trigger] ts[k], c.dir2, c.dir1);
        lemma_first_going_exists(ts, c.dir2, c.dir1, kk);
        let j = choose|j: int| is_first_going(ts, j, c.dir1, c.dir2);
        let k = choose|k: int| is_first_going(ts, k, c.dir2, c.dir1);
        lemma_meet_along_pair(ts, c, j, k);
        assert forall|i: int| 0 <= i < ts.len() && #[trigger] meet_along(ts, c).0[i].color != ts[i].color implies ((goes(
            ts[i],
            c.dir1,
            c.dir2,
        ) || goes(ts[i], c.dir2, c.dir1)) && exists|k: int| 0 <= k < ts.len() && #[trigger] goes(
            ts[k],
            ts[i].destination,
            ts[i].source,
        )) by {
            if i == j {
                assert(goes(ts[k], ts[i].destination, ts[i].source));
            } else {
                assert(i == k);
                assert(goes(ts[j], ts[i].destination, ts[i].source));
            }
        }
    }
}

/// Trains `j` and `k` are the first that run along `c` from its first side
/// and the first that run the other way.
pub open spec fn first_head_on(ts: Seq<Train>, c: Connection, j: int, k: int) -> bool {
    &&& 0 <= j < ts.len()
    &&& 0 <= k < ts.len()
    &&& ts[j].source == c.dir1 && ts[j].destination == c.dir2
    &&& ts[k].source == c.dir2 && ts[k].destination == c.dir1
    &&& forall|m: int| 0 <= m < j ==> !(#[trigger] ts[m].source == c.dir1 && ts[m].destination == c.dir2)
    &&& forall|m: int| 0 <= m < k ==> !(#[trigger] ts[m].source == c.dir2 && ts[m].destination == c.dir1)
}

/// Some train runs along `c` one way and some train the other way.
pub open spec fn head_on_along(ts: Seq<Train>, c: Connection) -> bool {
    exists|j: int, k: int| 0 <= j < ts.len() && 0 <= k < ts.len() && #[trigger] ts[j].source == c.dir1
        && ts[j].destination == c.dir2 && #[trigger] ts[k].source == c.dir2 && ts[k].destination == c.dir1
}

/// Train `i` runs along `c`, one way or the other, and some train runs the
/// other way.
pub open spec fn meets_on(ts: Seq<Train>, c: Connection, i: int) -> bool {
    &&& ((ts[i].source == c.dir1 && ts[i].destination == c.dir2) || (ts[i].source == c.dir2 && ts[i].destination
        == c.dir1))
    &&& exists|k: int| 0 <= k < ts.len() && #[trigger] ts[k].source == ts[i].destination && ts[k].destination
        == ts[i].source
}

/// What a tick makes of trains `ts` that meet head-on along `a` (and, where
/// `both`, along `p` after that): `nt` holds the same trains on the same
/// routes; a train changes colour only where it meets another on one of
/// those connections; the first pair that meets on a connection takes their
/// mixed colour, heard and seen halfway along it (along `a` first, along `p`
/// last); without any pair nothing is heard or seen.
pub open spec fn head_on_outcome(ts: Seq<Train>, a: Connection, p: Connection, both: bool, nt: Seq<Train>, ev: Seq<TileEvent>) -> bool {
    &&& nt.len() == ts.len()
    &&& forall|i: int| 0 <= i < ts.len() ==> #[trigger] nt[i].source == ts[i].source && nt[i].destination == ts[i].destination
    &&& forall|i: int| 0 <= i < ts.len() && #[trigger] nt[i].color != ts[i].color ==> meets_on(ts, a, i) || (both
        && meets_on(ts, p, i))
    &&& forall|j: int, k: int| #[trigger] first_head_on(ts, a, j, k) ==> {
        let c = crate::color::mix_spec(seq![ts[j].color, ts[k].color]);
        &&& nt[j].color == c
        &&& nt[k].color == c
        &&& ev.len() >= 2
        &&& ev[0] == TileEvent::TrainSound(c)
        &&& ev[1] == TileEvent::FireOnConnection(a, c)
    }
    &&& forall|j: int, k: int| both && #[trigger] first_head_on(ts, p, j, k) ==> {
        let c = crate::color::mix_spec(seq![ts[j].color, ts[k].color]);
        &&& nt[j].color == c
        &&& nt[k].color == c
        &&& ev.len() >= 2
        &&& ev[ev.len() - 2] == TileEvent::TrainSound(c)
        &&& ev[ev.len() - 1] == TileEvent::FireOnConnection(p, c)
    }
    &&& (!head_on_along(ts, a) && (!both || !head_on_along(ts, p))) ==> ev.len() == 0
}

proof fn lemma_meet_along_outcome(ts: Seq<Train>, a: Connection, p: Connection)
    requires
        a.dir1 != a.dir2,
    ensures
        head_on_outcome(ts, a, p, false, meet_along(ts, a).0, meet_along(ts, a).1),
{
    let r = meet_along(ts, a);
    lemma_meet_along_keeps_routes(ts, a);
    lemma_meet_along_changes(ts, a);
    assert forall|i: int| 0 <= i < ts.len() && #[trigger] r.0[i].color != ts[i].color implies meets_on(ts, a, i) by {
        let k = choose|k: int| 0 <= k < ts.len() && #[trigger] goes(ts[k], ts[i].destination, ts[i].source);
        assert(ts[k].source == ts[i].destination && ts[k].destination == ts[i].source);
    }
    assert forall|j: int, k: int| #[trigger] first_head_on(ts, a, j, k) implies ({
        let c = crate::color::mix_spec(seq![ts[j].color, ts[k].color]);
        &&& r.0[j].color == c
        &&& r.0[k].color == c
        &&& r.1.len() >= 2
        &&& r.1[0] == TileEvent::TrainSound(c)
        &&& r.1[1] == TileEvent::FireOnConnection(a, c)
    }) by {
        assert(is_first_going(ts, j, a.dir1, a.dir2));
        assert(is_first_going(ts, k, a.dir2, a.dir1));
        lemma_meet_along_pair(ts, a, j, k);
    }
    if some_going(ts, a.dir1, a.dir2) && some_going(ts, a.dir2, a.dir1) {
        let j = choose|j: int| 0 <= j < ts.len() && goes(#[trigger] ts[j], a.dir1, a.dir2);
        let k = choose|k: int| 0 <= k < ts.len() && goes(#[trigger] ts[k], a.dir2, a.dir1);
        assert(ts[j].source == a.dir1 && ts[k].source == a.dir2);
        assert(head_on_along(ts, a));
    }
}

proof fn lemma_z_outcome(ts: Seq<Train>, a: Connection, p: Connection)
    requires
        a.dir1 != a.dir2,
        p.dir1 != p.dir2,
        !(a.has(p.dir1) || a.has(p.dir2)),
    ensures
        head_on_outcome(ts, a, p, true, meet_along(meet_along(ts, a).0, p).0, meet_along(ts, a).1 + meet_along(meet_along(ts, a).0, p).1),
{
    let first = meet_along(ts, a);
    let f = first.0;
    let second = meet_along(f, p);
    let ev = first.1 + second.1;
    lemma_meet_along_keeps_routes(ts, a);
    lemma_meet_along_changes(ts, a);
    lemma_meet_along_keeps_routes(f, p);
    lemma_meet_along_changes(f, p);
    assert forall|i: int| 0 <= i < ts.len() && #[trigger] second.0[i].color != ts[i].color implies meets_on(ts, a, i)
        || meets_on(ts, p, i) by {
        if f[i].color != ts[i].color {
            let k = choose|k: int| 0 <= k < ts.len() && #[trigger] goes(ts[k], ts[i].destination, ts[i].source);
            assert(ts[k].source == ts[i].destination && ts[k].destination == ts[i].source);
            assert(meets_on(ts, a, i));
        } else {
            assert(second.0[i].color != f[i].color);
            let k = choose|k: int| 0 <= k < f.len() && #[trigger] goes(f[k], f[i].destination, f[i].source);
            assert(ts[k].source == ts[i].destination && ts[k].destination == ts[i].source);
            assert(meets_on(ts, p, i));
        }
    }
    assert forall|j: int, k: int| #[trigger] first_head_on(ts, a, j, k) implies ({
        let c = crate::color::mix_spec(seq![ts[j].color, ts[k].color]);
        &&& second.0[j].color == c
        &&& second.0[k].color == c
        &&& ev.len() >= 2
        &&& ev[0] == TileEvent::TrainSound(c)
        &&& ev[1] == TileEvent::FireOnConnection(a, c)
    }) by {
        assert(is_first_going(ts, j, a.dir1, a.dir2));
        assert(is_first_going(ts, k, a.dir2, a.dir1));
        lemma_meet_along_pair(ts, a, j, k);
        if second.0[j].color != f[j].color {
            assert(f[j].source == a.dir1);
        }
        if second.0[k].color != f[k].color {
            assert(f[k].source == a.dir2);
        }
    }
    assert forall|j: int, k: int| #[trigger] first_head_on(ts, p, j, k) implies ({
        let c = crate::color::mix_spec(seq![ts[j].color, ts[k].color]);
        &&& second.0[j].color == c
        &&& second.0[k].color == c
        &&& ev.len() >= 2
        &&& ev[ev.len() - 2] == TileEvent::TrainSound(c)
        &&& ev[ev.len() - 1] == TileEvent::FireOnConnection(p, c)
    }) by {
        assert(is_first_going(f, j, p.dir1, p.dir2));
        assert(is_first_going(f, k, p.dir2, p.dir1));
        lemma_meet_along_pair(f, p, j, k);
        if f[j].color != ts[j].color {
            assert(ts[j].source == p.dir1);
        }
        if f[k].color != ts[k].color {
            assert(ts[k].source == p.dir2);
        }
    }
    if some_going(ts, a.dir1, a.dir2) && some_going(ts, a.dir2, a.dir1) {
        let j = choose|j: int| 0 <= j < ts.len() && goes(#[trigger] ts[j], a.dir1, a.dir2);
        let k = choose|k: int| 0 <= k < ts.len() && goes(#[trigger] ts[k], a.dir2, a.dir1);
        assert(ts[j].source == a.dir1 && ts[k].source == a.dir2);
        assert(head_on_along(ts, a));
    }
    if some_going(f, p.dir1, p.dir2) && some_going(f, p.dir2, p.dir1) {
        let j = choose|j: int| 0 <= j < f.len() && goes(#[trigger] f[j], p.dir1, p.dir2);
        let k = choose|k: int| 0 <= k < f.len() && goes(#[trigger] f[k], p.dir2, p.dir1);
        assert(ts[j].source == p.dir1 && ts[k].source == p.dir2);
        assert(head_on_along(ts, p));
    }
}

/// On a tile with two connections that are not both straight (a Z, M or J
/// track), a tick holding two trains or more keeps every train's place, source
/// and destination, and changes a train's colour only where it runs along
/// the active connection (or, on a Z track, whose connections share no side,
/// along the passive one) and some train runs the other way along it. There
/// the first train that runs each way takes the mixed colour of the two, and
/// the meeting is heard and then seen halfway along that connection: first
/// along the active connection, last along the passive one of a Z track.
/// Where no train runs the other way of another, nothing is heard or seen.
pub proof fn law_head_on_trains_meet(t: Tracktile)
    requires
        t.classifiable(),
        t.active_connection is Some,
        t.passive_connection is Some,
        !(t.active_connection->0.is_straight() && t.passive_connection->0.is_straight()),
        t.trains@.len() >= 2,
    ensures
        head_on_outcome(
            t.trains@,
            t.active_connection->0,
            t.passive_connection->0,
            !(t.active_connection->0.has(t.passive_connection->0.dir1) || t.active_connection->0.has(
                t.passive_connection->0.dir2,
            )),
            t.tick_spec().0,
            t.tick_spec().1,
        ),
{
    let ts = t.trains@;
    let a = t.active_connection->0;
    let p = t.passive_connection->0;
    let z = !(a.has(p.dir1) || a.has(p.dir2));
    let ty = t.spec_type();
    assert(!mixes_all(ty));
    if z {
        assert(ty == ConnectionType::Z);
        lemma_z_outcome(ts, a, p);
    } else {
        assert(switches(ty));
        lemma_meet_along_outcome(ts, a, p);
    }
}

/// Trains `i` and `k`, `i` before `k`, are the first two trains that leave
/// by the same side: no train before `i` leaves by the side of another train,
/// and no train before `k` but `i` leaves by the side of `i`.
pub open spec fn first_leaving_together(ts: Seq<Train>, i: int, k: int) -> bool {
    &&& 0 <= i < k < ts.len()
    &&& ts[i].destination == ts[k].destination
    &&& forall|i2: int, k2: int| 0 <= i2 < i && 0 <= k2 < ts.len() && i2 != k2 ==> #[trigger] ts[i2].destination
        != #[trigger] ts[k2].destination
    &&& forall|k2: int| 0 <= k2 < k && k2 != i ==> #[trigger] ts[k2].destination != ts[i].destination
}

/// Whether the trains of tile `t` merge as they leave: there are two or more,
/// and the tile's connections meet at a side (an M or a J track; a tile
/// without track too, though it never holds a train).
pub open spec fn merges_on_leaving(t: Tracktile) -> bool {
    &&& t.trains@.len() >= 2
    &&& (t.active_connection is None || (t.passive_connection is Some && (t.active_connection->0.has(
        t.passive_connection->0.dir1,
    ) || t.active_connection->0.has(t.passive_connection->0.dir2))))
}

/// As trains leave a tile whose connections meet at a side, the first two
/// that leave by the same side merge: the first takes the mixed colour of
/// both, keeping its route, the second is gone, the others stay in order;
/// the merge is heard and then seen on that side. Where no two trains leave
/// by the same side, or the tile is a single track, a crossing or a Z track,
/// the trains stay as they were and nothing but a switch is reported.
pub proof fn law_trains_leaving_together_merge(t: Tracktile)
    requires
        t.classifiable(),
    ensures
        ({
            let ts = t.trains@;
            let r = t.interact_spec();
            &&& (!merges_on_leaving(t) || forall|i: int, k: int| 0 <= i < ts.len() && 0 <= k < ts.len() && i != k
                ==> #[trigger] ts[i].destination != #[trigger] ts[k].destination) ==> r.0 == ts && r.1 == (if r.2 {
                seq![TileEvent::SwitchTrack]
            } else {
                Seq::empty()
            })
            &&& forall|i: int, k: int| merges_on_leaving(t) && #[trigger] first_leaving_together(ts, i, k) ==> {
                let m = crate::color::mix_spec(seq![ts[i].color, ts[k].color]);
                &&& r.0.len() == ts.len() - 1
                &&& r.0[i] == Train { color: m, source: ts[i].source, destination: ts[i].destination }
                &&& forall|j: int| 0 <= j < k && j != i ==> #[trigger] r.0[j] == ts[j]
                &&& forall|j: int| k <= j < r.0.len() ==> #[trigger] r.0[j] == ts[j + 1]
                &&& r.1.len() >= 2
                &&& r.1[0] == TileEvent::TrainSound(m)
                &&& r.1[1] == TileEvent::FireAtSide(ts[i].destination, m)
            }
        }),
{
    let ts = t.trains@;
    let ty = t.spec_type();
    assert(merges_on_leaving(t) <==> (ts.len() >= 2 && !mixes_all(ty) && ty != ConnectionType::Z));
    if !merges_on_leaving(t) || forall|i: int, k: int| 0 <= i < ts.len() && 0 <= k < ts.len() && i != k
        ==> #[trigger] ts[i].destination != #[trigger] ts[k].destination {
        if merges_on_leaving(t) {
            assert(!some_merge(ts));
        }
    }
    assert forall|i: int, k: int| merges_on_leaving(t) && #[trigger] first_leaving_together(ts, i, k) implies ({
        let m = crate::color::mix_spec(seq![ts[i].color, ts[k].color]);
        let r = t.interact_spec();
        &&& r.0.len() == ts.len() - 1
        &&& r.0[i] == Train { color: m, source: ts[i].source, destination: ts[i].destination }
        &&& forall|j: int| 0 <= j < k && j != i ==> #[trigger] r.0[j] == ts[j]
        &&& forall|j: int| k <= j < r.0.len() ==> #[trigger] r.0[j] == ts[j + 1]
        &&& r.1.len() >= 2
        &&& r.1[0] == TileEvent::TrainSound(m)
        &&& r.1[1] == TileEvent::FireAtSide(ts[i].destination, m)
    }) by {
        assert(same_way_out(ts, i, k));
        assert(is_first_merge(ts, i, k)) by {
            assert forall|i2: int, k2: int| 0 <= i2 < i implies !#[trigger] same_way_out(ts, i2, k2) by {
                if same_way_out(ts, i2, k2) {
                    assert(ts[i2].destination != ts[k2].destination);
                }
            }
        }
        let (i0, k0) = choose|i: int, k: int| is_first_merge(ts, i, k);
        lemma_first_merge_unique(ts, i, k, i0, k0);
    }
}

proof fn lemma_first_merge_unique(ts: Seq<Train>, i: int, k: int, i0: int, k0: int)
    requires
        is_first_merge(ts, i, k),
        is_first_merge(ts, i0, k0),
    ensures
        i == i0 && k == k0,
{
    if i < i0 {
        assert(!same_way_out(ts, i, k));
    } else if i0 < i {
        assert(!same_way_out(ts, i0, k0));
    } else if k < k0 {
        assert(!same_way_out(ts, i, k));
    } else if k0 < k {
        assert(!same_way_out(ts, i0, k0));
    }
}

} // verus!
