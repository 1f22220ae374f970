use vstd::prelude::*;
use crate::color::{Color, mix_spec};
use crate::connection::Connection;
use crate::tracktile_laws::{head_on_outcome, law_head_on_trains_meet, merges_on_leaving, first_leaving_together, law_trains_leaving_together_merge};

verus! {

/// What a tile holds on each of its four sides: the colour of a train that
/// crosses that side, if any.
pub type BorderState = [Option<Color>; 4];

/// A train inside a track tile, with the side it came in by and the side it
/// leaves by.
#[derive(Clone, Copy, Debug)]
pub struct Train {
    pub color: Color,
    pub source: u8,
    pub destination: u8,
}

/// The shape of the track on a tile, up to rotation: no track, a straight
/// (S), a bend (B), a crossing of two straights (H), two bends on opposite
/// corners (Z), two bends that share a side (M), a straight with a bend (J).
#[derive(Copy, Clone, Debug, PartialEq, Eq, Structural)]
pub enum ConnectionType {
    Blank,
    S,
    B,
    H,
    Z,
    M,
    J,
}

/// What the screen and the speakers should show of a step of a tile.
#[derive(Copy, Clone, Debug)]
pub enum TileEvent {
    /// Trains of this colour met: play its sound.
    TrainSound(Color),
    /// Trains met halfway along this connection: a fire of this colour there.
    FireOnConnection(Connection, Color),
    /// Trains merged as they left by this side: a fire of this colour there.
    FireAtSide(u8, Color),
    /// The active and the passive connection were swapped.
    SwitchTrack,
}

impl ConnectionType {
    /// The character that stands for the type in listings.
    pub fn get_char(&self) -> (c: char)
        ensures
            c == match *self {
                ConnectionType::Blank => '_',
                ConnectionType::S => 'S',
                ConnectionType::B => 'B',
                ConnectionType::H => 'H',
                ConnectionType::Z => 'Z',
                ConnectionType::M => 'M',
                ConnectionType::J => 'J',
            },
    {
        match self {
            ConnectionType::Blank => '_',
            ConnectionType::S => 'S',
            ConnectionType::B => 'B',
            ConnectionType::H => 'H',
            ConnectionType::Z => 'Z',
            ConnectionType::M => 'M',
            ConnectionType::J => 'J',
        }
    }
}

/// Where on a tile the middle of a connection lies: the centre for a
/// straight, else the corner between the two sides that a bend joins.
#[derive(Copy, Clone, Debug, PartialEq, Eq, Structural)]
pub enum ConnectionMidpoint {
    Center,
    UpLeft,
    UpRight,
    DownRight,
    DownLeft,
}

/// The place of the middle of the connection `c`.
pub open spec fn midpoint_spec(c: Connection) -> ConnectionMidpoint {
    if c.is_straight() {
        ConnectionMidpoint::Center
    } else if c.same(Connection { dir1: 3, dir2: 0 }) {
        ConnectionMidpoint::UpLeft
    } else if c.same(Connection { dir1: 0, dir2: 1 }) {
        ConnectionMidpoint::UpRight
    } else if c.same(Connection { dir1: 1, dir2: 2 }) {
        ConnectionMidpoint::DownRight
    } else {
        ConnectionMidpoint::DownLeft
    }
}

/// Where the middle of a connection lies, for placing what happens along
/// it. Every connection between two different sides has one.
pub fn conn_midpoint(conn: Connection) -> (m: ConnectionMidpoint)
    requires
        conn.wf(),
    ensures
        m == midpoint_spec(conn),
        m == ConnectionMidpoint::DownLeft ==> conn.same(Connection { dir1: 2, dir2: 3 }),
{
    if conn == (Connection { dir1: 0, dir2: 2 }) || conn == (Connection { dir1: 1, dir2: 3 }) {
        return ConnectionMidpoint::Center;
    }
    if conn == (Connection { dir1: 3, dir2: 0 }) {
        return ConnectionMidpoint::UpLeft;
    }
    if conn == (Connection { dir1: 0, dir2: 1 }) {
        return ConnectionMidpoint::UpRight;
    }
    if conn == (Connection { dir1: 1, dir2: 2 }) {
        return ConnectionMidpoint::DownRight;
    }
    ConnectionMidpoint::DownLeft
}

/// The smallest number of quarter turns, 0 to 3, that turns `c` into `mine`;
/// -1 where none does.
pub open spec fn first_rot(mine: Connection, c: Connection) -> i8 {
    if mine.same(c.rotated(0)) {
        0
    } else if mine.same(c.rotated(1)) {
        1
    } else if mine.same(c.rotated(2)) {
        2
    } else if mine.same(c.rotated(3)) {
        3
    } else {
        -1i8
    }
}

/// Turned by `r` quarter turns, `c1` and `c2` become `a` and `p`, in either
/// order.
pub open spec fn pair_matches(a: Connection, p: Connection, c1: Connection, c2: Connection, r: u8) -> bool {
    (a.same(c1.rotated(r)) && p.same(c2.rotated(r))) || (a.same(c2.rotated(r)) && p.same(c1.rotated(r)))
}

/// Turned by `r` quarter turns, `c1` becomes `a` and `c2` becomes `p`.
pub open spec fn ordered_pair_matches(a: Connection, p: Connection, c1: Connection, c2: Connection, r: u8) -> bool {
    a.same(c1.rotated(r)) && p.same(c2.rotated(r))
}

/// The smallest number of quarter turns that turns the pair `c1`, `c2` into
/// the pair `a`, `p` (in either order); -1 where none does.
pub open spec fn first_pair_rot(a: Connection, p: Connection, c1: Connection, c2: Connection) -> i8 {
    if pair_matches(a, p, c1, c2, 0) {
        0
    } else if pair_matches(a, p, c1, c2, 1) {
        1
    } else if pair_matches(a, p, c1, c2, 2) {
        2
    } else if pair_matches(a, p, c1, c2, 3) {
        3
    } else {
        -1i8
    }
}

/// As `first_pair_rot`, with `c1` to become `a` and `c2` to become `p`.
pub open spec fn first_ordered_pair_rot(a: Connection, p: Connection, c1: Connection, c2: Connection) -> i8 {
    if ordered_pair_matches(a, p, c1, c2, 0) {
        0
    } else if ordered_pair_matches(a, p, c1, c2, 1) {
        1
    } else if ordered_pair_matches(a, p, c1, c2, 2) {
        2
    } else if ordered_pair_matches(a, p, c1, c2, 3) {
        3
    } else {
        -1i8
    }
}

proof fn lemma_first_pair_rot(a: Connection, p: Connection, c1: Connection, c2: Connection, r: u8)
    requires
        r < 4,
        pair_matches(a, p, c1, c2, r),
        forall|k: u8| k < r ==> !#[trigger] pair_matches(a, p, c1, c2, k),
    ensures
        first_pair_rot(a, p, c1, c2) == r as i8,
{
    if r > 0 {
        assert(!pair_matches(a, p, c1, c2, 0));
    }
    if r > 1 {
        assert(!pair_matches(a, p, c1, c2, 1));
    }
    if r > 2 {
        assert(!pair_matches(a, p, c1, c2, 2));
    }
}

proof fn lemma_first_ordered_pair_rot(a: Connection, p: Connection, c1: Connection, c2: Connection, r: u8)
    requires
        r < 4,
        ordered_pair_matches(a, p, c1, c2, r),
        forall|k: u8| k < r ==> !#[trigger] ordered_pair_matches(a, p, c1, c2, k),
    ensures
        first_ordered_pair_rot(a, p, c1, c2) == r as i8,
{
    if r > 0 {
        assert(!ordered_pair_matches(a, p, c1, c2, 0));
    }
    if r > 1 {
        assert(!ordered_pair_matches(a, p, c1, c2, 1));
    }
    if r > 2 {
        assert(!ordered_pair_matches(a, p, c1, c2, 2));
    }
}

/// How the tests that classify a tile with two connections answer: a
/// crossing is two straights, two bends are on opposite corners or share a
/// side, and otherwise one is straight and the other a bend.
proof fn lemma_pair_shapes(a: Connection, p: Connection)
    requires
        a.wf(),
        p.wf(),
        !a.same(p),
    ensures
        ((a.same(Connection { dir1: 0, dir2: 2 }) && p.same(Connection { dir1: 1, dir2: 3 })) || (
        a.same(Connection { dir1: 1, dir2: 3 }) && p.same(Connection { dir1: 0, dir2: 2 })))
            <==> (a.is_straight() && p.is_straight()),
        (first_pair_rot(a, p, Connection { dir1: 0, dir2: 1 }, Connection { dir1: 2, dir2: 3 }) != -1)
            <==> (!a.is_straight() && !p.is_straight() && !share_side(a, p)),
        (first_pair_rot(a, p, Connection { dir1: 0, dir2: 1 }, Connection { dir1: 1, dir2: 2 }) != -1)
            <==> (!a.is_straight() && !p.is_straight() && share_side(a, p)),
        (first_pair_rot(a, p, Connection { dir1: 0, dir2: 1 }, Connection { dir1: 0, dir2: 2 }) != -1
            || first_pair_rot(a, p, Connection { dir1: 0, dir2: 3 }, Connection { dir1: 0, dir2: 2 })
            != -1) <==> (a.is_straight() != p.is_straight()),
{
}

/// The two connections have a side in common.
pub open spec fn share_side(a: Connection, p: Connection) -> bool {
    a.has(p.dir1) || a.has(p.dir2)
}

/// The shape of the track made of the active connection `a` and the passive
/// connection `p`.
pub open spec fn type_of(a: Option<Connection>, p: Option<Connection>) -> ConnectionType {
    match a {
        None => ConnectionType::Blank,
        Some(a) => match p {
            None => if a.is_straight() {
                ConnectionType::S
            } else {
                ConnectionType::B
            },
            Some(p) => if a.is_straight() && p.is_straight() {
                ConnectionType::H
            } else if !a.is_straight() && !p.is_straight() {
                if share_side(a, p) {
                    ConnectionType::M
                } else {
                    ConnectionType::Z
                }
            } else {
                ConnectionType::J
            },
        },
    }
}

/// The train comes in by side `s` and leaves by side `d`.
pub open spec fn goes(t: Train, s: u8, d: u8) -> bool {
    t.source == s && t.destination == d
}

/// `j` is the first of the trains `ts` that comes in by `s` and leaves by `d`.
pub open spec fn is_first_going(ts: Seq<Train>, j: int, s: u8, d: u8) -> bool {
    &&& 0 <= j < ts.len()
    &&& goes(ts[j], s, d)
    &&& forall|m: int| 0 <= m < j ==> !goes(#[trigger] ts[m], s, d)
}

/// Some train of `ts` comes in by `s` and leaves by `d`.
pub open spec fn some_going(ts: Seq<Train>, s: u8, d: u8) -> bool {
    exists|j: int| 0 <= j < ts.len() && goes(#[trigger] ts[j], s, d)
}

/// The train, painted `c`.
pub open spec fn recolored(t: Train, c: Color) -> Train {
    Train { color: c, source: t.source, destination: t.destination }
}

/// The colours of the trains.
pub open spec fn colors_of(ts: Seq<Train>) -> Seq<Color> {
    ts.map_values(|t: Train| t.color)
}

/// Trains meeting head-on along `c`: the first train that runs along `c` from
/// its first side and the first that runs the other way take their mixed
/// colour, and the meeting is heard and seen halfway along `c`. Without such
/// a pair nothing happens.
pub open spec fn meet_along(ts: Seq<Train>, c: Connection) -> (Seq<Train>, Seq<TileEvent>) {
    if some_going(ts, c.dir1, c.dir2) && some_going(ts, c.dir2, c.dir1) {
        let j = choose|j: int| is_first_going(ts, j, c.dir1, c.dir2);
        let k = choose|k: int| is_first_going(ts, k, c.dir2, c.dir1);
        let m = mix_spec(seq![ts[j].color, ts[k].color]);
        (
            ts.update(j, recolored(ts[j], m)).update(k, recolored(ts[k], m)),
            seq![TileEvent::TrainSound(m), TileEvent::FireOnConnection(c, m)],
        )
    } else {
        (ts, Seq::empty())
    }
}

/// Trains `i` and `k` are two different trains that leave by the same side.
pub open spec fn same_way_out(ts: Seq<Train>, i: int, k: int) -> bool {
    &&& 0 <= i < ts.len()
    &&& 0 <= k < ts.len()
    &&& i != k
    &&& ts[i].destination == ts[k].destination
}

/// `(i, k)` is the first pair, in the order of `i` and then of `k`, of
/// different trains that leave by the same side.
pub open spec fn is_first_merge(ts: Seq<Train>, i: int, k: int) -> bool {
    &&& same_way_out(ts, i, k)
    &&& forall|i2: int, k2: int| 0 <= i2 < i ==> !#[trigger] same_way_out(ts, i2, k2)
    &&& forall|k2: int| 0 <= k2 < k ==> !#[trigger] same_way_out(ts, i, k2)
}

/// Two trains of `ts` leave by the same side.
pub open spec fn some_merge(ts: Seq<Train>) -> bool {
    exists|i: int, k: int| #[trigger] same_way_out(ts, i, k)
}

/// Trains leaving by the same side merge: of the first such pair, the first
/// train takes the mixed colour and the second is gone; the merge is heard
/// and seen on the side they leave by.
pub open spec fn merge_spec(ts: Seq<Train>) -> (Seq<Train>, Seq<TileEvent>) {
    if some_merge(ts) {
        let (i, k) = choose|i: int, k: int| is_first_merge(ts, i, k);
        let m = mix_spec(seq![ts[i].color, ts[k].color]);
        (
            ts.update(i, recolored(ts[i], m)).remove(k),
            seq![TileEvent::TrainSound(m), TileEvent::FireAtSide(ts[i].destination, m)],
        )
    } else {
        (ts, Seq::empty())
    }
}

/// The tracks on which all trains meet at once: a single track, or a crossing.
pub open spec fn mixes_all(t: ConnectionType) -> bool {
    t == ConnectionType::H || t == ConnectionType::S || t == ConnectionType::B
}

/// The tracks that switch when an odd number of trains has passed.
pub open spec fn switches(t: ConnectionType) -> bool {
    t == ConnectionType::M || t == ConnectionType::J
}

/// A train of colour `colors[d]` crashes on side `d`: no connection ends there.
pub open spec fn crashes(a: Option<Connection>, p: Option<Connection>, colors: Seq<Option<Color>>, d: int) -> bool {
    colors[d] is Some && !((a matches Some(c) && c.has(d as u8)) || (p matches Some(c) && c.has(d as u8)))
}

/// Some train offered to the tile crashes.
pub open spec fn any_crash(a: Option<Connection>, p: Option<Connection>, colors: Seq<Option<Color>>) -> bool {
    exists|d: int| 0 <= d < 4 && #[trigger] crashes(a, p, colors, d)
}

/// The side by which a train that comes in by `d` leaves: along the active
/// connection where it ends at `d`, else along the passive one.
pub open spec fn exit_side(a: Option<Connection>, p: Option<Connection>, d: u8) -> u8 {
    if a matches Some(c) && c.has(d) {
        a->0.other_end(d)
    } else {
        p->0.other_end(d)
    }
}

/// The train, if any, that comes in by side `d`.
pub open spec fn arrival(a: Option<Connection>, p: Option<Connection>, colors: Seq<Option<Color>>, d: int) -> Seq<Train> {
    match colors[d] {
        Some(c) => seq![Train { color: c, source: d as u8, destination: exit_side(a, p, d as u8) }],
        None => Seq::empty(),
    }
}

/// The trains that come in, in the order of their sides.
pub open spec fn arrivals(a: Option<Connection>, p: Option<Connection>, colors: Seq<Option<Color>>) -> Seq<Train> {
    arrival(a, p, colors, 0) + arrival(a, p, colors, 1) + arrival(a, p, colors, 2) + arrival(a, p, colors, 3)
}

/// The trains that come in by the sides before `n`, in the order of their
/// sides.
pub open spec fn arrivals_before(a: Option<Connection>, p: Option<Connection>, colors: Seq<Option<Color>>, n: int) -> Seq<Train>
    decreases n,
{
    if n <= 0 {
        Seq::empty()
    } else {
        arrivals_before(a, p, colors, n - 1) + arrival(a, p, colors, n - 1)
    }
}

/// Every train leaves by a side of the tile, and no two by the same side.
pub open spec fn ready_seq(ts: Seq<Train>) -> bool {
    &&& forall|i: int| 0 <= i < ts.len() ==> #[trigger] ts[i].destination < 4
    &&& forall|i: int, k: int| 0 <= i < ts.len() && 0 <= k < ts.len() && i != k
        ==> #[trigger] ts[i].destination != #[trigger] ts[k].destination
}

/// On a single track, or on a crossing of two straights, a tick with two
/// trains or more gives every train the mixed colour of all the trains on the
/// tile, each keeping its place, source and destination; the meeting is heard
/// and seen at the middle of the active connection.
pub proof fn law_single_or_crossing_tick_mixes_all(t: Tracktile)
    requires
        t.classifiable(),
        t.active_connection is Some,
        t.passive_connection is None || (t.active_connection->0.is_straight()
            && t.passive_connection->0.is_straight()),
        t.trains@.len() >= 2,
    ensures
        ({
            let ts = t.trains@;
            let m = mix_spec(ts.map_values(|tr: Train| tr.color));
            &&& t.tick_spec().0.len() == ts.len()
            &&& forall|i: int| 0 <= i < ts.len() ==> #[trigger] t.tick_spec().0[i] == Train {
                color: m,
                source: ts[i].source,
                destination: ts[i].destination,
            }
            &&& t.tick_spec().1 == seq![TileEvent::TrainSound(m), TileEvent::FireOnConnection(t.active_connection->0, m)]
        }),
{
    assert(mixes_all(t.spec_type()));
}

/// A train offered by a side where neither connection of the tile ends
/// crashes there.
pub proof fn law_train_on_bare_side_crashes(a: Option<Connection>, p: Option<Connection>, colors: Seq<Option<Color>>, d: int)
    requires
        0 <= d < 4,
        colors.len() == 4,
        colors[d] is Some,
        !(a matches Some(c) && (c.dir1 == d || c.dir2 == d)),
        !(p matches Some(c) && (c.dir1 == d || c.dir2 == d)),
    ensures
        crashes(a, p, colors, d),
        any_crash(a, p, colors),
{
    assert(crashes(a, p, colors, d));
}

/// When no train crashes, every offered train is taken, by its side and with
/// its colour.
pub proof fn law_every_offered_train_arrives(a: Option<Connection>, p: Option<Connection>, colors: Seq<Option<Color>>, d: int)
    requires
        0 <= d < 4,
        colors.len() == 4,
        colors[d] is Some,
    ensures
        exists|i: int| 0 <= i < arrivals(a, p, colors).len() && #[trigger] arrivals(a, p, colors)[i].source == d
            && arrivals(a, p, colors)[i].color == colors[d]->0,
{
    let s0 = arrival(a, p, colors, 0);
    let s1 = arrival(a, p, colors, 1);
    let s2 = arrival(a, p, colors, 2);
    let s3 = arrival(a, p, colors, 3);
    let all = arrivals(a, p, colors);
    assert(all == s0 + s1 + s2 + s3);
    let i = if d == 0 {
        0
    } else if d == 1 {
        s0.len() as int
    } else if d == 2 {
        (s0.len() + s1.len()) as int
    } else {
        (s0.len() + s1.len() + s2.len()) as int
    };
    if d == 0 {
        assert(all[i] == s0[0]);
    } else if d == 1 {
        assert(all[i] == s1[0]);
    } else if d == 2 {
        assert(all[i] == s2[0]);
    } else {
        assert(all[i] == s3[0]);
    }
    assert(0 <= i < all.len() && all[i].source == d && all[i].color == colors[d]->0);
}

/// The train `tr` came in by a side where a train of its colour was offered,
/// and heads for the other end of the active connection where that ends at
/// its side, else for the other end of the passive one.
pub open spec fn takes_offered_track(a: Option<Connection>, p: Option<Connection>, colors: Seq<Option<Color>>, tr: Train) -> bool {
    &&& tr.source < 4
    &&& colors[tr.source as int] == Some(tr.color)
    &&& (a is Some && a->0.dir1 == tr.source) ==> tr.destination == a->0.dir2
    &&& (a is Some && a->0.dir2 == tr.source && a->0.dir1 != tr.source) ==> tr.destination == a->0.dir1
    &&& (!(a is Some && (a->0.dir1 == tr.source || a->0.dir2 == tr.source)) && p is Some && p->0.dir1 == tr.source)
        ==> tr.destination == p->0.dir2
    &&& (!(a is Some && (a->0.dir1 == tr.source || a->0.dir2 == tr.source)) && p is Some && p->0.dir2 == tr.source
        && p->0.dir1 != tr.source) ==> tr.destination == p->0.dir1
}

proof fn lemma_arrivals_before_follow(a: Option<Connection>, p: Option<Connection>, colors: Seq<Option<Color>>, n: int)
    requires
        colors.len() == 4,
        0 <= n <= 4,
    ensures
        forall|i: int| 0 <= i < arrivals_before(a, p, colors, n).len() ==> takes_offered_track(a, p, colors,
            #[trigger] arrivals_before(a, p, colors, n)[i]) && arrivals_before(a, p, colors, n)[i].source < n,
        forall|i: int, k: int| 0 <= i < k < arrivals_before(a, p, colors, n).len()
            ==> #[trigger] arrivals_before(a, p, colors, n)[i].source < #[trigger] arrivals_before(a, p, colors, n)[k].source,
    decreases n,
{
    if n > 0 {
        lemma_arrivals_before_follow(a, p, colors, n - 1);
        let pre = arrivals_before(a, p, colors, n - 1);
        let one = arrival(a, p, colors, n - 1);
        let all = arrivals_before(a, p, colors, n);
        assert(all == pre + one);
        assert forall|i: int| 0 <= i < all.len() implies takes_offered_track(a, p, colors, #[trigger] all[i])
            && all[i].source < n by {
            if i < pre.len() {
                assert(all[i] == pre[i]);
            } else {
                assert(all[i] == one[i - pre.len()]);
            }
        }
        assert forall|i: int, k: int| 0 <= i < k < all.len() implies #[trigger] all[i].source < #[trigger] all[k].source by {
            if k < pre.len() {
                assert(all[i] == pre[i]);
                assert(all[k] == pre[k]);
            } else {
                assert(all[i] == pre[i]);
                assert(all[k] == one[k - pre.len()]);
            }
        }
    }
}

/// The trains that a tile takes come in by sides where trains were offered,
/// in the order of the sides, each with the colour offered there, and each
/// heads for the other end of the connection that ends at its side (the
/// active one first).
pub proof fn law_accepted_trains_follow_track(a: Option<Connection>, p: Option<Connection>, colors: Seq<Option<Color>>)
    requires
        colors.len() == 4,
    ensures
        forall|i: int| 0 <= i < arrivals(a, p, colors).len() ==> takes_offered_track(a, p, colors,
            #[trigger] arrivals(a, p, colors)[i]),
        forall|i: int, k: int| 0 <= i < k < arrivals(a, p, colors).len()
            ==> #[trigger] arrivals(a, p, colors)[i].source < #[trigger] arrivals(a, p, colors)[k].source,
{
    lemma_arrivals_before_follow(a, p, colors, 4);
    assert(arrivals_before(a, p, colors, 4) == arrivals(a, p, colors)) by {
        reveal_with_fuel(arrivals_before, 5);
    }
}

/// Where the two connections of a tile meet at a side (an M or a J track), an
/// odd number of trains switches the track: the interaction reports a switch.
/// Where the tile has fewer than two connections, or they do not meet, it
/// never switches.
pub proof fn law_odd_count_switches_meeting_tracks(t: Tracktile)
    requires
        t.classifiable(),
    ensures
        (t.active_connection is Some && t.passive_connection is Some && (t.active_connection->0.has(
            t.passive_connection->0.dir1,
        ) || t.active_connection->0.has(t.passive_connection->0.dir2)) && t.trains@.len() % 2 == 1)
            ==> t.interact_spec().2 && t.interact_spec().1.last() == TileEvent::SwitchTrack,
        !(t.active_connection is Some && t.passive_connection is Some && (t.active_connection->0.has(
            t.passive_connection->0.dir1,
        ) || t.active_connection->0.has(t.passive_connection->0.dir2))) ==> !t.interact_spec().2,
{
}

/// A tile on which the player lays track, and the trains on it.
#[derive(Clone, Debug)]
pub struct Tracktile {
    pub active_connection: Option<Connection>,
    pub passive_connection: Option<Connection>,
    pub trains: Vec<Train>,
}

impl Tracktile {
    /// Each connection joins two different sides of the tile, and two
    /// connections differ.
    pub open spec fn wf(self) -> bool {
        &&& (self.active_connection matches Some(a) ==> a.wf())
        &&& (self.passive_connection matches Some(p) ==> p.wf())
        &&& match (self.active_connection, self.passive_connection) {
            (Some(a), Some(p)) => !a.same(p),
            _ => true,
        }
    }

    /// Where the tile has two connections, each joins two different sides
    /// and they differ: then its track has a shape.
    pub open spec fn classifiable(self) -> bool {
        match (self.active_connection, self.passive_connection) {
            (Some(a), Some(p)) => a.wf() && p.wf() && !a.same(p),
            _ => true,
        }
    }

    /// A connection of the tile ends at side `dir`.
    pub open spec fn spec_has_any_connection(self, dir: u8) -> bool {
        (self.active_connection matches Some(a) && a.has(dir)) || (
        self.passive_connection matches Some(p) && p.has(dir))
    }

    /// The shape of the tile's track.
    pub open spec fn spec_type(self) -> ConnectionType {
        type_of(self.active_connection, self.passive_connection)
    }

    /// A tile with the given connections and no trains.
    pub fn new(active_connection: Option<Connection>, passive_connection: Option<Connection>) -> (t: Tracktile)
        ensures
            t.active_connection == active_connection,
            t.passive_connection == passive_connection,
            t.trains@.len() == 0,
    {
        Tracktile { active_connection, passive_connection, trains: Vec::new() }
    }

    /// Whether the tile is well formed (see `wf`).
    pub fn is_well_formed(&self) -> (b: bool)
        ensures
            b == self.wf(),
    {
        let active_ok = match self.active_connection {
            Some(a) => a.is_well_formed(),
            None => true,
        };
        let passive_ok = match self.passive_connection {
            Some(p) => p.is_well_formed(),
            None => true,
        };
        let distinct = match (self.active_connection, self.passive_connection) {
            (Some(a), Some(p)) => !(a == p),
            _ => true,
        };
        active_ok && passive_ok && distinct
    }

    /// Whether the track of the tile has a shape (see `classifiable`).
    pub fn is_classifiable(&self) -> (b: bool)
        ensures
            b == self.classifiable(),
    {
        match (self.active_connection, self.passive_connection) {
            (Some(a), Some(p)) => a.is_well_formed() && p.is_well_formed() && !(a == p),
            _ => true,
        }
    }

    fn has_any_connection(&self, dir: u8) -> (b: bool)
        ensures
            b == self.spec_has_any_connection(dir),
    {
        if let Some(connection) = self.active_connection {
            if connection.contains(dir) {
                return true;
            }
        }
        if let Some(connection) = self.passive_connection {
            if connection.contains(dir) {
                return true;
            }
        }
        false
    }

    fn has_connections(&self, c1: Connection, c2: Connection) -> (b: bool)
        ensures
            b == (self.active_connection matches Some(a) && self.passive_connection matches Some(p)
                && ((a.same(c1) && p.same(c2)) || (a.same(c2) && p.same(c1)))),
    {
        if let Some(my_c1) = self.active_connection {
            if let Some(my_c2) = self.passive_connection {
                return (my_c1 == c1 && my_c2 == c2) || (my_c1 == c2 && my_c2 == c1);
            }
        }
        false
    }

    fn rot_match(mine: Connection, c: Connection) -> (r: i8)
        ensures
            r == first_rot(mine, c),
    {
        let mut rot_amt: u8 = 0;
        while rot_amt < 4
            invariant
                0 <= rot_amt <= 4,
                forall|k: u8| k < rot_amt ==> !mine.same(#[trigger] c.rotated(k)),
            decreases 4 - rot_amt,
        {
            if c.rot(rot_amt) == mine {
                return rot_amt as i8;
            }
            rot_amt = rot_amt + 1;
        }
        -1i8
    }

    /// The number of quarter turns that turns `c` into the active connection,
    /// or else into the passive one; -1 where neither can be reached.
    pub fn has_connection_up_to_rot(&self, c: Connection) -> (r: i8)
        ensures
            r == match self.active_connection {
                Some(a) if first_rot(a, c) != -1 => first_rot(a, c),
                _ => match self.passive_connection {
                    Some(p) => first_rot(p, c),
                    None => -1i8,
                },
            },
    {
        if let Some(my_c) = self.active_connection {
            let r = Self::rot_match(my_c, c);
            if r != -1 {
                return r;
            }
        }
        if let Some(my_c) = self.passive_connection {
            return Self::rot_match(my_c, c);
        }
        -1i8
    }

    /// The number of quarter turns that turns `c` into the active connection;
    /// -1 where none does or there is no active connection.
    pub fn has_active_connection_up_to_rot(&self, c: Connection) -> (r: i8)
        ensures
            r == match self.active_connection {
                Some(a) => first_rot(a, c),
                None => -1i8,
            },
    {
        if let Some(my_c) = self.active_connection {
            return Self::rot_match(my_c, c);
        }
        -1i8
    }

    /// The number of quarter turns that turns the pair `c1`, `c2` into the
    /// tile's active and passive connections, in either order; -1 where none
    /// does or the tile lacks one of them.
    pub fn has_connections_up_to_rot(&self, c1: Connection, c2: Connection) -> (r: i8)
        ensures
            r == match (self.active_connection, self.passive_connection) {
                (Some(a), Some(p)) => first_pair_rot(a, p, c1, c2),
                _ => -1i8,
            },
    {
        if let Some(my_c1) = self.active_connection {
            if let Some(my_c2) = self.passive_connection {
                let mut rot_amt: u8 = 0;
                while rot_amt < 4
                    invariant
                        0 <= rot_amt <= 4,
                        self.active_connection == Some(my_c1),
                        self.passive_connection == Some(my_c2),
                        forall|k: u8| k < rot_amt ==> !#[trigger] pair_matches(my_c1, my_c2, c1, c2, k),
                    decreases 4 - rot_amt,
                {
                    let rot_c1 = c1.rot(rot_amt);
                    let rot_c2 = c2.rot(rot_amt);
                    if (my_c1 == rot_c1 && my_c2 == rot_c2) || (my_c1 == rot_c2 && my_c2 == rot_c1) {
                        proof {
                            lemma_first_pair_rot(my_c1, my_c2, c1, c2, rot_amt);
                        }
                        return rot_amt as i8;
                    }
                    rot_amt = rot_amt + 1;
                }
                return -1;
            }
        }
        -1i8
    }

    /// The number of quarter turns that turns `active` into the tile's active
    /// connection and `passive` into its passive one; -1 where none does or
    /// the tile lacks one of them.
    pub fn has_active_passive_connections_up_to_rot(&self, active: Connection, passive: Connection) -> (r: i8)
        ensures
            r == match (self.active_connection, self.passive_connection) {
                (Some(a), Some(p)) => first_ordered_pair_rot(a, p, active, passive),
                _ => -1i8,
            },
    {
        if let Some(my_active) = self.active_connection {
            if let Some(my_passive) = self.passive_connection {
                let mut rot_amt: u8 = 0;
                while rot_amt < 4
                    invariant
                        0 <= rot_amt <= 4,
                        self.active_connection == Some(my_active),
                        self.passive_connection == Some(my_passive),
                        forall|k: u8| k < rot_amt ==> !#[trigger] ordered_pair_matches(my_active, my_passive, active, passive, k),
                    decreases 4 - rot_amt,
                {
                    let rot_active = active.rot(rot_amt);
                    let rot_passive = passive.rot(rot_amt);
                    if my_active == rot_active && my_passive == rot_passive {
                        proof {
                            lemma_first_ordered_pair_rot(my_active, my_passive, active, passive, rot_amt);
                        }
                        return rot_amt as i8;
                    }
                    rot_amt = rot_amt + 1;
                }
                return -1;
            }
        }
        -1i8
    }

    /// The shape of the tile's track.
    pub fn connection_type(&self) -> (t: ConnectionType)
        requires
            self.classifiable(),
        ensures
            t == self.spec_type(),
    {
        if self.active_connection.is_none() {
            return ConnectionType::Blank;
        }
        if self.passive_connection.is_none() {
            if self.has_connection_up_to_rot(Connection { dir1: 0, dir2: 2 }) != -1 {
                return ConnectionType::S;
            }
            return ConnectionType::B;
        }
        let ghost a = self.active_connection->0;
        let ghost p = self.passive_connection->0;
        proof {
            lemma_pair_shapes(a, p);
        }
        if self.has_connections(Connection { dir1: 0, dir2: 2 }, Connection { dir1: 1, dir2: 3 }) {
            return ConnectionType::H;
        }
        if self.has_connections_up_to_rot(
            Connection { dir1: 0, dir2: 1 },
            Connection { dir1: 2, dir2: 3 },
        ) != -1 {
            return ConnectionType::Z;
        }
        if self.has_connections_up_to_rot(
            Connection { dir1: 0, dir2: 1 },
            Connection { dir1: 1, dir2: 2 },
        ) != -1 {
            return ConnectionType::M;
        }
        if self.has_connections_up_to_rot(
            Connection { dir1: 0, dir2: 1 },
            Connection { dir1: 0, dir2: 2 },
        ) != -1 || self.has_connections_up_to_rot(
            Connection { dir1: 0, dir2: 3 },
            Connection { dir1: 0, dir2: 2 },
        ) != -1 {
            return ConnectionType::J;
        }
        proof {
            assert(false);
        }
        ConnectionType::Blank
    }

    /// Swaps the active and the passive connection where the track is of
    /// type M or J; other tracks stay as they are. Says whether it swapped.
    pub fn switch_active_passive(&mut self) -> (switched: bool)
        requires
            old(self).classifiable(),
        ensures
            switched == switches(old(self).spec_type()),
            switched ==> final(self).active_connection == old(self).passive_connection
                && final(self).passive_connection == old(self).active_connection,
            !switched ==> final(self).active_connection == old(self).active_connection
                && final(self).passive_connection == old(self).passive_connection,
            final(self).trains@ == old(self).trains@,
            final(self).classifiable(),
            old(self).wf() ==> final(self).wf(),
    {
        let c = self.connection_type();
        if c == ConnectionType::M || c == ConnectionType::J {
            let temp = self.passive_connection;
            self.passive_connection = self.active_connection;
            self.active_connection = temp;
            true
        } else {
            false
        }
    }

    /// Lays a new connection: it becomes the active one, and the former
    /// active one becomes the passive one, unless it is the same connection,
    /// in which case the tile keeps it alone.
    pub fn add_connection(&mut self, conn: Connection)
        ensures
            final(self).active_connection == Some(conn),
            final(self).passive_connection == (match old(self).active_connection {
                Some(a) => if a.same(conn) {
                    None
                } else {
                    Some(a)
                },
                None => None,
            }),
            final(self).trains@ == old(self).trains@,
            old(self).wf() && conn.wf() ==> final(self).wf(),
    {
        self.passive_connection = self.active_connection;
        self.active_connection = Some(conn);
        if self.active_connection == self.passive_connection {
            self.passive_connection = None;
        }
    }

    /// Removes every train from the tile.
    pub fn clear_trains(&mut self)
        ensures
            final(self).trains@.len() == 0,
            final(self).active_connection == old(self).active_connection,
            final(self).passive_connection == old(self).passive_connection,
    {
        self.trains = Vec::new();
    }

    /// Removes the track from the tile.
    pub fn clear_connections(&mut self)
        ensures
            final(self).active_connection is None,
            final(self).passive_connection is None,
            final(self).trains@ == old(self).trains@,
            final(self).wf(),
    {
        self.active_connection = None;
        self.passive_connection = None;
    }

    /// Finds a train running along `c` from its first side to its second and
    /// one running the other way; on success `i1` and `i2` are the first of
    /// each.
    fn indices_of_trains_along(&self, c: Connection, i1: &mut usize, i2: &mut usize) -> (found: bool)
        ensures
            found == (some_going(self.trains@, c.dir1, c.dir2) && some_going(self.trains@, c.dir2, c.dir1)),
            found ==> is_first_going(self.trains@, *final(i1) as int, c.dir1, c.dir2)
                && is_first_going(self.trains@, *final(i2) as int, c.dir2, c.dir1),
            !found ==> *final(i1) == *old(i1) && *final(i2) == *old(i2),
    {
        let n = self.trains.len();
        let mut index1: usize = 0;
        while index1 < n
            invariant
                n == self.trains@.len(),
                0 <= index1 <= n,
                *i1 == *old(i1),
                *i2 == *old(i2),
                forall|m: int| 0 <= m < index1 ==> !(goes(#[trigger] self.trains@[m], c.dir1, c.dir2)
                    && some_going(self.trains@, c.dir2, c.dir1)),
            decreases n - index1,
        {
            let mut index2: usize = 0;
            while index2 < n
                invariant
                    n == self.trains@.len(),
                    0 <= index1 < n,
                    0 <= index2 <= n,
                    *i1 == *old(i1),
                    *i2 == *old(i2),
                    forall|m: int| 0 <= m < index1 ==> !(goes(#[trigger] self.trains@[m], c.dir1, c.dir2)
                        && some_going(self.trains@, c.dir2, c.dir1)),
                    forall|k: int| 0 <= k < index2 ==> !(goes(self.trains@[index1 as int], c.dir1, c.dir2)
                        && goes(#[trigger] self.trains@[k], c.dir2, c.dir1)),
                decreases n - index2,
            {
                if self.trains[index1].source == c.dir1 && self.trains[index1].destination == c.dir2
                    && self.trains[index2].source == c.dir2 && self.trains[index2].destination == c.dir1 {
                    *i1 = index1;
                    *i2 = index2;
                    proof {
                        assert(some_going(self.trains@, c.dir2, c.dir1)) by {
                            assert(goes(self.trains@[index2 as int], c.dir2, c.dir1));
                        }
                        assert(some_going(self.trains@, c.dir1, c.dir2)) by {
                            assert(goes(self.trains@[index1 as int], c.dir1, c.dir2));
                        }
                    }
                    return true;
                }
                index2 = index2 + 1;
            }
            index1 = index1 + 1;
        }
        proof {
            if some_going(self.trains@, c.dir1, c.dir2) && some_going(self.trains@, c.dir2, c.dir1) {
                let j = choose|j: int| 0 <= j < self.trains@.len() && goes(#[trigger] self.trains@[j], c.dir1, c.dir2);
                assert(!(goes(self.trains@[j], c.dir1, c.dir2) && some_going(self.trains@, c.dir2, c.dir1)));
            }
        }
        false
    }

    /// Every train leaves by a side of the tile, and no two by the same side.
    pub open spec fn ready_to_dispatch(self) -> bool {
        ready_seq(self.trains@)
    }

    /// Sends every train out by its side: the result holds, on each side, the
    /// colour of the train that leaves by it. The tile is left without trains.
    pub fn dispatch_trains(&mut self) -> (res: BorderState)
        requires
            old(self).ready_to_dispatch(),
        ensures
            forall|i: int| 0 <= i < old(self).trains@.len() ==> res@[#[trigger] old(self).trains@[i].destination as int]
                == Some(old(self).trains@[i].color),
            forall|d: int| 0 <= d < 4 && (#[trigger] res@[d]) is Some ==> exists|i: int|
                0 <= i < old(self).trains@.len() && old(self).trains@[i].destination == d,
            final(self).trains@.len() == 0,
            final(self).active_connection == old(self).active_connection,
            final(self).passive_connection == old(self).passive_connection,
    {
        let ghost ts = self.trains@;
        let mut res: BorderState = [None, None, None, None];
        while self.trains.len() > 0
            invariant
                self.trains@.len() <= ts.len(),
                self.trains@ == ts.subrange(0, self.trains@.len() as int),
                self.active_connection == old(self).active_connection,
                self.passive_connection == old(self).passive_connection,
                ts == old(self).trains@,
                old(self).ready_to_dispatch(),
                res@.len() == 4,
                forall|i: int| self.trains@.len() <= i < ts.len() ==> res@[#[trigger] ts[i].destination as int]
                    == Some(ts[i].color),
                forall|d: int| 0 <= d < 4 && (#[trigger] res@[d]) is Some ==> exists|i: int|
                    self.trains@.len() <= i < ts.len() && ts[i].destination == d,
            decreases self.trains@.len(),
        {
            let ghost n = self.trains@.len() as int;
            assert(self.trains@[n - 1] == ts[n - 1]);
            let train = self.trains.pop().unwrap();
            let dest = train.destination;
            assert(ts[n - 1] == train);
            assert(dest < 4);
            if res[dest as usize].is_some() {
                proof {
                    let i = choose|i: int| n <= i < ts.len() && ts[i].destination == dest;
                    assert(ts[i].destination != ts[n - 1].destination);
                }
            }
            res[dest as usize] = Some(train.color);
            proof {
                assert forall|i: int| n - 1 <= i < ts.len() implies res@[#[trigger] ts[i].destination as int]
                    == Some(ts[i].color) by {
                    if i != n - 1 {
                        assert(ts[i].destination != ts[n - 1].destination);
                    }
                }
                assert forall|d: int| 0 <= d < 4 && (#[trigger] res@[d]) is Some implies exists|i: int|
                    n - 1 <= i < ts.len() && ts[i].destination == d by {
                    if d != dest {
                    } else {
                        assert(ts[n - 1].destination == d);
                    }
                }
                assert(self.trains@ == ts.subrange(0, self.trains@.len() as int));
            }
        }
        res
    }

    /// What a tick does to the trains, and what it shows: once there are two
    /// trains or more, on a single track or a crossing all trains take their
    /// mixed colour, seen at the middle of the active connection; on a Z
    /// track trains meet head-on along the active and then along the passive
    /// connection; on an M or J track along the active connection only.
    pub open spec fn tick_spec(self) -> (Seq<Train>, Seq<TileEvent>) {
        let ts = self.trains@;
        let t = self.spec_type();
        if ts.len() < 2 {
            (ts, Seq::empty())
        } else if mixes_all(t) {
            let m = mix_spec(colors_of(ts));
            (
                ts.map_values(|tr: Train| recolored(tr, m)),
                seq![TileEvent::TrainSound(m), TileEvent::FireOnConnection(self.active_connection->0, m)],
            )
        } else if t == ConnectionType::Z {
            let first = meet_along(ts, self.active_connection->0);
            let second = meet_along(first.0, self.passive_connection->0);
            (second.0, first.1 + second.1)
        } else if switches(t) {
            meet_along(ts, self.active_connection->0)
        } else {
            (ts, Seq::empty())
        }
    }

    /// What the trains do as they leave the tile: on tracks other than a
    /// single track, a crossing or a Z, two trains that leave by the same
    /// side merge; then, after an odd number of trains, an M or J track
    /// switches. The last component says whether it switched.
    pub open spec fn interact_spec(self) -> (Seq<Train>, Seq<TileEvent>, bool) {
        let ts = self.trains@;
        let t = self.spec_type();
        let merged = if ts.len() >= 2 && !mixes_all(t) && t != ConnectionType::Z {
            merge_spec(ts)
        } else {
            (ts, Seq::empty())
        };
        let switched = ts.len() % 2 == 1 && switches(t);
        (merged.0, if switched {
            merged.1.push(TileEvent::SwitchTrack)
        } else {
            merged.1
        }, switched)
    }

    /// Takes the trains offered on the four sides. If a train comes in by a
    /// side where no connection ends, it crashes: the tile takes no train and
    /// the result holds the colours of the crashed trains on their sides.
    /// Otherwise each train is added, in the order of the sides, heading for
    /// the other end of its connection (the active one where it ends there),
    /// and the result is empty.
    pub fn accept_trains(&mut self, colors: BorderState) -> (res: BorderState)
        ensures
            final(self).active_connection == old(self).active_connection,
            final(self).passive_connection == old(self).passive_connection,
            any_crash(old(self).active_connection, old(self).passive_connection, colors@) ==> {
                &&& forall|d: int| 0 <= d < 4 ==> #[trigger] res@[d] == if crashes(
                    old(self).active_connection,
                    old(self).passive_connection,
                    colors@,
                    d,
                ) {
                    colors@[d]
                } else {
                    None
                }
                &&& final(self).trains@ == old(self).trains@
            },
            !any_crash(old(self).active_connection, old(self).passive_connection, colors@) ==> {
                &&& forall|d: int| 0 <= d < 4 ==> #[trigger] res@[d] is None
                &&& final(self).trains@ == old(self).trains@ + arrivals(
                    old(self).active_connection,
                    old(self).passive_connection,
                    colors@,
                )
            },
            forall|d: int| 0 <= d < 4 && colors@[d] is Some && !(old(self).active_connection matches Some(c) && (
            c.dir1 == d || c.dir2 == d)) && !(old(self).passive_connection matches Some(c) && (c.dir1 == d
                || c.dir2 == d)) ==> #[trigger] res@[d] == colors@[d] && final(self).trains@ == old(self).trains@,
            (forall|d: int| 0 <= d < 4 ==> (#[trigger] res@[d]) is None) ==> forall|d: int| 0 <= d < 4
                && (#[trigger] colors@[d]) is Some ==> exists|i: int| old(self).trains@.len() <= i < final(self).trains@.len()
                && final(self).trains@[i].source == d && final(self).trains@[i].color == colors@[d]->0,
            (forall|d: int| 0 <= d < 4 ==> (#[trigger] res@[d]) is None) ==> {
                &&& final(self).trains@.subrange(0, old(self).trains@.len() as int) == old(self).trains@
                &&& forall|i: int| old(self).trains@.len() <= i < final(self).trains@.len() ==> takes_offered_track(
                    old(self).active_connection,
                    old(self).passive_connection,
                    colors@,
                    #[trigger] final(self).trains@[i],
                )
                &&& forall|i: int, k: int| old(self).trains@.len() <= i < k < final(self).trains@.len()
                    ==> #[trigger] final(self).trains@[i].source < #[trigger] final(self).trains@[k].source
            },
    {
let ghost a = self.active_connection;
        let ghost p = self.passive_connection;
        proof {
            assert forall|d: int| 0 <= d < 4 && colors@[d] is Some && !(a matches Some(c) && (
            c.dir1 == d || c.dir2 == d)) && !(p matches Some(c) && (c.dir1 == d
                || c.dir2 == d)) implies crashes(a, p, colors@, d)
                && any_crash(a, p, colors@) by {
                law_train_on_bare_side_crashes(a, p, colors@, d);
            }
        }
        let mut crashed = false;
        let mut border_state: BorderState = [None, None, None, None];
        let mut dir: usize = 0;
        while dir < 4
            invariant
                0 <= dir <= 4,
                a == self.active_connection,
                p == self.passive_connection,
                border_state@.len() == 4,
                colors@.len() == 4,
                crashed <==> exists|d: int| 0 <= d < dir && #[trigger] crashes(a, p, colors@, d),
                forall|d: int| 0 <= d < dir ==> #[trigger] border_state@[d] == if crashes(a, p, colors@, d) {
                    colors@[d]
                } else {
                    None
                },
                forall|d: int| dir <= d < 4 ==> #[trigger] border_state@[d] is None,
            decreases 4 - dir,
        {
            let ghost crash_here = crashes(a, p, colors@, dir as int);
            if let Some(color) = colors[dir] {
                if !self.has_any_connection(dir as u8) {
                    crashed = true;
                    border_state[dir] = Some(color);
                }
            }
            dir = dir + 1;
        }
        if crashed {
            proof {
                let d = choose|d: int| 0 <= d < 4 && #[trigger] crashes(a, p, colors@, d);
                assert(border_state@[d] is Some);
            }
            return border_state;
        }
        let ghost old_trains = self.trains@;
        let mut dir: usize = 0;
        while dir < 4
            invariant
                0 <= dir <= 4,
                a == self.active_connection,
                p == self.passive_connection,
                colors@.len() == 4,
                !any_crash(a, p, colors@),
                self.trains@ == old_trains + arrivals_before(a, p, colors@, dir as int),
            decreases 4 - dir,
        {
            let d = dir as u8;
            assert(!crashes(a, p, colors@, dir as int));
            if let Some(color) = colors[dir] {
                let mut pushed = false;
                if let Some(active_conn) = self.active_connection {
                    if active_conn.contains(d) {
                        let other_dir = if active_conn.dir1 == d {
                            active_conn.dir2
                        } else {
                            active_conn.dir1
                        };
                        self.trains.push(Train { color, source: d, destination: other_dir });
                        pushed = true;
                    }
                }
                if !pushed {
                    if let Some(passive_conn) = self.passive_connection {
                        if passive_conn.contains(d) {
                            let other_dir = if passive_conn.dir1 == d {
                                passive_conn.dir2
                            } else {
                                passive_conn.dir1
                            };
                            self.trains.push(Train { color, source: d, destination: other_dir });
                        }
                    }
                }
            }
            assert(self.trains@ == old_trains + arrivals_before(a, p, colors@, dir as int + 1));
            dir = dir + 1;
        }
        assert(arrivals_before(a, p, colors@, 4) == arrivals(a, p, colors@)) by {
            reveal_with_fuel(arrivals_before, 5);
        }
        proof {
            assert forall|d: int| 0 <= d < 4 && colors@[d] is Some && !(a matches Some(c) && (
            c.dir1 == d || c.dir2 == d)) && !(p matches Some(c) && (c.dir1 == d
                || c.dir2 == d)) implies false by {
                law_train_on_bare_side_crashes(a, p, colors@, d);
            }
            let arr = arrivals(a, p, colors@);
            assert(self.trains@ == old_trains + arr);
            law_accepted_trains_follow_track(a, p, colors@);
            assert(self.trains@.subrange(0, old_trains.len() as int) =~= old_trains);
            assert forall|i: int| old_trains.len() <= i < self.trains@.len() implies takes_offered_track(a, p, colors@,
                #[trigger] self.trains@[i]) by {
                assert(self.trains@[i] == arr[i - old_trains.len()]);
            }
            assert forall|i: int, k: int| old_trains.len() <= i < k < self.trains@.len() implies #[trigger] self.trains@[i].source
                < #[trigger] self.trains@[k].source by {
                assert(self.trains@[i] == arr[i - old_trains.len()]);
                assert(self.trains@[k] == arr[k - old_trains.len()]);
            }
            assert forall|d: int| 0 <= d < 4 && (#[trigger] colors@[d]) is Some implies exists|i: int| old_trains.len() <= i
                < self.trains@.len() && self.trains@[i].source == d && self.trains@[i].color == colors@[d]->0 by {
                law_every_offered_train_arrives(a, p, colors@, d);
                let j = choose|j: int| 0 <= j < arr.len() && #[trigger] arr[j].source == d && arr[j].color == colors@[d]->0;
                assert(self.trains@[old_trains.len() + j] == arr[j]);
            }
        }
        [None, None, None, None]
    }

    /// Gives trains `i1` and `i2` their mixed colour and records the meeting
    /// halfway along `c`.
    fn meet(&mut self, i1: usize, i2: usize, c: Connection, events: &mut Vec<TileEvent>)
        requires
            i1 < old(self).trains@.len(),
            i2 < old(self).trains@.len(),
        ensures
            ({
                let ts = old(self).trains@;
                let m = mix_spec(seq![ts[i1 as int].color, ts[i2 as int].color]);
                &&& final(self).trains@ == ts.update(i1 as int, recolored(ts[i1 as int], m)).update(
                    i2 as int,
                    recolored(ts[i2 as int], m),
                )
                &&& final(events)@ == old(events)@ + seq![TileEvent::TrainSound(m), TileEvent::FireOnConnection(c, m)]
            }),
            final(self).active_connection == old(self).active_connection,
            final(self).passive_connection == old(self).passive_connection,
    {
        let ghost ts = self.trains@;
        let colors = vec![self.trains[i1].color, self.trains[i2].color];
        assert(colors@ == seq![ts[i1 as int].color, ts[i2 as int].color]);
        let new_color = Color::mix_many(colors);
        let mut t1 = self.trains[i1];
        t1.color = new_color;
        self.trains.set(i1, t1);
        let mut t2 = self.trains[i2];
        t2.color = new_color;
        self.trains.set(i2, t2);
        events.push(TileEvent::TrainSound(new_color));
        events.push(TileEvent::FireOnConnection(c, new_color));
        assert(self.trains@ == ts.update(i1 as int, recolored(ts[i1 as int], new_color)).update(
            i2 as int,
            recolored(ts[i2 as int], new_color),
        ));
    }

    /// Lets the trains that run head-on along `c` meet.
    fn meet_along_connection(&mut self, c: Connection, events: &mut Vec<TileEvent>)
        ensures
            final(self).trains@ == meet_along(old(self).trains@, c).0,
            final(events)@ == old(events)@ + meet_along(old(self).trains@, c).1,
            final(self).active_connection == old(self).active_connection,
            final(self).passive_connection == old(self).passive_connection,
    {
        let ghost ts = self.trains@;
        let mut i1: usize = 0;
        let mut i2: usize = 0;
        if self.indices_of_trains_along(c, &mut i1, &mut i2) {
            proof {
                let j = choose|j: int| is_first_going(ts, j, c.dir1, c.dir2);
                let k = choose|k: int| is_first_going(ts, k, c.dir2, c.dir1);
                assert(is_first_going(ts, j, c.dir1, c.dir2));
                if j < i1 {
                    assert(!goes(ts[j], c.dir1, c.dir2));
                } else if j > i1 {
                    assert(!goes(ts[i1 as int], c.dir1, c.dir2));
                }
                if k < i2 {
                    assert(!goes(ts[k], c.dir2, c.dir1));
                } else if k > i2 {
                    assert(!goes(ts[i2 as int], c.dir2, c.dir1));
                }
            }
            self.meet(i1, i2, c, events);
        } else {
            assert(events@ == events@ + Seq::<TileEvent>::empty());
        }
    }

    /// Mixes the colours of trains that meet halfway through the tile, and
    /// returns what should be heard and seen of it (see `tick_spec`).
    pub fn process_tick(&mut self) -> (events: Vec<TileEvent>)
        requires
            old(self).classifiable(),
        ensures
            final(self).trains@ == old(self).tick_spec().0,
            events@ == old(self).tick_spec().1,
            final(self).active_connection == old(self).active_connection,
            final(self).passive_connection == old(self).passive_connection,
            (old(self).active_connection is Some && (old(self).passive_connection is None || (
            old(self).active_connection->0.is_straight() && old(self).passive_connection->0.is_straight()))
                && old(self).trains@.len() >= 2) ==> {
                let ts = old(self).trains@;
                let m = mix_spec(ts.map_values(|tr: Train| tr.color));
                &&& final(self).trains@.len() == ts.len()
                &&& forall|i: int| 0 <= i < ts.len() ==> #[trigger] final(self).trains@[i] == Train {
                    color: m,
                    source: ts[i].source,
                    destination: ts[i].destination,
                }
                &&& events@ == seq![TileEvent::TrainSound(m), TileEvent::FireOnConnection(old(self).active_connection->0, m)]
            },
            (old(self).active_connection is Some && old(self).passive_connection is Some && !(
            old(self).active_connection->0.is_straight() && old(self).passive_connection->0.is_straight())
                && old(self).trains@.len() >= 2) ==> head_on_outcome(
                old(self).trains@,
                old(self).active_connection->0,
                old(self).passive_connection->0,
                !(old(self).active_connection->0.has(old(self).passive_connection->0.dir1)
                    || old(self).active_connection->0.has(old(self).passive_connection->0.dir2)),
                final(self).trains@,
                events@,
            ),
    {
        proof {
            if self.active_connection is Some && self.passive_connection is Some && !(
            self.active_connection->0.is_straight() && self.passive_connection->0.is_straight())
                && self.trains@.len() >= 2 {
                law_head_on_trains_meet(*self);
            }
            if self.active_connection is Some && (self.passive_connection is None || (
            self.active_connection->0.is_straight() && self.passive_connection->0.is_straight()))
                && self.trains@.len() >= 2 {
                law_single_or_crossing_tick_mixes_all(*self);
            }
        }
        let my_type = self.connection_type();
        let mut events: Vec<TileEvent> = Vec::new();
        let ghost ts = self.trains@;
        if self.trains.len() >= 2 {
            if my_type == ConnectionType::H || my_type == ConnectionType::S || my_type == ConnectionType::B {
                let n = self.trains.len();
                let mut colors: Vec<Color> = Vec::new();
                let mut i: usize = 0;
                while i < n
                    invariant
                        n == self.trains@.len(),
                        self.trains@ == ts,
                        0 <= i <= n,
                        colors@ == colors_of(ts).subrange(0, i as int),
                    decreases n - i,
                {
                    colors.push(self.trains[i].color);
                    i = i + 1;
                    assert(colors@ == colors_of(ts).subrange(0, i as int));
                }
                assert(colors@ == colors_of(ts));
                let new_color = Color::mix_many(colors);
                let mut i: usize = 0;
                while i < n
                    invariant
                        n == self.trains@.len(),
                        n == ts.len(),
                        0 <= i <= n,
                        self.active_connection == old(self).active_connection,
                        self.passive_connection == old(self).passive_connection,
                        forall|k: int| 0 <= k < i ==> #[trigger] self.trains@[k] == recolored(ts[k], new_color),
                        forall|k: int| i <= k < n ==> #[trigger] self.trains@[k] == ts[k],
                    decreases n - i,
                {
                    let mut t = self.trains[i];
                    t.color = new_color;
                    self.trains.set(i, t);
                    i = i + 1;
                }
                assert(self.trains@ == ts.map_values(|tr: Train| recolored(tr, new_color)));
                events.push(TileEvent::TrainSound(new_color));
                events.push(TileEvent::FireOnConnection(self.active_connection.unwrap(), new_color));
                return events;
            }
            if my_type == ConnectionType::Z {
                self.meet_along_connection(self.active_connection.unwrap(), &mut events);
                self.meet_along_connection(self.passive_connection.unwrap(), &mut events);
                return events;
            }
            if my_type == ConnectionType::J || my_type == ConnectionType::M {
                self.meet_along_connection(self.active_connection.unwrap(), &mut events);
            }
        }
        events
    }

    /// The first pair, in the order of the first and then of the second
    /// index, of different trains that leave by the same side.
    fn find_merge_pair(&self) -> (r: Option<(usize, usize)>)
        ensures
            r is Some <==> some_merge(self.trains@),
            r matches Some((i, k)) ==> is_first_merge(self.trains@, i as int, k as int),
    {
        let n = self.trains.len();
        let mut i1: usize = 0;
        while i1 < n
            invariant
                n == self.trains@.len(),
                0 <= i1 <= n,
                forall|i: int, k: int| 0 <= i < i1 ==> !#[trigger] same_way_out(self.trains@, i, k),
            decreases n - i1,
        {
            let mut i2: usize = 0;
            while i2 < n
                invariant
                    n == self.trains@.len(),
                    0 <= i1 < n,
                    0 <= i2 <= n,
                    forall|i: int, k: int| 0 <= i < i1 ==> !#[trigger] same_way_out(self.trains@, i, k),
                    forall|k: int| 0 <= k < i2 ==> !#[trigger] same_way_out(self.trains@, i1 as int, k),
                decreases n - i2,
            {
                if i1 != i2 && self.trains[i1].destination == self.trains[i2].destination {
                    assert(same_way_out(self.trains@, i1 as int, i2 as int));
                    return Some((i1, i2));
                }
                i2 = i2 + 1;
            }
            i1 = i1 + 1;
        }
        None
    }

    /// Merges trains that leave by the same side and, after an odd number of
    /// trains, switches an M or J track; returns what should be heard and
    /// seen of it (see `interact_spec`).
    pub fn interact_trains(&mut self) -> (events: Vec<TileEvent>)
        requires
            old(self).classifiable(),
        ensures
            final(self).trains@ == old(self).interact_spec().0,
            events@ == old(self).interact_spec().1,
            old(self).interact_spec().2 ==> final(self).active_connection == old(self).passive_connection
                && final(self).passive_connection == old(self).active_connection,
            !old(self).interact_spec().2 ==> final(self).active_connection == old(self).active_connection
                && final(self).passive_connection == old(self).passive_connection,
            final(self).classifiable(),
            old(self).wf() ==> final(self).wf(),
            (old(self).active_connection is Some && old(self).passive_connection is Some && (old(
                self,
            ).active_connection->0.has(old(self).passive_connection->0.dir1) || old(
                self,
            ).active_connection->0.has(old(self).passive_connection->0.dir2)) && old(self).trains@.len() % 2
                == 1) ==> {
                &&& final(self).active_connection == old(self).passive_connection
                &&& final(self).passive_connection == old(self).active_connection
                &&& events@.last() == TileEvent::SwitchTrack
            },
            !(old(self).active_connection is Some && old(self).passive_connection is Some && (old(
                self,
            ).active_connection->0.has(old(self).passive_connection->0.dir1) || old(
                self,
            ).active_connection->0.has(old(self).passive_connection->0.dir2))) ==> {
                &&& final(self).active_connection == old(self).active_connection
                &&& final(self).passive_connection == old(self).passive_connection
            },
            (!merges_on_leaving(*old(self)) || forall|i: int, k: int| 0 <= i < old(self).trains@.len() && 0 <= k
                < old(self).trains@.len() && i != k ==> #[trigger] old(self).trains@[i].destination
                != #[trigger] old(self).trains@[k].destination) ==> final(self).trains@ == old(self).trains@,
            forall|i: int, k: int| merges_on_leaving(*old(self)) && #[trigger] first_leaving_together(old(self).trains@, i, k)
                ==> {
                let ts = old(self).trains@;
                let m = mix_spec(seq![ts[i].color, ts[k].color]);
                &&& final(self).trains@.len() == ts.len() - 1
                &&& final(self).trains@[i] == Train { color: m, source: ts[i].source, destination: ts[i].destination }
                &&& forall|j: int| 0 <= j < k && j != i ==> #[trigger] final(self).trains@[j] == ts[j]
                &&& forall|j: int| k <= j < final(self).trains@.len() ==> #[trigger] final(self).trains@[j] == ts[j + 1]
                &&& events@.len() >= 2
                &&& events@[0] == TileEvent::TrainSound(m)
                &&& events@[1] == TileEvent::FireAtSide(ts[i].destination, m)
            },
    {
        proof {
            law_odd_count_switches_meeting_tracks(*self);
            law_trains_leaving_together_merge(*self);
        }
        let my_type = self.connection_type();
        let mut events: Vec<TileEvent> = Vec::new();
        let ghost ts = self.trains@;
        let need_to_switch_active_passive = self.trains.len() % 2 == 1;
        if self.trains.len() >= 2 {
            if my_type == ConnectionType::H || my_type == ConnectionType::S || my_type == ConnectionType::B
                || my_type == ConnectionType::Z {
                return events;
            }
            if let Some((i1, i2)) = self.find_merge_pair() {
                proof {
                    let (i, k) = choose|i: int, k: int| is_first_merge(ts, i, k);
                    assert(is_first_merge(ts, i, k));
                    if i < i1 {
                        assert(!same_way_out(ts, i, k));
                    } else if i > i1 {
                        assert(!same_way_out(ts, i1 as int, i2 as int));
                    }
                    if k < i2 {
                        assert(!same_way_out(ts, i1 as int, k));
                    } else if k > i2 {
                        assert(!same_way_out(ts, i, i2 as int));
                    }
                    if i2 < i1 {
                        assert(same_way_out(ts, i2 as int, i1 as int));
                    }
                }
                let colors = vec![self.trains[i1].color, self.trains[i2].color];
                assert(colors@ == seq![ts[i1 as int].color, ts[i2 as int].color]);
                let new_color = Color::mix_many(colors);
                let mut t1 = self.trains[i1];
                t1.color = new_color;
                self.trains.set(i1, t1);
                self.trains.remove(i2);
                events.push(TileEvent::TrainSound(new_color));
                let dir = self.trains[i1].destination;
                events.push(TileEvent::FireAtSide(dir, new_color));
                assert(self.trains@ == ts.update(i1 as int, recolored(ts[i1 as int], new_color)).remove(i2 as int));
            }
        }
        if need_to_switch_active_passive {
            if self.switch_active_passive() {
                events.push(TileEvent::SwitchTrack);
            }
        }
        events
    }
}

} // verus!
