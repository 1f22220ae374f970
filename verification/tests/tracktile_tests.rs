use trainyard::color::Color;
use trainyard::connection::Connection;
use trainyard::tracktile::{conn_midpoint, ConnectionMidpoint, ConnectionType, TileEvent, Tracktile, Train};

fn conn(a: u8, b: u8) -> Connection {
    Connection { dir1: a, dir2: b }
}

fn tile(active: Option<(u8, u8)>, passive: Option<(u8, u8)>) -> Tracktile {
    Tracktile::new(active.map(|(a, b)| conn(a, b)), passive.map(|(a, b)| conn(a, b)))
}

#[test]
fn connection_equality_ignores_order() {
    assert!(conn(0, 2) == conn(2, 0));
    assert!(conn(0, 1) != conn(0, 2));
    assert!(conn(3, 1) == conn(1, 3));
}

#[test]
fn connection_contains_and_rot() {
    let c = conn(0, 1);
    assert!(c.contains(0));
    assert!(c.contains(1));
    assert!(!c.contains(2));
    let r = c.rot(3);
    assert_eq!((r.dir1, r.dir2), (3, 0));
    let r = conn(2, 3).rot(2);
    assert_eq!((r.dir1, r.dir2), (0, 1));
}

#[test]
fn get_char_of_each_type() {
    assert_eq!(ConnectionType::Blank.get_char(), '_');
    assert_eq!(ConnectionType::S.get_char(), 'S');
    assert_eq!(ConnectionType::B.get_char(), 'B');
    assert_eq!(ConnectionType::H.get_char(), 'H');
    assert_eq!(ConnectionType::Z.get_char(), 'Z');
    assert_eq!(ConnectionType::M.get_char(), 'M');
    assert_eq!(ConnectionType::J.get_char(), 'J');
}

#[test]
fn connection_type_of_each_shape() {
    assert_eq!(tile(None, None).connection_type(), ConnectionType::Blank);
    assert_eq!(tile(Some((0, 2)), None).connection_type(), ConnectionType::S);
    assert_eq!(tile(Some((3, 1)), None).connection_type(), ConnectionType::S);
    assert_eq!(tile(Some((0, 1)), None).connection_type(), ConnectionType::B);
    assert_eq!(tile(Some((2, 3)), None).connection_type(), ConnectionType::B);
    assert_eq!(tile(Some((0, 2)), Some((1, 3))).connection_type(), ConnectionType::H);
    assert_eq!(tile(Some((3, 1)), Some((2, 0))).connection_type(), ConnectionType::H);
    assert_eq!(tile(Some((0, 1)), Some((2, 3))).connection_type(), ConnectionType::Z);
    assert_eq!(tile(Some((3, 0)), Some((1, 2))).connection_type(), ConnectionType::Z);
    assert_eq!(tile(Some((0, 1)), Some((1, 2))).connection_type(), ConnectionType::M);
    assert_eq!(tile(Some((3, 2)), Some((3, 0))).connection_type(), ConnectionType::M);
    assert_eq!(tile(Some((0, 1)), Some((0, 2))).connection_type(), ConnectionType::J);
    assert_eq!(tile(Some((0, 3)), Some((2, 0))).connection_type(), ConnectionType::J);
    assert_eq!(tile(Some((1, 3)), Some((2, 1))).connection_type(), ConnectionType::J);
}

#[test]
fn connection_type_total_over_all_well_formed_pairs() {
    let conns: Vec<(u8, u8)> = vec![(0, 1), (0, 2), (0, 3), (1, 2), (1, 3), (2, 3), (1, 0), (3, 2)];
    for &a in &conns {
        for &p in &conns {
            if conn(a.0, a.1) == conn(p.0, p.1) {
                continue;
            }
            let t = tile(Some(a), Some(p));
            let ty = t.connection_type();
            assert!(matches!(ty, ConnectionType::H | ConnectionType::Z | ConnectionType::M | ConnectionType::J));
        }
    }
}

#[test]
fn rotation_queries() {
    let t = tile(Some((1, 2)), Some((0, 2)));
    assert_eq!(t.has_connection_up_to_rot(conn(0, 1)), 1);
    assert_eq!(t.has_connection_up_to_rot(conn(2, 0)), 0);
    assert_eq!(t.has_active_connection_up_to_rot(conn(0, 1)), 1);
    assert_eq!(t.has_active_connection_up_to_rot(conn(0, 2)), -1);
    assert_eq!(t.has_connections_up_to_rot(conn(0, 1), conn(3, 1)), 1);
    assert_eq!(t.has_connections_up_to_rot(conn(0, 1), conn(2, 3)), -1);
    assert_eq!(t.has_active_passive_connections_up_to_rot(conn(3, 1), conn(0, 1)), -1);
    assert_eq!(t.has_active_passive_connections_up_to_rot(conn(0, 1), conn(3, 1)), 1);
    let single = tile(Some((3, 0)), None);
    assert_eq!(single.has_connections_up_to_rot(conn(0, 1), conn(2, 3)), -1);
    assert_eq!(single.has_connection_up_to_rot(conn(0, 1)), 3);
    assert_eq!(tile(None, None).has_connection_up_to_rot(conn(0, 1)), -1);
}

#[test]
fn add_connection_moves_active_to_passive() {
    let mut t = tile(None, None);
    t.add_connection(conn(0, 2));
    assert!(t.active_connection == Some(conn(0, 2)));
    assert!(t.passive_connection.is_none());
    t.add_connection(conn(1, 3));
    assert!(t.active_connection == Some(conn(1, 3)));
    assert!(t.passive_connection == Some(conn(0, 2)));
    t.add_connection(conn(3, 1));
    assert!(t.active_connection == Some(conn(1, 3)));
    assert!(t.passive_connection.is_none());
}

#[test]
fn clear_trains_and_connections() {
    let mut t = tile(Some((0, 2)), Some((1, 3)));
    let _ = t.accept_trains([Some(Color::Red), None, None, None]);
    assert_eq!(t.trains.len(), 1);
    t.clear_trains();
    assert!(t.trains.is_empty());
    t.clear_connections();
    assert!(t.active_connection.is_none() && t.passive_connection.is_none());
}

#[test]
fn switch_only_m_and_j() {
    let mut h = tile(Some((0, 2)), Some((1, 3)));
    assert!(!h.switch_active_passive());
    assert!(h.active_connection == Some(conn(0, 2)));
    let mut m = tile(Some((0, 1)), Some((1, 2)));
    assert!(m.switch_active_passive());
    assert!(m.active_connection == Some(conn(1, 2)));
    assert!(m.passive_connection == Some(conn(0, 1)));
}

#[test]
fn switching_twice_restores_the_track() {
    let mut j = tile(Some((0, 1)), Some((0, 2)));
    assert!(j.switch_active_passive());
    assert_eq!(j.connection_type(), ConnectionType::J);
    assert!(j.switch_active_passive());
    assert!(j.active_connection == Some(conn(0, 1)));
    assert!(j.passive_connection == Some(conn(0, 2)));
}

#[test]
fn accept_crash_returns_crashed_trains_and_keeps_tile() {
    let mut t = tile(Some((0, 2)), None);
    let res = t.accept_trains([Some(Color::Red), Some(Color::Blue), None, Some(Color::Green)]);
    assert_eq!(res, [None, Some(Color::Blue), None, Some(Color::Green)]);
    assert!(t.trains.is_empty());
}

#[test]
fn accept_then_dispatch_straight() {
    let mut t = tile(Some((0, 2)), None);
    let res = t.accept_trains([Some(Color::Red), None, None, None]);
    assert_eq!(res, [None, None, None, None]);
    assert_eq!(t.trains.len(), 1);
    assert_eq!((t.trains[0].source, t.trains[0].destination), (0, 2));
    let out = t.dispatch_trains();
    assert_eq!(out, [None, None, Some(Color::Red), None]);
    assert!(t.trains.is_empty());
}

#[test]
fn accept_prefers_active_connection() {
    let mut t = tile(Some((0, 1)), Some((0, 2)));
    let _ = t.accept_trains([Some(Color::Yellow), None, Some(Color::Blue), None]);
    assert_eq!(t.trains.len(), 2);
    assert_eq!((t.trains[0].source, t.trains[0].destination), (0, 1));
    assert_eq!((t.trains[1].source, t.trains[1].destination), (2, 0));
}

#[test]
fn tick_on_straight_mixes_all() {
    let mut t = tile(Some((0, 2)), None);
    let _ = t.accept_trains([Some(Color::Red), None, Some(Color::Blue), None]);
    let events = t.process_tick();
    assert!(t.trains.iter().all(|tr| tr.color == Color::Purple));
    assert_eq!(events.len(), 2);
    assert!(matches!(events[0], TileEvent::TrainSound(Color::Purple)));
    assert!(matches!(events[1], TileEvent::FireOnConnection(c, Color::Purple) if c == conn(0, 2)));
}

#[test]
fn tick_with_one_train_does_nothing() {
    let mut t = tile(Some((0, 2)), None);
    let _ = t.accept_trains([Some(Color::Red), None, None, None]);
    let events = t.process_tick();
    assert!(events.is_empty());
    assert_eq!(t.trains[0].color, Color::Red);
}

#[test]
fn tick_on_z_meets_along_each_connection() {
    let mut t = tile(Some((0, 1)), Some((2, 3)));
    let _ = t.accept_trains([Some(Color::Red), Some(Color::Yellow), Some(Color::Blue), Some(Color::Blue)]);
    let events = t.process_tick();
    let colors: Vec<Color> = t.trains.iter().map(|tr| tr.color).collect();
    assert_eq!(colors, vec![Color::Orange, Color::Orange, Color::Blue, Color::Blue]);
    assert_eq!(events.len(), 4);
    assert!(matches!(events[1], TileEvent::FireOnConnection(c, Color::Orange) if c == conn(0, 1)));
    assert!(matches!(events[3], TileEvent::FireOnConnection(c, Color::Blue) if c == conn(2, 3)));
}

#[test]
fn tick_on_z_without_head_on_trains() {
    let mut t = tile(Some((0, 1)), Some((2, 3)));
    let _ = t.accept_trains([Some(Color::Red), None, Some(Color::Blue), None]);
    let events = t.process_tick();
    assert!(events.is_empty());
    assert_eq!(t.trains[0].color, Color::Red);
    assert_eq!(t.trains[1].color, Color::Blue);
}

#[test]
fn interact_on_m_merges_trains_leaving_by_one_side() {
    let mut t = tile(Some((0, 1)), Some((1, 2)));
    // the trains from 0 and from 2 both leave by side 1
    let _ = t.accept_trains([Some(Color::Red), None, Some(Color::Yellow), None]);
    let tick = t.process_tick();
    assert!(tick.is_empty());
    let events = t.interact_trains();
    assert_eq!(t.trains.len(), 1);
    assert_eq!(t.trains[0].color, Color::Orange);
    assert_eq!(t.trains[0].destination, 1);
    assert_eq!(events.len(), 2);
    assert!(matches!(events[0], TileEvent::TrainSound(Color::Orange)));
    assert!(matches!(events[1], TileEvent::FireAtSide(1, Color::Orange)));
    assert!(t.active_connection == Some(conn(0, 1)));
    let out = t.dispatch_trains();
    assert_eq!(out, [None, Some(Color::Orange), None, None]);
}

#[test]
fn interact_on_m_after_odd_count_switches() {
    let mut t = tile(Some((0, 1)), Some((1, 2)));
    let _ = t.accept_trains([Some(Color::Red), Some(Color::Green), Some(Color::Yellow), None]);
    let tick = t.process_tick();
    assert_eq!(tick.len(), 2);
    assert!(matches!(tick[1], TileEvent::FireOnConnection(c, Color::Brown) if c == conn(0, 1)));
    let events = t.interact_trains();
    assert_eq!(t.trains.len(), 2);
    assert_eq!(events.len(), 3);
    assert!(matches!(events[1], TileEvent::FireAtSide(1, Color::Brown)));
    assert!(matches!(events[2], TileEvent::SwitchTrack));
    assert!(t.active_connection == Some(conn(1, 2)));
    assert!(t.passive_connection == Some(conn(0, 1)));
    let out = t.dispatch_trains();
    assert_eq!(out, [Some(Color::Brown), Some(Color::Brown), None, None]);
}

#[test]
fn interact_on_h_leaves_trains() {
    let mut t = tile(Some((0, 2)), Some((1, 3)));
    let _ = t.accept_trains([Some(Color::Red), Some(Color::Blue), None, None]);
    let events = t.interact_trains();
    assert!(events.is_empty());
    assert_eq!(t.trains.len(), 2);
}

#[test]
fn interact_single_train_on_j_switches() {
    let mut t = tile(Some((0, 1)), Some((0, 2)));
    let _ = t.accept_trains([None, Some(Color::Red), None, None]);
    let events = t.interact_trains();
    assert_eq!(events.len(), 1);
    assert!(matches!(events[0], TileEvent::SwitchTrack));
    assert!(t.active_connection == Some(conn(0, 2)));
}

#[test]
fn dispatch_is_possible_after_every_step() {
    let shapes: Vec<(Option<(u8, u8)>, Option<(u8, u8)>)> = vec![
        (Some((0, 2)), None),
        (Some((0, 1)), None),
        (Some((0, 2)), Some((1, 3))),
        (Some((0, 1)), Some((2, 3))),
        (Some((0, 1)), Some((1, 2))),
        (Some((0, 1)), Some((0, 2))),
        (Some((2, 3)), Some((0, 2))),
    ];
    let palette = [None, Some(Color::Red), Some(Color::Blue)];
    for (a, p) in shapes {
        for c0 in palette {
            for c1 in palette {
                for c2 in palette {
                    for c3 in palette {
                        let mut t = tile(a, p);
                        let crashed = t.accept_trains([c0, c1, c2, c3]);
                        if crashed.iter().any(|c| c.is_some()) {
                            continue;
                        }
                        let n = t.trains.len();
                        let _ = t.process_tick();
                        let _ = t.interact_trains();
                        let out = t.dispatch_trains();
                        assert!(out.iter().filter(|c| c.is_some()).count() <= n);
                    }
                }
            }
        }
    }
}

#[test]
fn midpoints_of_connections() {
    assert_eq!(conn_midpoint(conn(0, 2)), ConnectionMidpoint::Center);
    assert_eq!(conn_midpoint(conn(3, 1)), ConnectionMidpoint::Center);
    assert_eq!(conn_midpoint(conn(0, 3)), ConnectionMidpoint::UpLeft);
    assert_eq!(conn_midpoint(conn(1, 0)), ConnectionMidpoint::UpRight);
    assert_eq!(conn_midpoint(conn(2, 1)), ConnectionMidpoint::DownRight);
    assert_eq!(conn_midpoint(conn(3, 2)), ConnectionMidpoint::DownLeft);
}

#[test]
fn train_fields_are_plain() {
    let tr = Train { color: Color::Red, source: 0, destination: 2 };
    let copy = tr;
    assert_eq!(copy.color, Color::Red);
}

#[test]
fn tick_keeps_sources_and_destinations() {
    let mut t = tile(Some((0, 1)), Some((2, 3)));
    let _ = t.accept_trains([Some(Color::Red), Some(Color::Yellow), Some(Color::Blue), Some(Color::Red)]);
    let before: Vec<(u8, u8)> = t.trains.iter().map(|tr| (tr.source, tr.destination)).collect();
    let _ = t.process_tick();
    let after: Vec<(u8, u8)> = t.trains.iter().map(|tr| (tr.source, tr.destination)).collect();
    assert_eq!(before, after);
    assert_eq!(after, vec![(0, 1), (1, 0), (2, 3), (3, 2)]);
}

#[test]
fn well_formedness_checks() {
    assert!(tile(Some((0, 1)), Some((2, 3))).is_well_formed());
    assert!(!tile(Some((0, 1)), Some((1, 0))).is_well_formed());
    assert!(!tile(Some((0, 4)), None).is_well_formed());
    assert!(tile(Some((0, 4)), None).is_classifiable());
    assert!(!tile(Some((0, 1)), Some((1, 0))).is_classifiable());
    assert!(tile(None, Some((1, 2))).is_classifiable());
    assert_eq!(tile(None, Some((1, 2))).connection_type(), ConnectionType::Blank);
    assert_eq!(tile(Some((1, 1)), None).connection_type(), ConnectionType::B);
}
