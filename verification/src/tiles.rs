use vstd::prelude::*;
use crate::color::Color;
use crate::connection::Connection;
use crate::tracktile::{Tracktile, Train};

verus! {

/// A station that sends out trains of the given colours by side `dir`.
#[derive(Clone, Debug)]
pub struct Trainsource {
    pub colors: Vec<Color>,
    pub dir: u8,
}

/// A station that takes trains of the given colours, by the sides marked in
/// `border_state`.
#[derive(Clone, Debug)]
pub struct Trainsink {
    pub colors: Vec<Color>,
    pub border_state: [bool; 4],
}

/// A tile that no track can cross.
#[derive(Clone, Copy, Debug)]
pub struct Rock {}

/// A tile that paints the trains crossing it along `connection`.
#[derive(Clone, Copy, Debug)]
pub struct Painter {
    pub connection: Connection,
    pub color: Color,
}

/// A tile that splits a train coming in by side `dir` in two.
#[derive(Clone, Copy, Debug)]
pub struct Splitter {
    pub dir: u8,
}

/// The contents of a square of the board.
#[derive(Clone, Debug)]
pub enum Tile {
    Tracktile(Tracktile),
    Trainsource(Trainsource),
    Trainsink(Trainsink),
    Rock(Rock),
    Painter(Painter),
    Splitter(Splitter),
}

/// A tile seen as plain values.
pub ghost enum TileView {
    Track { active: Option<Connection>, passive: Option<Connection>, trains: Seq<Train> },
    Source { colors: Seq<Color>, dir: u8 },
    Sink { colors: Seq<Color>, border: Seq<bool> },
    Rock,
    Painter { connection: Connection, color: Color },
    Splitter { dir: u8 },
}

impl View for Tile {
    type V = TileView;

    open spec fn view(&self) -> TileView {
        match self {
            Tile::Tracktile(t) => TileView::Track {
                active: t.active_connection,
                passive: t.passive_connection,
                trains: t.trains@,
            },
            Tile::Trainsource(s) => TileView::Source { colors: s.colors@, dir: s.dir },
            Tile::Trainsink(s) => TileView::Sink { colors: s.colors@, border: s.border_state@ },
            Tile::Rock(_) => TileView::Rock,
            Tile::Painter(p) => TileView::Painter { connection: p.connection, color: p.color },
            Tile::Splitter(s) => TileView::Splitter { dir: s.dir },
        }
    }
}

impl Trainsource {
    pub fn new(colors: Vec<Color>, dir: u8) -> (s: Trainsource)
        ensures
            s.colors@ == colors@,
            s.dir == dir,
    {
        Trainsource { colors, dir }
    }
}

impl Trainsink {
    pub fn new(colors: Vec<Color>, border_state: [bool; 4]) -> (s: Trainsink)
        ensures
            s.colors@ == colors@,
            s.border_state@ == border_state@,
    {
        Trainsink { colors, border_state }
    }
}

impl Rock {
    pub fn new() -> (r: Rock) {
        Rock {}
    }
}

impl Painter {
    pub fn new(connection: Connection, color: Color) -> (p: Painter)
        ensures
            p.connection == connection,
            p.color == color,
    {
        Painter { connection, color }
    }
}

impl Splitter {
    pub fn new(dir: u8) -> (s: Splitter)
        ensures
            s.dir == dir,
    {
        Splitter { dir }
    }
}

} // verus!
