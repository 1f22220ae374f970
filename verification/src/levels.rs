use vstd::prelude::*;
use vstd::utf8::*;
use vstd::string::StringSliceAdditionalSpecFns;
use crate::color::Color;
use crate::tracktile::{Tracktile, Train};
use crate::connection::Connection;
use crate::text::{split_on, starts_with, digit_at, u32_from, span_starts_with, span_eq, split_span, span_seqs, digit_in_span, parse_u32_span, cut_string, cut_point};
use crate::tiles::{Tile, TileView, Trainsource, Trainsink, Rock, Painter, Splitter};

verus! {

/// A tile at a square of the board.
#[derive(Clone, Debug)]
pub struct PositionedTile {
    pub tile: Tile,
    pub x: u8,
    pub y: u8,
}

/// A positioned tile seen as plain values.
pub ghost struct PositionedTileView {
    pub tile: TileView,
    pub x: u8,
    pub y: u8,
}

impl View for PositionedTile {
    type V = PositionedTileView;

    open spec fn view(&self) -> PositionedTileView {
        PositionedTileView { tile: self.tile@, x: self.x, y: self.y }
    }
}

/// The tiles of a level.
pub type LevelInfo = Vec<PositionedTile>;

/// The board as the player left it, and whether the player has won.
pub type LevelProgress = (LevelInfo, bool);

/// A level: its starting board, the player's progress, its name and the
/// number of stars it is worth.
#[derive(Debug)]
pub struct Level {
    pub level_info: LevelInfo,
    pub current_progress: LevelProgress,
    pub name: String,
    pub num_stars: u32,
}

/// A level seen as plain values.
pub ghost struct LevelView {
    pub name: Seq<char>,
    pub num_stars: u32,
    pub level_info: Seq<PositionedTileView>,
    pub progress: Seq<PositionedTileView>,
    pub won: bool,
}

/// The views of a sequence of positioned tiles.
pub open spec fn tiles_view(ts: Seq<PositionedTile>) -> Seq<PositionedTileView> {
    ts.map_values(|t: PositionedTile| t@)
}

impl View for Level {
    type V = LevelView;

    open spec fn view(&self) -> LevelView {
        LevelView {
            name: self.name@,
            num_stars: self.num_stars,
            level_info: tiles_view(self.level_info@),
            progress: tiles_view(self.current_progress.0@),
            won: self.current_progress.1,
        }
    }
}

/// The views of a sequence of levels.
pub open spec fn levels_view(ls: Seq<Level>) -> Seq<LevelView> {
    ls.map_values(|l: Level| l@)
}

/// A named group of levels.
#[derive(Debug)]
pub struct City {
    pub name: String,
    pub levels: Vec<Level>,
}

/// A city seen as plain values.
pub ghost struct CityView {
    pub name: Seq<char>,
    pub levels: Seq<LevelView>,
}

impl View for City {
    type V = CityView;

    open spec fn view(&self) -> CityView {
        CityView { name: self.name@, levels: levels_view(self.levels@) }
    }
}

/// The views of a sequence of cities.
pub open spec fn cities_view(cs: Seq<City>) -> Seq<CityView> {
    cs.map_values(|c: City| c@)
}

/// All the cities of the game, with their levels.
#[derive(Debug)]
pub struct LevelManager(pub Vec<City>);

impl View for LevelManager {
    type V = Seq<CityView>;

    open spec fn view(&self) -> Seq<CityView> {
        cities_view(self.0@)
    }
}

/// Why a level text was refused, with the number (from 1) of the line at
/// fault where there is one.
#[derive(Clone, Copy, Debug, PartialEq, Eq, Structural)]
pub enum LevelsError {
    /// A city does not start with a line `CITY:` and its name.
    ExpectedCity(usize),
    /// The text ends inside a city or a level.
    UnexpectedEof,
    /// A level's first line is not a name and a star count around one `:`.
    ExpectedTwoFields(usize),
    /// A level's star count is not a `u32`.
    InvalidStarCount(usize),
    /// A tile line has no digit at its third byte.
    InvalidX(usize),
    /// A tile line has no digit at its fifth byte.
    InvalidY(usize),
    /// A tile line has the wrong number of spaces.
    WrongSpaceCount(usize),
    /// A colour name is not known.
    InvalidColor(usize),
    /// A direction name is not known.
    InvalidDirection(usize),
    /// A rock position is not two digits around one byte.
    InvalidRockPosition(usize),
    /// A painter does not join exactly two sides.
    PainterNeedsTwoDirections(usize),
    /// A tile line starts with none of `+ `, `o `, `* `, `p `, `s `.
    InvalidLineStart(usize),
}

pub open spec fn lit_comment() -> Seq<u8> {
    seq!['/' as u8, '/' as u8]
}

pub open spec fn lit_city() -> Seq<u8> {
    seq!['C' as u8, 'I' as u8, 'T' as u8, 'Y' as u8, ':' as u8]
}

pub open spec fn lit_end_of_level() -> Seq<u8> {
    seq!['-' as u8, '-' as u8, '-' as u8]
}

pub open spec fn lit_end_of_city() -> Seq<u8> {
    seq!['-' as u8, '-' as u8, '-' as u8, '-' as u8]
}

pub open spec fn lit_kind(k: char) -> Seq<u8> {
    seq![k as u8, ' ' as u8]
}

/// A line that the reader looks at: neither empty nor a `//` comment.
pub open spec fn keep_line(l: Seq<u8>) -> bool {
    !(starts_with(l, lit_comment()) || l.len() == 0)
}

/// The kept lines among `ls`, each with its number, counted from 1 over all
/// lines.
pub open spec fn content_of(ls: Seq<Seq<u8>>) -> Seq<(int, Seq<u8>)>
    decreases ls.len(),
{
    if ls.len() == 0 {
        Seq::empty()
    } else {
        let pre = content_of(ls.drop_last());
        if keep_line(ls.last()) {
            pre.push((ls.len() as int, ls.last()))
        } else {
            pre
        }
    }
}

/// The numbered lines of the text that the reader looks at.
pub open spec fn content_lines(text: Seq<u8>) -> Seq<(int, Seq<u8>)> {
    content_of(split_on(text, '\n' as u8))
}

/// The colour that `s` names.
pub open spec fn color_named(s: Seq<u8>) -> Option<Color> {
    if s == seq!['r' as u8, 'e' as u8, 'd' as u8] {
        Some(Color::Red)
    } else if s == seq!['b' as u8, 'l' as u8, 'u' as u8, 'e' as u8] {
        Some(Color::Blue)
    } else if s == seq!['y' as u8, 'e' as u8, 'l' as u8, 'l' as u8, 'o' as u8, 'w' as u8] {
        Some(Color::Yellow)
    } else if s == seq!['p' as u8, 'u' as u8, 'r' as u8, 'p' as u8, 'l' as u8, 'e' as u8] {
        Some(Color::Purple)
    } else if s == seq!['g' as u8, 'r' as u8, 'e' as u8, 'e' as u8, 'n' as u8] {
        Some(Color::Green)
    } else if s == seq!['o' as u8, 'r' as u8, 'a' as u8, 'n' as u8, 'g' as u8, 'e' as u8] {
        Some(Color::Orange)
    } else if s == seq!['b' as u8, 'r' as u8, 'o' as u8, 'w' as u8, 'n' as u8] {
        Some(Color::Brown)
    } else {
        None
    }
}

/// The side that `s` names: `up` 0, `right` 1, `down` 2, `left` 3.
pub open spec fn dir_named(s: Seq<u8>) -> Option<u8> {
    if s == seq!['u' as u8, 'p' as u8] {
        Some(0u8)
    } else if s == seq!['r' as u8, 'i' as u8, 'g' as u8, 'h' as u8, 't' as u8] {
        Some(1u8)
    } else if s == seq!['d' as u8, 'o' as u8, 'w' as u8, 'n' as u8] {
        Some(2u8)
    } else if s == seq!['l' as u8, 'e' as u8, 'f' as u8, 't' as u8] {
        Some(3u8)
    } else {
        None
    }
}

/// The colours that the pieces name, where each names one.
pub open spec fn colors_named(ps: Seq<Seq<u8>>) -> Option<Seq<Color>> {
    if forall|i: int| 0 <= i < ps.len() ==> #[trigger] color_named(ps[i]) is Some {
        Some(Seq::new(ps.len(), |i: int| color_named(ps[i])->0))
    } else {
        None
    }
}

/// The sides that the pieces name, where each names one.
pub open spec fn dirs_named(ps: Seq<Seq<u8>>) -> Option<Seq<u8>> {
    if forall|i: int| 0 <= i < ps.len() ==> #[trigger] dir_named(ps[i]) is Some {
        Some(Seq::new(ps.len(), |i: int| dir_named(ps[i])->0))
    } else {
        None
    }
}

/// A rock at each position, where each position has a digit at its first
/// and at its third byte.
pub open spec fn rocks_at(ps: Seq<Seq<u8>>) -> Option<Seq<PositionedTileView>> {
    if forall|i: int| 0 <= i < ps.len() ==> #[trigger] digit_at(ps[i], 0) is Some && digit_at(ps[i], 2) is Some {
        Some(Seq::new(ps.len(), |i: int| PositionedTileView {
            tile: TileView::Rock,
            x: digit_at(ps[i], 0)->0,
            y: digit_at(ps[i], 2)->0,
        }))
    } else {
        None
    }
}

/// The tiles that line `l`, numbered `n`, describes. After a digit at its
/// third and at its fifth byte (the column and the row), `+ ` starts a train
/// source (colours, then the side), `o ` a train sink (colours, then sides),
/// `* ` rocks (one position after the other), `p ` a painter (colour, then
/// two sides), `s ` a splitter (side); fields are separated by one space and
/// list items by commas.
pub open spec fn tile_line(l: Seq<u8>, n: int) -> Result<Seq<PositionedTileView>, LevelsError> {
    let n = n as usize;
    if digit_at(l, 2) is None {
        Err(LevelsError::InvalidX(n))
    } else if digit_at(l, 4) is None {
        Err(LevelsError::InvalidY(n))
    } else {
        let x = digit_at(l, 2)->0;
        let y = digit_at(l, 4)->0;
        let f = split_on(l, ' ' as u8);
        if starts_with(l, lit_kind('+')) {
            if f.len() != 4 {
                Err(LevelsError::WrongSpaceCount(n))
            } else if colors_named(split_on(f[2], ',' as u8)) is None {
                Err(LevelsError::InvalidColor(n))
            } else if dir_named(f[3]) is None {
                Err(LevelsError::InvalidDirection(n))
            } else {
                Ok(seq![PositionedTileView {
                    tile: TileView::Source {
                        colors: colors_named(split_on(f[2], ',' as u8))->0,
                        dir: dir_named(f[3])->0,
                    },
                    x,
                    y,
                }])
            }
        } else if starts_with(l, lit_kind('o')) {
            if f.len() != 4 {
                Err(LevelsError::WrongSpaceCount(n))
            } else if colors_named(split_on(f[2], ',' as u8)) is None {
                Err(LevelsError::InvalidColor(n))
            } else if dirs_named(split_on(f[3], ',' as u8)) is None {
                Err(LevelsError::InvalidDirection(n))
            } else {
                let ds = dirs_named(split_on(f[3], ',' as u8))->0;
                Ok(seq![PositionedTileView {
                    tile: TileView::Sink {
                        colors: colors_named(split_on(f[2], ',' as u8))->0,
                        border: Seq::new(4, |s: int| ds.contains(s as u8)),
                    },
                    x,
                    y,
                }])
            }
        } else if starts_with(l, lit_kind('*')) {
            match rocks_at(split_on(l.subrange(2, l.len() as int), ' ' as u8)) {
                None => Err(LevelsError::InvalidRockPosition(n)),
                Some(rocks) => Ok(rocks),
            }
        } else if starts_with(l, lit_kind('p')) {
            if f.len() != 4 {
                Err(LevelsError::WrongSpaceCount(n))
            } else if color_named(f[2]) is None {
                Err(LevelsError::InvalidColor(n))
            } else if dirs_named(split_on(f[3], ',' as u8)) is None {
                Err(LevelsError::InvalidDirection(n))
            } else if dirs_named(split_on(f[3], ',' as u8))->0.len() != 2 {
                Err(LevelsError::PainterNeedsTwoDirections(n))
            } else {
                let ds = dirs_named(split_on(f[3], ',' as u8))->0;
                Ok(seq![PositionedTileView {
                    tile: TileView::Painter {
                        connection: Connection { dir1: ds[0], dir2: ds[1] },
                        color: color_named(f[2])->0,
                    },
                    x,
                    y,
                }])
            }
        } else if starts_with(l, lit_kind('s')) {
            if f.len() != 3 {
                Err(LevelsError::WrongSpaceCount(n))
            } else if dir_named(f[2]) is None {
                Err(LevelsError::InvalidDirection(n))
            } else {
                Ok(seq![PositionedTileView { tile: TileView::Splitter { dir: dir_named(f[2])->0 }, x, y }])
            }
        } else {
            Err(LevelsError::InvalidLineStart(n))
        }
    }
}

/// The tiles of a level, read from line `i` of `ls` up to the line `---`
/// that closes it, and the index of the line after that one.
pub open spec fn tiles_from(ls: Seq<(int, Seq<u8>)>, i: int) -> Result<(Seq<PositionedTileView>, int), LevelsError>
    decreases ls.len() - i,
{
    if i < 0 || i >= ls.len() {
        Err(LevelsError::UnexpectedEof)
    } else if ls[i].1 == lit_end_of_level() {
        Ok((Seq::empty(), i + 1))
    } else {
        match tile_line(ls[i].1, ls[i].0) {
            Err(e) => Err(e),
            Ok(t) => match tiles_from(ls, i + 1) {
                Err(e) => Err(e),
                Ok((rest, j)) => Ok((t + rest, j)),
            },
        }
    }
}

pub proof fn lemma_tiles_from_advances(ls: Seq<(int, Seq<u8>)>, i: int)
    ensures
        tiles_from(ls, i) matches Ok((_, j)) ==> i < j <= ls.len(),
    decreases ls.len() - i,
{
    if 0 <= i < ls.len() && ls[i].1 != lit_end_of_level() {
        lemma_tiles_from_advances(ls, i + 1);
    }
}

/// The levels of a city, read from line `i` of `ls` up to the line `----`
/// that closes the city, and the index of the line after that one. A level
/// is a line with its name and star count around a `:`, then its tiles.
pub open spec fn levels_from(ls: Seq<(int, Seq<u8>)>, i: int) -> Result<(Seq<LevelView>, int), LevelsError>
    decreases ls.len() - i,
{
    if i < 0 || i >= ls.len() {
        Err(LevelsError::UnexpectedEof)
    } else if ls[i].1 == lit_end_of_city() {
        Ok((Seq::empty(), i + 1))
    } else {
        let n = ls[i].0 as usize;
        let f = split_on(ls[i].1, ':' as u8);
        if f.len() != 2 {
            Err(LevelsError::ExpectedTwoFields(n))
        } else if u32_from(f[1]) is None {
            Err(LevelsError::InvalidStarCount(n))
        } else {
            match tiles_from(ls, i + 1) {
                Err(e) => Err(e),
                Ok((tiles, j)) => {
                    proof {
                        lemma_tiles_from_advances(ls, i + 1);
                    }
                    match levels_from(ls, j) {
                        Err(e) => Err(e),
                        Ok((rest, k)) => Ok((
                            seq![LevelView {
                                name: decode_utf8(f[0]),
                                num_stars: u32_from(f[1])->0,
                                level_info: tiles,
                                progress: Seq::empty(),
                                won: false,
                            }] + rest,
                            k,
                        )),
                    }
                },
            }
        }
    }
}

pub proof fn lemma_levels_from_advances(ls: Seq<(int, Seq<u8>)>, i: int)
    ensures
        levels_from(ls, i) matches Ok((_, j)) ==> i < j <= ls.len(),
    decreases ls.len() - i,
{
    if 0 <= i < ls.len() && ls[i].1 != lit_end_of_city() {
        lemma_tiles_from_advances(ls, i + 1);
        if let Ok((_, j)) = tiles_from(ls, i + 1) {
            lemma_levels_from_advances(ls, j);
        }
    }
}

/// The cities read from line `i` of `ls` to the end: each is a line `CITY:`
/// with its name, then its levels.
pub open spec fn cities_from(ls: Seq<(int, Seq<u8>)>, i: int) -> Result<Seq<CityView>, LevelsError>
    decreases ls.len() - i,
{
    if i < 0 || i >= ls.len() {
        Ok(Seq::empty())
    } else if !starts_with(ls[i].1, lit_city()) {
        Err(LevelsError::ExpectedCity(ls[i].0 as usize))
    } else {
        match levels_from(ls, i + 1) {
            Err(e) => Err(e),
            Ok((levels, j)) => {
                proof {
                    lemma_levels_from_advances(ls, i + 1);
                }
                match cities_from(ls, j) {
                    Err(e) => Err(e),
                    Ok(rest) => Ok(seq![CityView {
                        name: decode_utf8(ls[i].1.subrange(5, ls[i].1.len() as int)),
                        levels,
                    }] + rest),
                }
            },
        }
    }
}

/// What the level text with bytes `text` describes: its cities, or why it is
/// refused.
pub open spec fn parse_levels_spec(text: Seq<u8>) -> Result<Seq<CityView>, LevelsError> {
    cities_from(content_lines(text), 0)
}

/// A kept line of the text: its number and where its bytes are.
#[derive(Clone, Copy, Debug)]
pub struct LineSpan {
    pub number: usize,
    pub start: usize,
    pub end: usize,
}

/// The spans `r` of the bytes `b` are the numbered lines `cl`, each a whole
/// line of `b`.
pub open spec fn spans_match(b: Seq<u8>, r: Seq<LineSpan>, cl: Seq<(int, Seq<u8>)>) -> bool {
    &&& r.len() == cl.len()
    &&& forall|k: int| 0 <= k < r.len() ==> {
        let s = #[trigger] r[k];
        &&& s.start <= s.end <= b.len()
        &&& s.number == cl[k].0
        &&& b.subrange(s.start as int, s.end as int) == cl[k].1
        &&& (s.start == 0 || b[s.start - 1] == '\n' as u8)
        &&& (s.end == b.len() || b[s.end as int] == '\n' as u8)
    }
}

/// The lines of the text that the reader looks at, as spans of its bytes.
pub fn content_line_spans(bytes: &[u8]) -> (r: Vec<LineSpan>)
    requires
        bytes@.len() < usize::MAX,
    ensures
        spans_match(bytes@, r@, content_lines(bytes@)),
{
    let comment: [u8; 2] = ['/' as u8, '/' as u8];
    assert(comment@ == lit_comment());
    let mut r: Vec<LineSpan> = Vec::new();
    let mut cur: usize = 0;
    let mut number: usize = 1;
    let mut i: usize = 0;
    let ghost mut done: Seq<Seq<u8>> = Seq::empty();
    assert(bytes@.subrange(0, 0) =~= Seq::<u8>::empty());
    assert(split_on(bytes@.subrange(0, 0), '\n' as u8) =~= done.push(bytes@.subrange(0, 0)));
    while i < bytes.len()
        invariant
            bytes@.len() < usize::MAX,
            comment@ == lit_comment(),
            0 <= cur <= i <= bytes@.len(),
            number == done.len() + 1,
            number <= i + 1,
            cur == 0 || bytes@[cur - 1] == '\n' as u8,
            split_on(bytes@.subrange(0, i as int), '\n' as u8) == done.push(bytes@.subrange(cur as int, i as int)),
            spans_match(bytes@, r@, content_of(done)),
            forall|k: int| 0 <= k < r@.len() ==> (#[trigger] r@[k]).end < i,
        decreases bytes@.len() - i,
    {
        let ghost pre = bytes@.subrange(0, i as int);
        let ghost now = bytes@.subrange(0, i as int + 1);
        assert(now.drop_last() == pre);
        assert(now.last() == bytes@[i as int]);
        if bytes[i] == '\n' as u8 {
            let keep = i > cur && !span_starts_with(bytes, cur, i, &comment);
            let ghost line = bytes@.subrange(cur as int, i as int);
            assert(keep == keep_line(line));
            let ghost old_r = r@;
            if keep {
                r.push(LineSpan { number, start: cur, end: i });
            }
            proof {
                let old_done = done;
                done = done.push(line);
                assert(done.drop_last() == old_done);
                assert(done.last() == line);
                assert(spans_match(bytes@, r@, content_of(done))) by {
                    if keep {
                        assert forall|k: int| 0 <= k < r@.len() implies {
                            let s = #[trigger] r@[k];
                            &&& s.start <= s.end <= bytes@.len()
                            &&& s.number == content_of(done)[k].0
                            &&& bytes@.subrange(s.start as int, s.end as int) == content_of(done)[k].1
                            &&& (s.start == 0 || bytes@[s.start - 1] == '\n' as u8)
                            &&& (s.end == bytes@.len() || bytes@[s.end as int] == '\n' as u8)
                        } by {
                            if k < old_r.len() {
                                assert(r@[k] == old_r[k]);
                            }
                        }
                    }
                }
            }
            number = number + 1;
            cur = i + 1;
            assert(bytes@.subrange(cur as int, i as int + 1) =~= Seq::<u8>::empty());
        } else {
            assert(bytes@.subrange(cur as int, i as int + 1) == bytes@.subrange(cur as int, i as int).push(
                bytes@[i as int],
            ));
        }
        i = i + 1;
    }
    let n = bytes.len();
    assert(bytes@.subrange(0, n as int) == bytes@);
    let keep = n > cur && !span_starts_with(bytes, cur, n, &comment);
    let ghost line = bytes@.subrange(cur as int, n as int);
    assert(keep == keep_line(line));
    let ghost old_r = r@;
    if keep {
        r.push(LineSpan { number, start: cur, end: n });
    }
    proof {
        let all = done.push(line);
        assert(all.drop_last() == done);
        assert(all.last() == line);
        assert(content_lines(bytes@) == content_of(all));
        if keep {
            assert forall|k: int| 0 <= k < r@.len() implies {
                let s = #[trigger] r@[k];
                &&& s.start <= s.end <= bytes@.len()
                &&& s.number == content_of(all)[k].0
                &&& bytes@.subrange(s.start as int, s.end as int) == content_of(all)[k].1
                &&& (s.start == 0 || bytes@[s.start - 1] == '\n' as u8)
                &&& (s.end == bytes@.len() || bytes@[s.end as int] == '\n' as u8)
            } by {
                if k < old_r.len() {
                    assert(r@[k] == old_r[k]);
                }
            }
        }
    }
    r
}

/// The colour that `bytes[a..b]` names.
pub fn color_in_span(bytes: &[u8], a: usize, b: usize) -> (c: Option<Color>)
    requires
        a <= b <= bytes@.len(),
    ensures
        c == color_named(bytes@.subrange(a as int, b as int)),
{
    let w: [u8; 3] = ['r' as u8, 'e' as u8, 'd' as u8];
    assert(w@ == seq!['r' as u8, 'e' as u8, 'd' as u8]);
    if span_eq(bytes, a, b, &w) {
        return Some(Color::Red);
    }
    let w: [u8; 4] = ['b' as u8, 'l' as u8, 'u' as u8, 'e' as u8];
    assert(w@ == seq!['b' as u8, 'l' as u8, 'u' as u8, 'e' as u8]);
    if span_eq(bytes, a, b, &w) {
        return Some(Color::Blue);
    }
    let w: [u8; 6] = ['y' as u8, 'e' as u8, 'l' as u8, 'l' as u8, 'o' as u8, 'w' as u8];
    assert(w@ == seq!['y' as u8, 'e' as u8, 'l' as u8, 'l' as u8, 'o' as u8, 'w' as u8]);
    if span_eq(bytes, a, b, &w) {
        return Some(Color::Yellow);
    }
    let w: [u8; 6] = ['p' as u8, 'u' as u8, 'r' as u8, 'p' as u8, 'l' as u8, 'e' as u8];
    assert(w@ == seq!['p' as u8, 'u' as u8, 'r' as u8, 'p' as u8, 'l' as u8, 'e' as u8]);
    if span_eq(bytes, a, b, &w) {
        return Some(Color::Purple);
    }
    let w: [u8; 5] = ['g' as u8, 'r' as u8, 'e' as u8, 'e' as u8, 'n' as u8];
    assert(w@ == seq!['g' as u8, 'r' as u8, 'e' as u8, 'e' as u8, 'n' as u8]);
    if span_eq(bytes, a, b, &w) {
        return Some(Color::Green);
    }
    let w: [u8; 6] = ['o' as u8, 'r' as u8, 'a' as u8, 'n' as u8, 'g' as u8, 'e' as u8];
    assert(w@ == seq!['o' as u8, 'r' as u8, 'a' as u8, 'n' as u8, 'g' as u8, 'e' as u8]);
    if span_eq(bytes, a, b, &w) {
        return Some(Color::Orange);
    }
    let w: [u8; 5] = ['b' as u8, 'r' as u8, 'o' as u8, 'w' as u8, 'n' as u8];
    assert(w@ == seq!['b' as u8, 'r' as u8, 'o' as u8, 'w' as u8, 'n' as u8]);
    if span_eq(bytes, a, b, &w) {
        return Some(Color::Brown);
    }
    None
}

/// The side that `bytes[a..b]` names.
pub fn dir_in_span(bytes: &[u8], a: usize, b: usize) -> (d: Option<u8>)
    requires
        a <= b <= bytes@.len(),
    ensures
        d == dir_named(bytes@.subrange(a as int, b as int)),
{
    let w: [u8; 2] = ['u' as u8, 'p' as u8];
    assert(w@ == seq!['u' as u8, 'p' as u8]);
    if span_eq(bytes, a, b, &w) {
        return Some(0u8);
    }
    let w: [u8; 5] = ['r' as u8, 'i' as u8, 'g' as u8, 'h' as u8, 't' as u8];
    assert(w@ == seq!['r' as u8, 'i' as u8, 'g' as u8, 'h' as u8, 't' as u8]);
    if span_eq(bytes, a, b, &w) {
        return Some(1u8);
    }
    let w: [u8; 4] = ['d' as u8, 'o' as u8, 'w' as u8, 'n' as u8];
    assert(w@ == seq!['d' as u8, 'o' as u8, 'w' as u8, 'n' as u8]);
    if span_eq(bytes, a, b, &w) {
        return Some(2u8);
    }
    let w: [u8; 4] = ['l' as u8, 'e' as u8, 'f' as u8, 't' as u8];
    assert(w@ == seq!['l' as u8, 'e' as u8, 'f' as u8, 't' as u8]);
    if span_eq(bytes, a, b, &w) {
        return Some(3u8);
    }
    None
}

/// The colour that `s` names: `red`, `blue`, `yellow`, `purple`, `green`,
/// `orange` or `brown`.
pub fn convert_string_to_color(s: &str) -> (c: Option<Color>)
    ensures
        c == color_named(s.spec_bytes()),
{
    let b = s.as_bytes();
    assert(b@.subrange(0, b@.len() as int) == b@);
    color_in_span(b, 0, b.len())
}

/// The side that `s` names: `up` 0, `right` 1, `down` 2, `left` 3.
pub fn convert_string_to_dir(s: &str) -> (d: Option<u8>)
    ensures
        d == dir_named(s.spec_bytes()),
{
    let b = s.as_bytes();
    assert(b@.subrange(0, b@.len() as int) == b@);
    dir_in_span(b, 0, b.len())
}

/// The colours that the comma-separated items of `bytes[a..b]` name, where
/// each names one.
fn colors_in_span(bytes: &[u8], a: usize, b: usize) -> (r: Option<Vec<Color>>)
    requires
        a <= b <= bytes@.len(),
    ensures
        match r {
            Some(v) => colors_named(split_on(bytes@.subrange(a as int, b as int), ',' as u8)) == Some(v@),
            None => colors_named(split_on(bytes@.subrange(a as int, b as int), ',' as u8)) is None,
        },
{
    let pieces = split_span(bytes, a, b, ',' as u8);
    let ghost ps = split_on(bytes@.subrange(a as int, b as int), ',' as u8);
    let mut v: Vec<Color> = Vec::new();
    let mut k: usize = 0;
    while k < pieces.len()
        invariant
            span_seqs(bytes@, pieces@) == ps,
            ps == split_on(bytes@.subrange(a as int, b as int), ',' as u8),
            forall|j: int| 0 <= j < pieces@.len() ==> {
                let (s, e) = #[trigger] pieces@[j];
                &&& a <= s <= e <= b
            },
            b <= bytes@.len(),
            0 <= k <= pieces@.len(),
            v@.len() == k,
            forall|j: int| 0 <= j < k ==> #[trigger] color_named(ps[j]) == Some(v@[j]),
        decreases pieces@.len() - k,
    {
        let (s, e) = pieces[k];
        assert(ps[k as int] == bytes@.subrange(s as int, e as int));
        match color_in_span(bytes, s, e) {
            None => {
                return None;
            },
            Some(c) => {
                v.push(c);
            },
        }
        k = k + 1;
    }
    assert(colors_named(ps) == Some(v@)) by {
        assert(Seq::new(ps.len(), |i: int| color_named(ps[i])->0) =~= v@);
    }
    Some(v)
}

/// The sides that the comma-separated items of `bytes[a..b]` name, where
/// each names one.
fn dirs_in_span(bytes: &[u8], a: usize, b: usize) -> (r: Option<Vec<u8>>)
    requires
        a <= b <= bytes@.len(),
    ensures
        match r {
            Some(v) => dirs_named(split_on(bytes@.subrange(a as int, b as int), ',' as u8)) == Some(v@),
            None => dirs_named(split_on(bytes@.subrange(a as int, b as int), ',' as u8)) is None,
        },
{
    let pieces = split_span(bytes, a, b, ',' as u8);
    let ghost ps = split_on(bytes@.subrange(a as int, b as int), ',' as u8);
    let mut v: Vec<u8> = Vec::new();
    let mut k: usize = 0;
    while k < pieces.len()
        invariant
            span_seqs(bytes@, pieces@) == ps,
            ps == split_on(bytes@.subrange(a as int, b as int), ',' as u8),
            forall|j: int| 0 <= j < pieces@.len() ==> {
                let (s, e) = #[trigger] pieces@[j];
                &&& a <= s <= e <= b
            },
            b <= bytes@.len(),
            0 <= k <= pieces@.len(),
            v@.len() == k,
            forall|j: int| 0 <= j < k ==> #[trigger] dir_named(ps[j]) == Some(v@[j]),
        decreases pieces@.len() - k,
    {
        let (s, e) = pieces[k];
        assert(ps[k as int] == bytes@.subrange(s as int, e as int));
        match dir_in_span(bytes, s, e) {
            None => {
                return None;
            },
            Some(d) => {
                v.push(d);
            },
        }
        k = k + 1;
    }
    assert(dirs_named(ps) == Some(v@)) by {
        assert(Seq::new(ps.len(), |i: int| dir_named(ps[i])->0) =~= v@);
    }
    Some(v)
}

/// The view of a result of tiles.
pub open spec fn tiles_result(r: Result<Vec<PositionedTile>, LevelsError>) -> Result<Seq<PositionedTileView>, LevelsError> {
    match r {
        Ok(v) => Ok(tiles_view(v@)),
        Err(e) => Err(e),
    }
}

/// Marks the sides listed in `ds`.
fn border_of(ds: &Vec<u8>) -> (r: [bool; 4])
    requires
        forall|i: int| 0 <= i < ds@.len() ==> #[trigger] ds@[i] < 4,
    ensures
        r@ == Seq::new(4, |s: int| ds@.contains(s as u8)),
{
    let mut border_state = [false, false, false, false];
    let mut k: usize = 0;
    while k < ds.len()
        invariant
            0 <= k <= ds@.len(),
            forall|i: int| 0 <= i < ds@.len() ==> #[trigger] ds@[i] < 4,
            border_state@.len() == 4,
            forall|s: int| 0 <= s < 4 ==> #[trigger] border_state@[s] == (exists|j: int| 0 <= j < k && ds@[j] == s as u8),
        decreases ds@.len() - k,
    {
        let d = ds[k];
        border_state[d as usize] = true;
        proof {
            assert forall|s: int| 0 <= s < 4 implies #[trigger] border_state@[s] == (exists|j: int| 0 <= j < k + 1 && ds@[j] == s as u8) by {
                if s == d as int {
                    assert(ds@[k as int] == s as u8);
                }
            }
        }
        k = k + 1;
    }
    proof {
        assert forall|s: int| 0 <= s < 4 implies #[trigger] border_state@[s] == ds@.contains(s as u8) by {
            if border_state@[s] {
                let j = choose|j: int| 0 <= j < k && ds@[j] == s as u8;
                assert(ds@[j] == s as u8);
            }
        }
    }
    assert(border_state@ =~= Seq::new(4, |s: int| ds@.contains(s as u8)));
    border_state
}

/// Rocks at the space-separated positions of `bytes[a..b]`.
fn rocks_in_span(bytes: &[u8], a: usize, b: usize) -> (r: Option<Vec<PositionedTile>>)
    requires
        a <= b <= bytes@.len(),
    ensures
        match r {
            Some(v) => rocks_at(split_on(bytes@.subrange(a as int, b as int), ' ' as u8)) == Some(tiles_view(v@)),
            None => rocks_at(split_on(bytes@.subrange(a as int, b as int), ' ' as u8)) is None,
        },
{
    let pieces = split_span(bytes, a, b, ' ' as u8);
    let ghost ps = split_on(bytes@.subrange(a as int, b as int), ' ' as u8);
    let mut v: Vec<PositionedTile> = Vec::new();
    let mut k: usize = 0;
    while k < pieces.len()
        invariant
            span_seqs(bytes@, pieces@) == ps,
            ps == split_on(bytes@.subrange(a as int, b as int), ' ' as u8),
            forall|j: int| 0 <= j < pieces@.len() ==> {
                let (s, e) = #[trigger] pieces@[j];
                &&& a <= s <= e <= b
            },
            b <= bytes@.len(),
            0 <= k <= pieces@.len(),
            v@.len() == k,
            forall|j: int| 0 <= j < k ==> #[trigger] digit_at(ps[j], 0) is Some && digit_at(ps[j], 2) is Some
                && v@[j]@ == (PositionedTileView {
                tile: TileView::Rock,
                x: digit_at(ps[j], 0)->0,
                y: digit_at(ps[j], 2)->0,
            }),
        decreases pieces@.len() - k,
    {
        let (s, e) = pieces[k];
        assert(ps[k as int] == bytes@.subrange(s as int, e as int));
        let x = match digit_in_span(bytes, s, e, 0) {
            None => {
                return None;
            },
            Some(x) => x,
        };
        let y = match digit_in_span(bytes, s, e, 2) {
            None => {
                return None;
            },
            Some(y) => y,
        };
        v.push(PositionedTile { tile: Tile::Rock(Rock::new()), x, y });
        k = k + 1;
    }
    assert(rocks_at(ps) == Some(tiles_view(v@))) by {
        assert(Seq::new(ps.len(), |i: int| PositionedTileView {
            tile: TileView::Rock,
            x: digit_at(ps[i], 0)->0,
            y: digit_at(ps[i], 2)->0,
        }) =~= tiles_view(v@));
    }
    Some(v)
}

/// The tiles that the line `bytes[start..end]`, numbered `number`, describes
/// (see `tile_line`).
fn parse_tile_line(bytes: &[u8], start: usize, end: usize, number: usize) -> (r: Result<Vec<PositionedTile>, LevelsError>)
    requires
        start <= end <= bytes@.len(),
    ensures
        tiles_result(r) == tile_line(bytes@.subrange(start as int, end as int), number as int),
{
    let ghost l = bytes@.subrange(start as int, end as int);
    let x = match digit_in_span(bytes, start, end, 2) {
        None => {
            return Err(LevelsError::InvalidX(number));
        },
        Some(x) => x,
    };
    let y = match digit_in_span(bytes, start, end, 4) {
        None => {
            return Err(LevelsError::InvalidY(number));
        },
        Some(y) => y,
    };
    let f = split_span(bytes, start, end, ' ' as u8);
    let ghost fs = split_on(l, ' ' as u8);
    let source: [u8; 2] = ['+' as u8, ' ' as u8];
    let sink: [u8; 2] = ['o' as u8, ' ' as u8];
    let rock: [u8; 2] = ['*' as u8, ' ' as u8];
    let painter: [u8; 2] = ['p' as u8, ' ' as u8];
    let splitter: [u8; 2] = ['s' as u8, ' ' as u8];
    assert(source@ == lit_kind('+'));
    assert(sink@ == lit_kind('o'));
    assert(rock@ == lit_kind('*'));
    assert(painter@ == lit_kind('p'));
    assert(splitter@ == lit_kind('s'));
    if span_starts_with(bytes, start, end, &source) {
        if f.len() != 4 {
            return Err(LevelsError::WrongSpaceCount(number));
        }
        assert(fs[2] == bytes@.subrange(f@[2].0 as int, f@[2].1 as int));
        assert(fs[3] == bytes@.subrange(f@[3].0 as int, f@[3].1 as int));
        let colors = match colors_in_span(bytes, f[2].0, f[2].1) {
            None => {
                return Err(LevelsError::InvalidColor(number));
            },
            Some(c) => c,
        };
        let dir = match dir_in_span(bytes, f[3].0, f[3].1) {
            None => {
                return Err(LevelsError::InvalidDirection(number));
            },
            Some(d) => d,
        };
        let mut v: Vec<PositionedTile> = Vec::new();
        v.push(PositionedTile { tile: Tile::Trainsource(Trainsource::new(colors, dir)), x, y });
        assert(tiles_view(v@) =~= tile_line(l, number as int)->Ok_0);
        return Ok(v);
    }
    if span_starts_with(bytes, start, end, &sink) {
        if f.len() != 4 {
            return Err(LevelsError::WrongSpaceCount(number));
        }
        assert(fs[2] == bytes@.subrange(f@[2].0 as int, f@[2].1 as int));
        assert(fs[3] == bytes@.subrange(f@[3].0 as int, f@[3].1 as int));
        let colors = match colors_in_span(bytes, f[2].0, f[2].1) {
            None => {
                return Err(LevelsError::InvalidColor(number));
            },
            Some(c) => c,
        };
        let dirs = match dirs_in_span(bytes, f[3].0, f[3].1) {
            None => {
                return Err(LevelsError::InvalidDirection(number));
            },
            Some(d) => d,
        };
        proof {
            let ps = split_on(fs[3], ',' as u8);
            assert forall|i: int| 0 <= i < dirs@.len() implies #[trigger] dirs@[i] < 4 by {
                assert(dirs@[i] == dir_named(ps[i])->0);
                assert(dir_named(ps[i]) is Some);
            }
        }
        let border_state = border_of(&dirs);
        let mut v: Vec<PositionedTile> = Vec::new();
        v.push(PositionedTile { tile: Tile::Trainsink(Trainsink::new(colors, border_state)), x, y });
        assert(tiles_view(v@) =~= tile_line(l, number as int)->Ok_0);
        return Ok(v);
    }
    if span_starts_with(bytes, start, end, &rock) {
        assert(bytes@.subrange(start + 2, end as int) == l.subrange(2, l.len() as int));
        return match rocks_in_span(bytes, start + 2, end) {
            None => Err(LevelsError::InvalidRockPosition(number)),
            Some(v) => Ok(v),
        };
    }
    if span_starts_with(bytes, start, end, &painter) {
        if f.len() != 4 {
            return Err(LevelsError::WrongSpaceCount(number));
        }
        assert(fs[2] == bytes@.subrange(f@[2].0 as int, f@[2].1 as int));
        assert(fs[3] == bytes@.subrange(f@[3].0 as int, f@[3].1 as int));
        let color = match color_in_span(bytes, f[2].0, f[2].1) {
            None => {
                return Err(LevelsError::InvalidColor(number));
            },
            Some(c) => c,
        };
        let dirs = match dirs_in_span(bytes, f[3].0, f[3].1) {
            None => {
                return Err(LevelsError::InvalidDirection(number));
            },
            Some(d) => d,
        };
        if dirs.len() != 2 {
            return Err(LevelsError::PainterNeedsTwoDirections(number));
        }
        let mut v: Vec<PositionedTile> = Vec::new();
        v.push(PositionedTile {
            tile: Tile::Painter(Painter::new(Connection { dir1: dirs[0], dir2: dirs[1] }, color)),
            x,
            y,
        });
        assert(tiles_view(v@) =~= tile_line(l, number as int)->Ok_0);
        return Ok(v);
    }
    if span_starts_with(bytes, start, end, &splitter) {
        if f.len() != 3 {
            return Err(LevelsError::WrongSpaceCount(number));
        }
        assert(fs[2] == bytes@.subrange(f@[2].0 as int, f@[2].1 as int));
        let dir = match dir_in_span(bytes, f[2].0, f[2].1) {
            None => {
                return Err(LevelsError::InvalidDirection(number));
            },
            Some(d) => d,
        };
        let mut v: Vec<PositionedTile> = Vec::new();
        v.push(PositionedTile { tile: Tile::Splitter(Splitter::new(dir)), x, y });
        assert(tiles_view(v@) =~= tile_line(l, number as int)->Ok_0);
        return Ok(v);
    }
    Err(LevelsError::InvalidLineStart(number))
}

/// `acc` followed by what `r` read.
pub open spec fn prepend_tiles(acc: Seq<PositionedTileView>, r: Result<(Seq<PositionedTileView>, int), LevelsError>) -> Result<(Seq<PositionedTileView>, int), LevelsError> {
    match r {
        Err(e) => Err(e),
        Ok((rest, j)) => Ok((acc + rest, j)),
    }
}

/// `acc` followed by what `r` read.
pub open spec fn prepend_levels(acc: Seq<LevelView>, r: Result<(Seq<LevelView>, int), LevelsError>) -> Result<(Seq<LevelView>, int), LevelsError> {
    match r {
        Err(e) => Err(e),
        Ok((rest, j)) => Ok((acc + rest, j)),
    }
}

/// `acc` followed by what `r` read.
pub open spec fn prepend_cities(acc: Seq<CityView>, r: Result<Seq<CityView>, LevelsError>) -> Result<Seq<CityView>, LevelsError> {
    match r {
        Err(e) => Err(e),
        Ok(rest) => Ok(acc + rest),
    }
}

impl LevelManager {
    /// Reads the tiles of a level from kept line `i` up to the line `---` that
    /// closes it; returns them with the index of the line after that one (see
    /// `tiles_from`).
    pub fn extract_level_from_lines(bytes: &[u8], lines: &Vec<LineSpan>, i: usize) -> (r: Result<(Vec<PositionedTile>, usize), LevelsError>)
        requires
            spans_match(bytes@, lines@, content_lines(bytes@)),
            i <= lines@.len(),
        ensures
            match r {
                Ok((v, j)) => tiles_from(content_lines(bytes@), i as int) == Ok::<(Seq<PositionedTileView>, int), LevelsError>((tiles_view(v@), j as int)),
                Err(e) => tiles_from(content_lines(bytes@), i as int) == Err::<(Seq<PositionedTileView>, int), LevelsError>(e),
            },
    {
        let ghost cl = content_lines(bytes@);
        let end_of_level: [u8; 3] = ['-' as u8, '-' as u8, '-' as u8];
        assert(end_of_level@ == lit_end_of_level());
        let mut acc: Vec<PositionedTile> = Vec::new();
        let mut k: usize = i;
        assert(tiles_from(cl, i as int) == prepend_tiles(tiles_view(acc@), tiles_from(cl, k as int))) by {
            match tiles_from(cl, i as int) {
                Ok((rest, j)) => {
                    assert(tiles_view(acc@) + rest =~= rest);
                },
                Err(_) => {},
            }
        }
        while k < lines.len()
            invariant
                spans_match(bytes@, lines@, cl),
                cl == content_lines(bytes@),
                end_of_level@ == lit_end_of_level(),
                i <= k <= lines@.len(),
                tiles_from(cl, i as int) == prepend_tiles(tiles_view(acc@), tiles_from(cl, k as int)),
            decreases lines@.len() - k,
        {
            let ln = lines[k];
            assert(ln == lines@[k as int]);
            if span_eq(bytes, ln.start, ln.end, &end_of_level) {
                assert(tiles_view(acc@) + Seq::empty() =~= tiles_view(acc@));
                return Ok((acc, k + 1));
            }
            match parse_tile_line(bytes, ln.start, ln.end, ln.number) {
                Err(e) => {
                    return Err(e);
                },
                Ok(t) => {
                    let ghost old_acc = acc@;
                    let mut t = t;
                    let ghost tv = tiles_view(t@);
                    acc.append(&mut t);
                    proof {
                        assert(tiles_view(acc@) =~= tiles_view(old_acc) + tv);
                        match tiles_from(cl, k + 1) {
                            Ok((rest, j)) => {
                                assert(tiles_view(old_acc) + (tv + rest) =~= tiles_view(acc@) + rest);
                            },
                            Err(_) => {},
                        }
                    }
                },
            }
            k = k + 1;
        }
        Err(LevelsError::UnexpectedEof)
    }
}

/// Reads the levels of a city from kept line `i` up to the line `----` that
/// closes it; returns them with the index of the line after that one (see
/// `levels_from`).
fn levels_of_city(text: &str, bytes: &[u8], lines: &Vec<LineSpan>, i: usize) -> (r: Result<(Vec<Level>, usize), LevelsError>)
    requires
        bytes@ == text.spec_bytes(),
        spans_match(bytes@, lines@, content_lines(bytes@)),
        i <= lines@.len(),
    ensures
        match r {
            Ok((v, j)) => levels_from(content_lines(bytes@), i as int) == Ok::<(Seq<LevelView>, int), LevelsError>((levels_view(v@), j as int)),
            Err(e) => levels_from(content_lines(bytes@), i as int) == Err::<(Seq<LevelView>, int), LevelsError>(e),
        },
{
    let ghost cl = content_lines(bytes@);
    let end_of_city: [u8; 4] = ['-' as u8, '-' as u8, '-' as u8, '-' as u8];
    assert(end_of_city@ == lit_end_of_city());
    let mut acc: Vec<Level> = Vec::new();
    let mut k: usize = i;
    assert(levels_from(cl, i as int) == prepend_levels(levels_view(acc@), levels_from(cl, k as int))) by {
        match levels_from(cl, i as int) {
            Ok((rest, j)) => {
                assert(levels_view(acc@) + rest =~= rest);
            },
            Err(_) => {},
        }
    }
    while k < lines.len()
        invariant
            bytes@ == text.spec_bytes(),
            spans_match(bytes@, lines@, cl),
            cl == content_lines(bytes@),
            end_of_city@ == lit_end_of_city(),
            i <= k <= lines@.len(),
            levels_from(cl, i as int) == prepend_levels(levels_view(acc@), levels_from(cl, k as int)),
        decreases lines@.len() - k,
    {
        let ln = lines[k];
        assert(ln == lines@[k as int]);
        if span_eq(bytes, ln.start, ln.end, &end_of_city) {
            assert(levels_view(acc@) + Seq::empty() =~= levels_view(acc@));
            return Ok((acc, k + 1));
        }
        let ghost l = bytes@.subrange(ln.start as int, ln.end as int);
        let fields = split_span(bytes, ln.start, ln.end, ':' as u8);
        if fields.len() != 2 {
            return Err(LevelsError::ExpectedTwoFields(ln.number));
        }
        let ghost fs = split_on(l, ':' as u8);
        assert(fs[0] == bytes@.subrange(fields@[0].0 as int, fields@[0].1 as int));
        assert(fs[1] == bytes@.subrange(fields@[1].0 as int, fields@[1].1 as int));
        let num_stars = match parse_u32_span(bytes, fields[1].0, fields[1].1) {
            None => {
                return Err(LevelsError::InvalidStarCount(ln.number));
            },
            Some(n) => n,
        };
        let (level_info, next) = match LevelManager::extract_level_from_lines(bytes, lines, k + 1) {
            Err(e) => {
                return Err(e);
            },
            Ok(p) => p,
        };
        proof {
            lemma_tiles_from_advances(cl, k + 1);
            assert(cut_point(bytes@, fields@[0].0 as int));
            assert(cut_point(bytes@, fields@[0].1 as int));
        }
        let name = cut_string(text, bytes, fields[0].0, fields[0].1);
        let level = Level { level_info, current_progress: (Vec::new(), false), name, num_stars };
        let ghost old_acc = acc@;
        proof {
            assert(level@.progress =~= Seq::<PositionedTileView>::empty());
        }
        acc.push(level);
        proof {
            assert(levels_view(acc@) =~= levels_view(old_acc) + seq![level@]);
            match levels_from(cl, next as int) {
                Ok((rest, j)) => {
                    assert(levels_view(old_acc) + (seq![level@] + rest) =~= levels_view(acc@) + rest);
                },
                Err(_) => {},
            }
        }
        k = next;
    }
    Err(LevelsError::UnexpectedEof)
}

impl LevelManager {
    /// Reads the level catalogue from its text (see `parse_levels_spec`):
    /// blank lines and lines that start with `//` are skipped; each city is a
    /// line `CITY:` and its name, then its levels, then a line `----`; each
    /// level is a line with its name and its star count around a `:`, then
    /// one line per tile or group of rocks, then a line `---`. The player has
    /// made no progress in any level.
    pub fn from_level_text(text: &str) -> (r: Result<LevelManager, LevelsError>)
        requires
            text.spec_bytes().len() < usize::MAX,
        ensures
            match r {
                Ok(lm) => parse_levels_spec(text.spec_bytes()) == Ok::<Seq<CityView>, LevelsError>(lm@),
                Err(e) => parse_levels_spec(text.spec_bytes()) == Err::<Seq<CityView>, LevelsError>(e),
            },
    {
        let bytes = text.as_bytes();
        let lines = content_line_spans(bytes);
        let ghost cl = content_lines(bytes@);
        let city: [u8; 5] = ['C' as u8, 'I' as u8, 'T' as u8, 'Y' as u8, ':' as u8];
        assert(city@ == lit_city());
        let mut acc: Vec<City> = Vec::new();
        let mut k: usize = 0;
        assert(cities_from(cl, 0) == prepend_cities(cities_view(acc@), cities_from(cl, k as int))) by {
            match cities_from(cl, 0) {
                Ok(rest) => {
                    assert(cities_view(acc@) + rest =~= rest);
                },
                Err(_) => {},
            }
        }
        while k < lines.len()
            invariant
                bytes@ == text.spec_bytes(),
                spans_match(bytes@, lines@, cl),
                cl == content_lines(bytes@),
                city@ == lit_city(),
                0 <= k <= lines@.len(),
                cities_from(cl, 0) == prepend_cities(cities_view(acc@), cities_from(cl, k as int)),
            decreases lines@.len() - k,
        {
            let ln = lines[k];
            assert(ln == lines@[k as int]);
            if !span_starts_with(bytes, ln.start, ln.end, &city) {
                return Err(LevelsError::ExpectedCity(ln.number));
            }
            let (levels, next) = match levels_of_city(text, bytes, &lines, k + 1) {
                Err(e) => {
                    return Err(e);
                },
                Ok(p) => p,
            };
            proof {
                lemma_levels_from_advances(cl, k + 1);
                assert(bytes@[ln.start + 4] == ':' as u8) by {
                    assert(bytes@.subrange(ln.start as int, ln.end as int).subrange(0, 5)[4] == city@[4]);
                }
                assert(cut_point(bytes@, ln.start + 5));
                assert(cut_point(bytes@, ln.end as int));
                let l = bytes@.subrange(ln.start as int, ln.end as int);
                assert(l.subrange(5, l.len() as int) == bytes@.subrange(ln.start + 5, ln.end as int));
            }
            let name = cut_string(text, bytes, ln.start + 5, ln.end);
            let c = City { name, levels };
            let ghost old_acc = acc@;
            acc.push(c);
            proof {
                assert(cities_view(acc@) =~= cities_view(old_acc) + seq![c@]);
                match cities_from(cl, next as int) {
                    Ok(rest) => {
                        assert(cities_view(old_acc) + (seq![c@] + rest) =~= cities_view(acc@) + rest);
                    },
                    Err(_) => {},
                }
            }
            k = next;
        }
        assert(cities_view(acc@) + Seq::empty() =~= cities_view(acc@));
        Ok(LevelManager(acc))
    }
}

/// The two strings hold the same characters.
pub fn same_text(a: &str, b: &str) -> (r: bool)
    ensures
        r == (a@ == b@),
{
    let ab = a.as_bytes();
    let bb = b.as_bytes();
    let r = span_eq(ab, 0, ab.len(), bb);
    proof {
        assert(ab@.subrange(0, ab@.len() as int) == ab@);
        encode_utf8_decode_utf8(a@);
        encode_utf8_decode_utf8(b@);
    }
    r
}

fn copy_vec<T: Copy>(v: &Vec<T>) -> (r: Vec<T>)
    ensures
        r@ == v@,
{
    let mut r: Vec<T> = Vec::new();
    let mut i: usize = 0;
    while i < v.len()
        invariant
            0 <= i <= v@.len(),
            r@ == v@.subrange(0, i as int),
        decreases v@.len() - i,
    {
        r.push(v[i]);
        i = i + 1;
        assert(r@ == v@.subrange(0, i as int));
    }
    assert(v@.subrange(0, v@.len() as int) == v@);
    r
}

impl Tile {
    /// A copy of the tile.
    pub fn copy(&self) -> (t: Tile)
        ensures
            t@ == self@,
    {
        match self {
            Tile::Tracktile(t) => Tile::Tracktile(Tracktile {
                active_connection: t.active_connection,
                passive_connection: t.passive_connection,
                trains: copy_vec(&t.trains),
            }),
            Tile::Trainsource(s) => Tile::Trainsource(Trainsource { colors: copy_vec(&s.colors), dir: s.dir }),
            Tile::Trainsink(s) => Tile::Trainsink(Trainsink { colors: copy_vec(&s.colors), border_state: s.border_state }),
            Tile::Rock(r) => Tile::Rock(*r),
            Tile::Painter(p) => Tile::Painter(*p),
            Tile::Splitter(s) => Tile::Splitter(*s),
        }
    }
}

/// A copy of the tiles.
pub fn copy_tiles(v: &Vec<PositionedTile>) -> (r: Vec<PositionedTile>)
    ensures
        tiles_view(r@) == tiles_view(v@),
{
    let mut r: Vec<PositionedTile> = Vec::new();
    let mut i: usize = 0;
    while i < v.len()
        invariant
            0 <= i <= v@.len(),
            tiles_view(r@) == tiles_view(v@.subrange(0, i as int)),
        decreases v@.len() - i,
    {
        let t = PositionedTile { tile: v[i].tile.copy(), x: v[i].x, y: v[i].y };
        assert(t@ == v@[i as int]@);
        let ghost old_r = r@;
        r.push(t);
        assert(tiles_view(r@) =~= tiles_view(old_r).push(t@));
        assert(tiles_view(v@.subrange(0, i + 1)) =~= tiles_view(v@.subrange(0, i as int)).push(v@[i as int]@));
        i = i + 1;
    }
    assert(v@.subrange(0, v@.len() as int) == v@);
    r
}

/// `i` is the first of the cities `cs` named `name`.
pub open spec fn is_first_city(cs: Seq<CityView>, i: int, name: Seq<char>) -> bool {
    &&& 0 <= i < cs.len()
    &&& cs[i].name == name
    &&& forall|j: int| 0 <= j < i ==> (#[trigger] cs[j]).name != name
}

/// The first city named `name`.
pub open spec fn city_index(cs: Seq<CityView>, name: Seq<char>) -> int {
    choose|i: int| is_first_city(cs, i, name)
}

/// Some level of some city is named `name`.
pub open spec fn has_level(cs: Seq<CityView>, name: Seq<char>) -> bool {
    exists|c: int, l: int| 0 <= c < cs.len() && 0 <= l < cs[c].levels.len() && #[trigger] cs[c].levels[l].name == name
}

/// Level `l` of city `c` is the first level named `name`, taking the cities
/// in order and the levels of each in order.
pub open spec fn is_first_level(cs: Seq<CityView>, c: int, l: int, name: Seq<char>) -> bool {
    &&& 0 <= c < cs.len()
    &&& 0 <= l < cs[c].levels.len()
    &&& cs[c].levels[l].name == name
    &&& forall|c2: int, l2: int| 0 <= c2 < c && 0 <= l2 < cs[c2].levels.len() ==> #[trigger] cs[c2].levels[l2].name != name
    &&& forall|l2: int| 0 <= l2 < l ==> #[trigger] cs[c].levels[l2].name != name
}

/// Where the first level named `name` is: its city and its place there.
pub open spec fn level_position(cs: Seq<CityView>, name: Seq<char>) -> (int, int) {
    choose|c: int, l: int| is_first_level(cs, c, l, name)
}

/// The cities with the progress of level `l` of city `c` replaced.
pub open spec fn with_progress(cs: Seq<CityView>, c: int, l: int, tiles: Seq<PositionedTileView>, won: bool) -> Seq<CityView> {
    let level = cs[c].levels[l];
    cs.update(c, CityView {
        name: cs[c].name,
        levels: cs[c].levels.update(l, LevelView {
            name: level.name,
            num_stars: level.num_stars,
            level_info: level.level_info,
            progress: tiles,
            won,
        }),
    })
}

impl LevelManager {
    /// The names of the cities, in order.
    pub fn get_city_names(&self) -> (names: Vec<String>)
        ensures
            names@.len() == self@.len(),
            forall|i: int| 0 <= i < names@.len() ==> (#[trigger] names@[i])@ == self@[i].name,
    {
        let mut names: Vec<String> = Vec::new();
        let mut i: usize = 0;
        while i < self.0.len()
            invariant
                0 <= i <= self.0@.len(),
                names@.len() == i,
                forall|j: int| 0 <= j < i ==> (#[trigger] names@[j])@ == self@[j].name,
            decreases self.0@.len() - i,
        {
            names.push(self.0[i].name.clone());
            i = i + 1;
        }
        names
    }

    fn find_city(&self, city_name: &str) -> (i: usize)
        requires
            exists|i: int| 0 <= i < self@.len() && (#[trigger] self@[i]).name == city_name@,
        ensures
            is_first_city(self@, i as int, city_name@),
            i == city_index(self@, city_name@),
    {
        let mut i: usize = 0;
        while i < self.0.len()
            invariant
                0 <= i <= self.0@.len(),
                exists|i: int| 0 <= i < self@.len() && (#[trigger] self@[i]).name == city_name@,
                forall|j: int| 0 <= j < i ==> (#[trigger] self@[j]).name != city_name@,
            decreases self.0@.len() - i,
        {
            if same_text(self.0[i].name.as_str(), city_name) {
                proof {
                    let k = city_index(self@, city_name@);
                    assert(is_first_city(self@, i as int, city_name@));
                    if k < i {
                        assert(self@[k].name != city_name@);
                    } else if k > i {
                        assert(self@[i as int].name != city_name@);
                    }
                }
                return i;
            }
            i = i + 1;
        }
        proof {
            let k = choose|k: int| 0 <= k < self@.len() && (#[trigger] self@[k]).name == city_name@;
            assert(self@[k].name != city_name@);
        }
        0
    }

    /// The names of the levels of the first city named `city_name`, in
    /// order.
    pub fn get_names_in_city(&self, city_name: &str) -> (names: Vec<String>)
        requires
            exists|i: int| 0 <= i < self@.len() && (#[trigger] self@[i]).name == city_name@,
        ensures
            names@.len() == self@[city_index(self@, city_name@)].levels.len(),
            forall|k: int| 0 <= k < names@.len() ==> (#[trigger] names@[k])@
                == self@[city_index(self@, city_name@)].levels[k].name,
    {
        let c = self.find_city(city_name);
        let city = &self.0[c];
        let mut names: Vec<String> = Vec::new();
        let mut k: usize = 0;
        while k < city.levels.len()
            invariant
                0 <= k <= city.levels@.len(),
                city@ == self@[c as int],
                names@.len() == k,
                forall|j: int| 0 <= j < k ==> (#[trigger] names@[j])@ == city@.levels[j].name,
            decreases city.levels@.len() - k,
        {
            names.push(city.levels[k].name.clone());
            k = k + 1;
        }
        names
    }

    fn find_level(&self, level_name: &str) -> (pos: (usize, usize))
        requires
            has_level(self@, level_name@),
        ensures
            is_first_level(self@, pos.0 as int, pos.1 as int, level_name@),
            (pos.0 as int, pos.1 as int) == level_position(self@, level_name@),
    {
        let mut c: usize = 0;
        while c < self.0.len()
            invariant
                0 <= c <= self.0@.len(),
                has_level(self@, level_name@),
                forall|c2: int, l2: int| 0 <= c2 < c && 0 <= l2 < self@[c2].levels.len() ==> #[trigger] self@[c2].levels[l2].name != level_name@,
            decreases self.0@.len() - c,
        {
            let levels = &self.0[c].levels;
            let mut l: usize = 0;
            while l < levels.len()
                invariant
                    0 <= c < self.0@.len(),
                    *levels == self.0@[c as int].levels,
                    0 <= l <= levels@.len(),
                    forall|c2: int, l2: int| 0 <= c2 < c && 0 <= l2 < self@[c2].levels.len() ==> #[trigger] self@[c2].levels[l2].name != level_name@,
                    forall|l2: int| 0 <= l2 < l ==> #[trigger] self@[c as int].levels[l2].name != level_name@,
                decreases levels@.len() - l,
            {
                if same_text(levels[l].name.as_str(), level_name) {
                    proof {
                        assert(is_first_level(self@, c as int, l as int, level_name@));
                        let (c3, l3) = level_position(self@, level_name@);
                        assert(is_first_level(self@, c3, l3, level_name@));
                        if c3 < c {
                            assert(self@[c3].levels[l3].name != level_name@);
                        } else if c3 > c {
                            assert(self@[c as int].levels[l as int].name != level_name@);
                        } else if l3 < l {
                            assert(self@[c as int].levels[l3].name != level_name@);
                        } else if l3 > l {
                            assert(self@[c as int].levels[l as int].name != level_name@);
                        }
                    }
                    return (c, l);
                }
                l = l + 1;
            }
            c = c + 1;
        }
        proof {
            let (c2, l2) = choose|c2: int, l2: int| 0 <= c2 < self@.len() && 0 <= l2 < self@[c2].levels.len() && #[trigger] self@[c2].levels[l2].name == level_name@;
            assert(self@[c2].levels[l2].name != level_name@);
        }
        (0, 0)
    }

    /// The first level named `level_name`, taking the cities in order and
    /// the levels of each in order.
    pub fn get_level(&self, level_name: &str) -> (level: &Level)
        requires
            has_level(self@, level_name@),
        ensures
            level@ == self@[level_position(self@, level_name@).0].levels[level_position(self@, level_name@).1],
    {
        let (c, l) = self.find_level(level_name);
        &self.0[c].levels[l]
    }

    /// Records the player's progress in the first level named `level_name`:
    /// a copy of `progress` replaces the level's progress; nothing else
    /// changes.
    pub fn set_level_current_progress(&mut self, level_name: &str, progress: &LevelProgress)
        requires
            has_level(old(self)@, level_name@),
        ensures
            final(self)@ == with_progress(
                old(self)@,
                level_position(old(self)@, level_name@).0,
                level_position(old(self)@, level_name@).1,
                tiles_view(progress.0@),
                progress.1,
            ),
    {
        let (c, l) = self.find_level(level_name);
        let copy = (copy_tiles(&progress.0), progress.1);
        let ghost old_view = self@;
        self.0[c].levels[l].current_progress = copy;
        proof {
            let w = with_progress(old_view, c as int, l as int, tiles_view(progress.0@), progress.1);
            assert(levels_view(self.0@[c as int].levels@) =~= w[c as int].levels);
            assert(self@ =~= w);
        }
    }
}

/// After the progress of the first level named `name` is recorded, that
/// level is still the first so named, and reading it gives back the recorded
/// progress with its name, stars and board unchanged; every other level and
/// every city name is as it was.
pub proof fn law_progress_read_back(cs: Seq<CityView>, name: Seq<char>, tiles: Seq<PositionedTileView>, won: bool)
    requires
        has_level(cs, name),
    ensures
        ({
            let (c, l) = level_position(cs, name);
            let cs2 = with_progress(cs, c, l, tiles, won);
            &&& has_level(cs2, name)
            &&& level_position(cs2, name) == (c, l)
            &&& cs2[c].levels[l].progress == tiles
            &&& cs2[c].levels[l].won == won
            &&& cs2[c].levels[l].name == cs[c].levels[l].name
            &&& cs2[c].levels[l].num_stars == cs[c].levels[l].num_stars
            &&& cs2[c].levels[l].level_info == cs[c].levels[l].level_info
            &&& cs2.len() == cs.len()
            &&& forall|c2: int| 0 <= c2 < cs.len() ==> (#[trigger] cs2[c2]).name == cs[c2].name
                && cs2[c2].levels.len() == cs[c2].levels.len()
            &&& forall|c2: int, l2: int| 0 <= c2 < cs.len() && 0 <= l2 < cs[c2].levels.len() && (c2, l2) != (c, l)
                ==> #[trigger] cs2[c2].levels[l2] == cs[c2].levels[l2]
        }),
{
    let (c0, l0) = choose|c: int, l: int| 0 <= c < cs.len() && 0 <= l < cs[c].levels.len() && #[trigger] cs[c].levels[l].name == name;
    lemma_first_level_exists(cs, name, c0, l0);
    let (c, l) = level_position(cs, name);
    assert(is_first_level(cs, c, l, name));
    let cs2 = with_progress(cs, c, l, tiles, won);
    assert(cs2[c].levels[l].name == name);
    assert(is_first_level(cs2, c, l, name)) by {
        assert forall|c2: int, l2: int| 0 <= c2 < c && 0 <= l2 < cs2[c2].levels.len() implies #[trigger] cs2[c2].levels[l2].name
            != name by {
            assert(cs2[c2] == cs[c2]);
            assert(cs[c2].levels[l2].name != name);
        }
        assert forall|l2: int| 0 <= l2 < l implies #[trigger] cs2[c].levels[l2].name != name by {
            assert(cs[c].levels[l2].name != name);
        }
    }
    let (c3, l3) = level_position(cs2, name);
    assert(is_first_level(cs2, c3, l3, name));
    if c3 < c {
        assert(cs2[c3].levels[l3].name != name);
    } else if c3 > c {
        assert(cs2[c].levels[l].name != name);
    } else if l3 < l {
        assert(cs2[c].levels[l3].name != name);
    } else if l3 > l {
        assert(cs2[c].levels[l].name != name);
    }
}

proof fn lemma_first_level_exists(cs: Seq<CityView>, name: Seq<char>, c: int, l: int)
    requires
        0 <= c < cs.len(),
        0 <= l < cs[c].levels.len(),
        cs[c].levels[l].name == name,
    ensures
        exists|c2: int, l2: int| is_first_level(cs, c2, l2, name),
    decreases c, l,
{
    if exists|c2: int, l2: int| 0 <= c2 < c && 0 <= l2 < cs[c2].levels.len() && #[trigger] cs[c2].levels[l2].name == name {
        let (c2, l2) = choose|c2: int, l2: int| 0 <= c2 < c && 0 <= l2 < cs[c2].levels.len() && #[trigger] cs[c2].levels[l2].name == name;
        lemma_first_level_exists(cs, name, c2, l2);
    } else if exists|l2: int| 0 <= l2 < l && #[trigger] cs[c].levels[l2].name == name {
        let l2 = choose|l2: int| 0 <= l2 < l && #[trigger] cs[c].levels[l2].name == name;
        lemma_first_level_exists(cs, name, c, l2);
    } else {
        assert(is_first_level(cs, c, l, name));
    }
}

/// No level of the cities has progress recorded.
pub open spec fn all_fresh(cs: Seq<CityView>) -> bool {
    forall|c: int, l: int| 0 <= c < cs.len() && 0 <= l < cs[c].levels.len() ==> (#[trigger] cs[c].levels[l]).progress.len()
        == 0 && !cs[c].levels[l].won
}

proof fn lemma_levels_from_fresh(ls: Seq<(int, Seq<u8>)>, i: int)
    ensures
        levels_from(ls, i) matches Ok((lv, _)) ==> forall|k: int| 0 <= k < lv.len() ==> (#[trigger] lv[k]).progress.len() == 0
            && !lv[k].won,
    decreases ls.len() - i,
{
    if 0 <= i < ls.len() && ls[i].1 != lit_end_of_city() {
        lemma_tiles_from_advances(ls, i + 1);
        if let Ok((_, j)) = tiles_from(ls, i + 1) {
            lemma_levels_from_fresh(ls, j);
        }
    }
}

proof fn lemma_cities_from_fresh(ls: Seq<(int, Seq<u8>)>, i: int)
    ensures
        cities_from(ls, i) matches Ok(cs) ==> all_fresh(cs),
    decreases ls.len() - i,
{
    if 0 <= i < ls.len() && starts_with(ls[i].1, lit_city()) {
        lemma_levels_from_fresh(ls, i + 1);
        lemma_levels_from_advances(ls, i + 1);
        if let Ok((lv, j)) = levels_from(ls, i + 1) {
            lemma_cities_from_fresh(ls, j);
            if let Ok(rest) = cities_from(ls, j) {
                let all = seq![CityView { name: decode_utf8(ls[i].1.subrange(5, ls[i].1.len() as int)), levels: lv }] + rest;
                assert forall|c: int, l: int| 0 <= c < all.len() && 0 <= l < all[c].levels.len() implies (#[trigger] all[c].levels[l]).progress.len()
                    == 0 && !all[c].levels[l].won by {
                    if c > 0 {
                        assert(all[c] == rest[c - 1]);
                    }
                }
            }
        }
    }
}

/// A catalogue read from text starts with no progress in any level.
pub proof fn law_parsed_levels_fresh(text: Seq<u8>)
    ensures
        parse_levels_spec(text) matches Ok(cs) ==> all_fresh(cs),
{
    lemma_cities_from_fresh(content_lines(text), 0);
}

proof fn lemma_kind_of_line(l: Seq<u8>, k: char)
    requires
        l.len() >= 2,
        l[1] == ' ' as u8,
    ensures
        starts_with(l, lit_kind(k)) <==> l[0] == k as u8,
{
    if l[0] == k as u8 {
        assert(l.subrange(0, 2) =~= lit_kind(k));
    } else {
        assert(l.subrange(0, 2)[0] != lit_kind(k)[0]);
    }
}

/// Each position `c,r` of a rock line `* c,r c,r ...` gives, in order, a
/// rock whose column is the digit at the position's first byte and whose row
/// is the digit at its third byte.
pub proof fn law_rock_positions(l: Seq<u8>, n: int)
    requires
        l.len() >= 2,
        l[0] == '*' as u8,
        l[1] == ' ' as u8,
        tile_line(l, n) is Ok,
    ensures
        ({
            let ts = tile_line(l, n)->Ok_0;
            let ps = split_on(l.subrange(2, l.len() as int), ' ' as u8);
            &&& ts.len() == ps.len()
            &&& forall|k: int| 0 <= k < ps.len() ==> {
                &&& ps[k].len() >= 3
                &&& '0' as u8 <= ps[k][0] <= '9' as u8
                &&& '0' as u8 <= ps[k][2] <= '9' as u8
                &&& #[trigger] ts[k] == PositionedTileView {
                    tile: TileView::Rock,
                    x: (ps[k][0] - '0' as u8) as u8,
                    y: (ps[k][2] - '0' as u8) as u8,
                }
            }
        }),
{
    lemma_kind_of_line(l, '+');
    lemma_kind_of_line(l, 'o');
    lemma_kind_of_line(l, '*');
    let ps = split_on(l.subrange(2, l.len() as int), ' ' as u8);
    let ts = tile_line(l, n)->Ok_0;
    assert(ts == rocks_at(ps)->0);
    assert forall|k: int| 0 <= k < ps.len() implies {
        &&& ps[k].len() >= 3
        &&& '0' as u8 <= ps[k][0] <= '9' as u8
        &&& '0' as u8 <= ps[k][2] <= '9' as u8
        &&& #[trigger] ts[k] == PositionedTileView {
            tile: TileView::Rock,
            x: (ps[k][0] - '0' as u8) as u8,
            y: (ps[k][2] - '0' as u8) as u8,
        }
    } by {
        assert(digit_at(ps[k], 0) is Some && digit_at(ps[k], 2) is Some);
    }
}

/// A train source line `+ x,y c1,...,cn d` gives one source whose colours are
/// exactly the n colours named in its third field, in order, and whose side
/// is the one named in its fourth field.
pub proof fn law_source_colors(l: Seq<u8>, n: int)
    requires
        l.len() >= 2,
        l[0] == '+' as u8,
        l[1] == ' ' as u8,
        tile_line(l, n) is Ok,
    ensures
        ({
            let ts = tile_line(l, n)->Ok_0;
            let f = split_on(l, ' ' as u8);
            let cs = split_on(f[2], ',' as u8);
            &&& f.len() == 4
            &&& ts.len() == 1
            &&& ts[0].tile matches TileView::Source { colors, dir } && colors.len() == cs.len() && (forall|k: int|
                0 <= k < cs.len() ==> #[trigger] color_named(cs[k]) == Some(colors[k])) && dir_named(f[3]) == Some(dir)
        }),
{
    lemma_kind_of_line(l, '+');
}

/// A train sink line `o x,y c1,...,cn d1,...,dm` gives one sink whose
/// colours are exactly the n colours named in its third field, in order (the
/// list a source line with that field gets), and whose open sides are exactly
/// the sides named in its fourth field.
pub proof fn law_sink_colors(l: Seq<u8>, n: int)
    requires
        l.len() >= 2,
        l[0] == 'o' as u8,
        l[1] == ' ' as u8,
        tile_line(l, n) is Ok,
    ensures
        ({
            let ts = tile_line(l, n)->Ok_0;
            let f = split_on(l, ' ' as u8);
            let cs = split_on(f[2], ',' as u8);
            let ds = split_on(f[3], ',' as u8);
            &&& f.len() == 4
            &&& ts.len() == 1
            &&& ts[0].tile matches TileView::Sink { colors, border } && colors.len() == cs.len() && (forall|k: int|
                0 <= k < cs.len() ==> #[trigger] color_named(cs[k]) == Some(colors[k])) && border.len() == 4 && (
            forall|s: int| 0 <= s < 4 ==> #[trigger] border[s] == exists|k: int| 0 <= k < ds.len() && #[trigger] dir_named(ds[k]) == Some(s as u8))
        }),
{
    lemma_kind_of_line(l, '+');
    lemma_kind_of_line(l, 'o');
    let f = split_on(l, ' ' as u8);
    let ds = split_on(f[3], ',' as u8);
    let dv = dirs_named(ds)->0;
    let ts = tile_line(l, n)->Ok_0;
    assert forall|s: int| 0 <= s < 4 implies #[trigger] dv.contains(s as u8) == exists|k: int| 0 <= k < ds.len()
        && #[trigger] dir_named(ds[k]) == Some(s as u8) by {
        if dv.contains(s as u8) {
            let k = choose|k: int| 0 <= k < dv.len() && dv[k] == s as u8;
            assert(dir_named(ds[k]) is Some);
        }
        if exists|k: int| 0 <= k < ds.len() && #[trigger] dir_named(ds[k]) == Some(s as u8) {
            let k = choose|k: int| 0 <= k < ds.len() && #[trigger] dir_named(ds[k]) == Some(s as u8);
            assert(dv[k] == s as u8);
        }
    }
}

/// A line for a single tile (`+`, `o`, `p` or `s`) gives one tile, placed at
/// the column written at its third byte and the row written at its fifth.
/// A painter `p x,y c d1,d2` paints colour `c` on the track from side `d1` to
/// side `d2`; a splitter `s x,y d` faces side `d`.
pub proof fn law_single_tile_lines(l: Seq<u8>, n: int)
    requires
        l.len() >= 2,
        l[0] == '+' as u8 || l[0] == 'o' as u8 || l[0] == 'p' as u8 || l[0] == 's' as u8,
        l[1] == ' ' as u8,
        tile_line(l, n) is Ok,
    ensures
        ({
            let ts = tile_line(l, n)->Ok_0;
            let f = split_on(l, ' ' as u8);
            &&& l.len() >= 5
            &&& '0' as u8 <= l[2] <= '9' as u8
            &&& '0' as u8 <= l[4] <= '9' as u8
            &&& ts.len() == 1
            &&& ts[0].x == (l[2] - '0' as u8) as u8
            &&& ts[0].y == (l[4] - '0' as u8) as u8
            &&& l[0] == 'p' as u8 ==> {
                let ds = split_on(f[3], ',' as u8);
                &&& f.len() == 4
                &&& ds.len() == 2
                &&& ts[0].tile matches TileView::Painter { connection, color } && color_named(f[2]) == Some(color)
                    && dir_named(ds[0]) == Some(connection.dir1) && dir_named(ds[1]) == Some(connection.dir2)
            }
            &&& l[0] == 's' as u8 ==> {
                &&& f.len() == 3
                &&& ts[0].tile matches TileView::Splitter { dir } && dir_named(f[2]) == Some(dir)
            }
        }),
{
    lemma_kind_of_line(l, '+');
    lemma_kind_of_line(l, 'o');
    lemma_kind_of_line(l, '*');
    lemma_kind_of_line(l, 'p');
    lemma_kind_of_line(l, 's');
}

/// Lines `i` to `j` (excluded) of `ls` each describe tiles, and none closes
/// the level.
pub open spec fn tile_lines_between(ls: Seq<(int, Seq<u8>)>, i: int, j: int) -> bool {
    &&& 0 <= i <= j <= ls.len()
    &&& forall|m: int| i <= m < j ==> (#[trigger] ls[m]).1 != lit_end_of_level() && tile_line(ls[m].1, ls[m].0) is Ok
}

/// A level whose tile lines `i` to `j` (excluded) are followed by the line
/// `---` at `j` holds the tiles of those lines, each line's tiles together
/// and the lines in their order, and reading goes on after the `---`. Where
/// a line before the `---` is refused, the first refused line's error is the
/// level's.
pub proof fn law_level_tiles_in_line_order(ls: Seq<(int, Seq<u8>)>, i: int, j: int)
    requires
        tile_lines_between(ls, i, j),
    ensures
        j < ls.len() && ls[j].1 == lit_end_of_level() ==> tiles_from(ls, i) == Ok::<_, LevelsError>((
            Seq::new((j - i) as nat, |m: int| tile_line(ls[i + m].1, ls[i + m].0)->Ok_0).flatten(),
            j + 1,
        )),
        j < ls.len() && ls[j].1 != lit_end_of_level() && tile_line(ls[j].1, ls[j].0) is Err ==> tiles_from(ls, i)
            == Err::<(Seq<PositionedTileView>, int), LevelsError>(tile_line(ls[j].1, ls[j].0)->Err_0),
    decreases j - i,
{
    let lines = Seq::new((j - i) as nat, |m: int| tile_line(ls[i + m].1, ls[i + m].0)->Ok_0);
    if i < j {
        law_level_tiles_in_line_order(ls, i + 1, j);
        let rest = Seq::new((j - i - 1) as nat, |m: int| tile_line(ls[i + 1 + m].1, ls[i + 1 + m].0)->Ok_0);
        assert(lines.drop_first() =~= rest);
        assert(lines.first() == tile_line(ls[i].1, ls[i].0)->Ok_0);
        assert(ls[i].1 != lit_end_of_level());
    } else {
        assert(lines.len() == 0);
    }
}

} // verus!
