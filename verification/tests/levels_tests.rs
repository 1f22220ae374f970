use trainyard::color::Color;
use trainyard::connection::Connection;
use trainyard::levels::{convert_string_to_color, convert_string_to_dir, LevelManager, LevelsError, PositionedTile};
use trainyard::tiles::Tile;
use trainyard::tracktile::Tracktile;

const CATALOGUE: &str = "// the levels of the game
CITY:Abbotsford

Lesson 1:1
+ 0,0 red right
o 4,0 red left
---
Mixing:3
+ 0,1 red,blue down
o 0,6 purple up,left
* 1,1 2,2
p 3,3 green up,down
s 5,5 left
---
----
CITY:Zürich
Empty:+0
---
----
";

fn parse(text: &str) -> Result<LevelManager, LevelsError> {
    LevelManager::from_level_text(text)
}

#[test]
fn convert_colors() {
    assert_eq!(convert_string_to_color("red"), Some(Color::Red));
    assert_eq!(convert_string_to_color("blue"), Some(Color::Blue));
    assert_eq!(convert_string_to_color("yellow"), Some(Color::Yellow));
    assert_eq!(convert_string_to_color("purple"), Some(Color::Purple));
    assert_eq!(convert_string_to_color("green"), Some(Color::Green));
    assert_eq!(convert_string_to_color("orange"), Some(Color::Orange));
    assert_eq!(convert_string_to_color("brown"), Some(Color::Brown));
    assert_eq!(convert_string_to_color("Red"), None);
    assert_eq!(convert_string_to_color(""), None);
    assert_eq!(convert_string_to_color("reds"), None);
}

#[test]
fn convert_dirs() {
    assert_eq!(convert_string_to_dir("up"), Some(0));
    assert_eq!(convert_string_to_dir("right"), Some(1));
    assert_eq!(convert_string_to_dir("down"), Some(2));
    assert_eq!(convert_string_to_dir("left"), Some(3));
    assert_eq!(convert_string_to_dir("north"), None);
    assert_eq!(convert_string_to_dir(""), None);
}

#[test]
fn parse_catalogue_cities_and_levels() {
    let lm = parse(CATALOGUE).unwrap();
    assert_eq!(lm.get_city_names(), vec!["Abbotsford".to_string(), "Zürich".to_string()]);
    assert_eq!(lm.get_names_in_city("Abbotsford"), vec!["Lesson 1".to_string(), "Mixing".to_string()]);
    assert_eq!(lm.get_names_in_city("Zürich"), vec!["Empty".to_string()]);
    assert_eq!(lm.get_level("Lesson 1").num_stars, 1);
    assert_eq!(lm.get_level("Mixing").num_stars, 3);
    assert_eq!(lm.get_level("Empty").num_stars, 0);
    assert!(lm.get_level("Empty").level_info.is_empty());
}

#[test]
fn parse_catalogue_tiles() {
    let lm = parse(CATALOGUE).unwrap();
    let level = lm.get_level("Mixing");
    let tiles = &level.level_info;
    assert_eq!(tiles.len(), 6);
    match &tiles[0].tile {
        Tile::Trainsource(s) => {
            assert_eq!(s.colors, vec![Color::Red, Color::Blue]);
            assert_eq!(s.dir, 2);
        },
        _ => panic!("expected a train source"),
    }
    assert_eq!((tiles[0].x, tiles[0].y), (0, 1));
    match &tiles[1].tile {
        Tile::Trainsink(s) => {
            assert_eq!(s.colors, vec![Color::Purple]);
            assert_eq!(s.border_state, [true, false, false, true]);
        },
        _ => panic!("expected a train sink"),
    }
    assert_eq!((tiles[1].x, tiles[1].y), (0, 6));
    assert!(matches!(tiles[2].tile, Tile::Rock(_)));
    assert_eq!((tiles[2].x, tiles[2].y), (1, 1));
    assert!(matches!(tiles[3].tile, Tile::Rock(_)));
    assert_eq!((tiles[3].x, tiles[3].y), (2, 2));
    match &tiles[4].tile {
        Tile::Painter(p) => {
            assert_eq!((p.connection.dir1, p.connection.dir2), (0, 2));
            assert_eq!(p.color, Color::Green);
        },
        _ => panic!("expected a painter"),
    }
    assert_eq!((tiles[4].x, tiles[4].y), (3, 3));
    match &tiles[5].tile {
        Tile::Splitter(s) => assert_eq!(s.dir, 3),
        _ => panic!("expected a splitter"),
    }
    assert_eq!((tiles[5].x, tiles[5].y), (5, 5));
}

#[test]
fn parsed_levels_have_no_progress() {
    let lm = parse(CATALOGUE).unwrap();
    for city in &lm.0 {
        for level in &city.levels {
            assert!(level.current_progress.0.is_empty());
            assert!(!level.current_progress.1);
        }
    }
}

#[test]
fn parse_empty_text() {
    let lm = parse("").unwrap();
    assert!(lm.get_city_names().is_empty());
    let lm = parse("// nothing\n\n").unwrap();
    assert!(lm.0.is_empty());
}

#[test]
fn parse_errors_name_their_lines() {
    assert_eq!(parse("Foo\n").unwrap_err(), LevelsError::ExpectedCity(1));
    assert_eq!(parse("// c\n\nX\n").unwrap_err(), LevelsError::ExpectedCity(3));
    assert_eq!(parse("CITY:A\n").unwrap_err(), LevelsError::UnexpectedEof);
    assert_eq!(parse("CITY:A\nL:1\n+ 0,0 red up\n").unwrap_err(), LevelsError::UnexpectedEof);
    assert_eq!(parse("CITY:A\nL:1:2\n").unwrap_err(), LevelsError::ExpectedTwoFields(2));
    assert_eq!(parse("CITY:A\nL\n").unwrap_err(), LevelsError::ExpectedTwoFields(2));
    assert_eq!(parse("CITY:A\nL:x\n").unwrap_err(), LevelsError::InvalidStarCount(2));
    assert_eq!(parse("CITY:A\nL:-1\n").unwrap_err(), LevelsError::InvalidStarCount(2));
    assert_eq!(parse("CITY:A\nL:+\n").unwrap_err(), LevelsError::InvalidStarCount(2));
    assert_eq!(parse("CITY:A\nL:4294967296\n").unwrap_err(), LevelsError::InvalidStarCount(2));
    assert_eq!(parse("CITY:A\nL:4294967295\n---\n----\n").unwrap().get_level("L").num_stars, 4294967295);
    assert_eq!(parse("CITY:A\nL:1\n+ a,0 red up\n").unwrap_err(), LevelsError::InvalidX(3));
    assert_eq!(parse("CITY:A\nL:1\n+\n").unwrap_err(), LevelsError::InvalidX(3));
    assert_eq!(parse("CITY:A\nL:1\n+ 0,b red up\n").unwrap_err(), LevelsError::InvalidY(3));
    assert_eq!(parse("CITY:A\nL:1\n+ 0\n").unwrap_err(), LevelsError::InvalidY(3));
    assert_eq!(parse("CITY:A\nL:1\n+ 0,0 red up more\n").unwrap_err(), LevelsError::WrongSpaceCount(3));
    assert_eq!(parse("CITY:A\nL:1\ns 0,0 up more\n").unwrap_err(), LevelsError::WrongSpaceCount(3));
    assert_eq!(parse("CITY:A\nL:1\n+ 0,0 pink up\n").unwrap_err(), LevelsError::InvalidColor(3));
    assert_eq!(parse("CITY:A\nL:1\no 0,0 red,,blue up\n").unwrap_err(), LevelsError::InvalidColor(3));
    assert_eq!(parse("CITY:A\nL:1\np 0,0 teal up,down\n").unwrap_err(), LevelsError::InvalidColor(3));
    assert_eq!(parse("CITY:A\nL:1\n+ 0,0 red north\n").unwrap_err(), LevelsError::InvalidDirection(3));
    assert_eq!(parse("CITY:A\nL:1\no 0,0 red up,sideways\n").unwrap_err(), LevelsError::InvalidDirection(3));
    assert_eq!(parse("CITY:A\nL:1\ns 0,0 back\n").unwrap_err(), LevelsError::InvalidDirection(3));
    assert_eq!(parse("CITY:A\nL:1\n* 1,1 2\n").unwrap_err(), LevelsError::InvalidRockPosition(3));
    assert_eq!(parse("CITY:A\nL:1\n* 1,1 \n").unwrap_err(), LevelsError::InvalidRockPosition(3));
    assert_eq!(parse("CITY:A\nL:1\np 0,0 red up\n").unwrap_err(), LevelsError::PainterNeedsTwoDirections(3));
    assert_eq!(parse("CITY:A\nL:1\np 0,0 red up,down,left\n").unwrap_err(), LevelsError::PainterNeedsTwoDirections(3));
    assert_eq!(parse("CITY:A\nL:1\nx 0,0\n").unwrap_err(), LevelsError::InvalidLineStart(3));
}

#[test]
fn parse_keeps_city_name_after_prefix() {
    let lm = parse("CITY:\n----\nCITY:Saint-Étienne du Bois\n----\n").unwrap();
    assert_eq!(lm.get_city_names(), vec!["".to_string(), "Saint-Étienne du Bois".to_string()]);
}

#[test]
fn parse_without_final_newline() {
    let lm = parse("CITY:A\nL:2\n---\n----").unwrap();
    assert_eq!(lm.get_level("L").num_stars, 2);
}

#[test]
fn get_level_finds_the_first_of_equal_names() {
    let lm = parse("CITY:A\nL:1\n---\n----\nCITY:B\nL:2\n---\n----\n").unwrap();
    assert_eq!(lm.get_level("L").num_stars, 1);
    assert_eq!(lm.get_names_in_city("B"), vec!["L".to_string()]);
}

#[test]
fn progress_reads_back() {
    let mut lm = parse(CATALOGUE).unwrap();
    let track = Tracktile::new(Some(Connection { dir1: 1, dir2: 3 }), None);
    let progress = (vec![PositionedTile { tile: Tile::Tracktile(track), x: 2, y: 0 }], true);
    lm.set_level_current_progress("Lesson 1", &progress);
    let level = lm.get_level("Lesson 1");
    assert!(level.current_progress.1);
    assert_eq!(level.current_progress.0.len(), 1);
    assert_eq!((level.current_progress.0[0].x, level.current_progress.0[0].y), (2, 0));
    match &level.current_progress.0[0].tile {
        Tile::Tracktile(t) => assert!(t.active_connection == Some(Connection { dir1: 3, dir2: 1 })),
        _ => panic!("expected a track tile"),
    }
    assert_eq!(level.num_stars, 1);
    assert_eq!(level.level_info.len(), 2);
    assert!(lm.get_level("Mixing").current_progress.0.is_empty());
}
