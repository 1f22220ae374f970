use trainyard::color::Color;

#[test]
fn mix_red_and_blue_gives_purple() {
    assert_eq!(Color::mix_many(vec![Color::Red, Color::Blue]), Color::Purple);
}

#[test]
fn mix_red_and_yellow_gives_orange() {
    assert_eq!(Color::mix_many(vec![Color::Yellow, Color::Red]), Color::Orange);
}

#[test]
fn mix_blue_and_yellow_gives_green() {
    assert_eq!(Color::mix_many(vec![Color::Blue, Color::Yellow]), Color::Green);
}

#[test]
fn mix_one_colour_keeps_it() {
    assert_eq!(Color::mix_many(vec![Color::Red, Color::Red]), Color::Red);
    assert_eq!(Color::mix_many(vec![Color::Green, Color::Green, Color::Green]), Color::Green);
    assert_eq!(Color::mix_many(vec![Color::Brown]), Color::Brown);
}

#[test]
fn mix_secondary_with_primary_gives_brown() {
    assert_eq!(Color::mix_many(vec![Color::Red, Color::Green]), Color::Brown);
    assert_eq!(Color::mix_many(vec![Color::Purple, Color::Orange]), Color::Brown);
}

#[test]
fn mix_three_primaries_gives_brown() {
    assert_eq!(Color::mix_many(vec![Color::Red, Color::Blue, Color::Yellow]), Color::Brown);
}

#[test]
fn mix_repeated_primaries_of_two_kinds() {
    assert_eq!(Color::mix_many(vec![Color::Red, Color::Blue, Color::Red]), Color::Purple);
    assert_eq!(Color::mix_many(vec![Color::Yellow, Color::Yellow, Color::Blue, Color::Blue]), Color::Green);
}

#[test]
fn mix_pair_is_symmetric() {
    let all = [
        Color::Red,
        Color::Blue,
        Color::Yellow,
        Color::Purple,
        Color::Green,
        Color::Orange,
        Color::Brown,
    ];
    for a in all {
        for b in all {
            assert_eq!(Color::mix_many(vec![a, b]), Color::mix_many(vec![b, a]));
        }
    }
}
