use vstd::prelude::*;

verus! {

/// The colour of a train, a source, a sink or a painter.
#[derive(Clone, Copy, Debug, PartialEq, Eq, Structural)]
pub enum Color {
    Red,
    Blue,
    Yellow,
    Purple,
    Green,
    Orange,
    Brown,
}

/// Every colour of `s` equals its first one.
pub open spec fn all_same(s: Seq<Color>) -> bool {
    forall|i: int| 0 <= i < s.len() ==> #[trigger] s[i] == s[0]
}

/// Every colour of `s` is `a` or `b`.
pub open spec fn only_of(s: Seq<Color>, a: Color, b: Color) -> bool {
    forall|i: int| 0 <= i < s.len() ==> s[i] == a || s[i] == b
}

/// The colour that trains of the colours `s` take when they meet: a single
/// colour stays; red with blue gives purple, red with yellow orange, blue with
/// yellow green; any other mixture gives brown.
pub open spec fn mix_spec(s: Seq<Color>) -> Color {
    if all_same(s) {
        s[0]
    } else if only_of(s, Color::Red, Color::Blue) {
        Color::Purple
    } else if only_of(s, Color::Red, Color::Yellow) {
        Color::Orange
    } else if only_of(s, Color::Blue, Color::Yellow) {
        Color::Green
    } else {
        Color::Brown
    }
}

pub open spec fn is_primary(c: Color) -> bool {
    c == Color::Red || c == Color::Blue || c == Color::Yellow
}

impl Color {
    /// Mixes the colours of trains that meet.
    pub fn mix_many(colors: Vec<Color>) -> (mixed: Color)
        requires
            colors.len() > 0,
        ensures
            mixed == mix_spec(colors@),
    {
        let first = colors[0];
        let mut same = true;
        let mut has_red = false;
        let mut has_blue = false;
        let mut has_yellow = false;
        let mut has_other = false;
        let n = colors.len();
        let mut i: usize = 0;
        while i < n
            invariant
                n == colors.len(),
                0 <= i <= n,
                first == colors@[0],
                same <==> (forall|j: int| 0 <= j < i ==> colors@[j] == first),
                has_red <==> (exists|j: int| 0 <= j < i && colors@[j] == Color::Red),
                has_blue <==> (exists|j: int| 0 <= j < i && colors@[j] == Color::Blue),
                has_yellow <==> (exists|j: int| 0 <= j < i && colors@[j] == Color::Yellow),
                has_other <==> (exists|j: int| 0 <= j < i && !is_primary(colors@[j])),
            decreases n - i,
        {
            let c = colors[i];
            if c != first {
                same = false;
            }
            match c {
                Color::Red => { has_red = true; },
                Color::Blue => { has_blue = true; },
                Color::Yellow => { has_yellow = true; },
                _ => { has_other = true; },
            }
            i = i + 1;
        }
        let ghost s = colors@;
        if same {
            first
        } else if !has_other && !has_yellow {
            assert(only_of(s, Color::Red, Color::Blue)) by {
                assert forall|j: int| 0 <= j < s.len() implies s[j] == Color::Red || s[j]
                    == Color::Blue by {
                    if !is_primary(s[j]) {
                    }
                }
            }
            Color::Purple
        } else if !has_other && !has_blue {
            assert(only_of(s, Color::Red, Color::Yellow)) by {
                assert forall|j: int| 0 <= j < s.len() implies s[j] == Color::Red || s[j]
                    == Color::Yellow by {
                    if !is_primary(s[j]) {
                    }
                }
            }
            assert(!only_of(s, Color::Red, Color::Blue)) by {
                let k = choose|j: int| 0 <= j < n && colors@[j] == Color::Yellow;
                if !has_red {
                    let m = choose|j: int| 0 <= j < n && colors@[j] != first;
                    assert(s[m] == Color::Yellow);
                    assert(s[0] == Color::Yellow);
                }
            }
            Color::Orange
        } else if !has_other && !has_red {
            assert(only_of(s, Color::Blue, Color::Yellow)) by {
                assert forall|j: int| 0 <= j < s.len() implies s[j] == Color::Blue || s[j]
                    == Color::Yellow by {
                    if !is_primary(s[j]) {
                    }
                }
            }
            assert(!only_of(s, Color::Red, Color::Blue)) by {
                let k = choose|j: int| 0 <= j < n && colors@[j] == Color::Yellow;
            }
            assert(!only_of(s, Color::Red, Color::Yellow)) by {
                let k = choose|j: int| 0 <= j < n && colors@[j] == Color::Blue;
            }
            Color::Green
        } else {
            proof {
            if has_other {
                let k = choose|j: int| 0 <= j < n && !is_primary(colors@[j]);
                assert(!only_of(s, Color::Red, Color::Blue) && !only_of(s, Color::Red, Color::Yellow)
                    && !only_of(s, Color::Blue, Color::Yellow)) by {
                    assert(!is_primary(s[k]));
                }
            } else {
                let a = choose|j: int| 0 <= j < n && colors@[j] == Color::Red;
                let b = choose|j: int| 0 <= j < n && colors@[j] == Color::Blue;
                let c = choose|j: int| 0 <= j < n && colors@[j] == Color::Yellow;
                assert(s[a] == Color::Red && s[b] == Color::Blue && s[c] == Color::Yellow);
            }
            }
            Color::Brown
        }
    }
}

/// Two trains that meet take the same colour whichever of them is named
/// first.
pub proof fn law_mix_pair_symmetric(a: Color, b: Color)
    ensures
        mix_spec(seq![a, b]) == mix_spec(seq![b, a]),
{
}

/// Trains of one colour keep it when they meet.
pub proof fn law_mix_one_color(c: Color, n: nat)
    requires
        n > 0,
    ensures
        mix_spec(Seq::new(n, |i: int| c)) == c,
{
}

} // verus!
