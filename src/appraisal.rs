use vstd::prelude::*;

use crate::catalog::{catalog_gem, catalog_sized, gem, Combo, Treasure};
use crate::combo::fits_shape;

verus! {

/// The set-bonus tiers, from the weakest to the strongest multiplier.
#[derive(Clone, Copy, Debug, PartialEq, Eq, Structural)]
pub enum Bonus {
    TwoColors,
    Duo,
    ThreeColors,
    Trio,
    TwoDuos,
    FourColors,
    Quartet,
    DuoAndTrio,
    Quintet,
    FiveColors,
}

/// An appraised treasure: `bonus` is the part of `value` that the set bonus adds.
#[derive(Clone, Copy, Debug, PartialEq, Eq, Structural)]
pub struct Appraisal {
    pub value: usize,
    pub bonus: usize,
}

/// A tier's bonus in tenths of the base value.
pub open spec fn tier_tenths(b: Bonus) -> int {
    match b {
        Bonus::TwoColors => 1,
        Bonus::Duo => 2,
        Bonus::ThreeColors => 3,
        Bonus::Trio => 4,
        Bonus::TwoDuos => 5,
        Bonus::FourColors => 6,
        Bonus::Quartet => 7,
        Bonus::DuoAndTrio => 8,
        Bonus::Quintet => 9,
        Bonus::FiveColors => 10,
    }
}

impl Bonus {
    /// The bonus in tenths of the base value.
    pub fn multiplier(&self) -> (r: usize)
        ensures
            r == tier_tenths(*self),
    {
        match self {
            Bonus::TwoColors => 1,
            Bonus::Duo => 2,
            Bonus::ThreeColors => 3,
            Bonus::Trio => 4,
            Bonus::TwoDuos => 5,
            Bonus::FourColors => 6,
            Bonus::Quartet => 7,
            Bonus::DuoAndTrio => 8,
            Bonus::Quintet => 9,
            Bonus::FiveColors => 10,
        }
    }
}

/// Gems per color (red, blue, yellow, green, purple): the two red gems, one
/// circular and one rectangular, count as one color.
pub open spec fn color_counts(g: Seq<usize>) -> Seq<usize> {
    seq![(g[0] + g[5]) as usize, g[1], g[2], g[3], g[4]]
}

/// Inserts `x` into `s`, in front of the first entry that is not greater.
pub open spec fn insert_desc(x: usize, s: Seq<usize>) -> Seq<usize>
    decreases s.len(),
{
    if s.len() == 0 {
        seq![x]
    } else if s[0] <= x {
        seq![x] + s
    } else {
        seq![s[0]] + insert_desc(x, s.drop_first())
    }
}

/// `s` sorted in descending order.
pub open spec fn sort_desc(s: Seq<usize>) -> Seq<usize>
    decreases s.len(),
{
    if s.len() == 0 {
        s
    } else {
        insert_desc(s.last(), sort_desc(s.drop_last()))
    }
}

/// The tier of a descending color-count vector of length five.
///
/// A pair with three single colors, `[2, 1, 1, 1, 0]`, is Three Colors: a
/// pair takes the Four Colors tier only beside four singles, which would be
/// six gems and never occurs within the five-gem bonus range.
pub open spec fn tier_of_sorted(s: Seq<usize>) -> Option<Bonus> {
    if s[0] == 5 {
        Some(Bonus::Quintet)
    } else if s[0] == 4 {
        Some(Bonus::Quartet)
    } else if s[0] == 3 {
        if s[1] == 2 {
            Some(Bonus::DuoAndTrio)
        } else {
            Some(Bonus::Trio)
        }
    } else if s[0] == 2 {
        if s[1] == 2 {
            Some(Bonus::TwoDuos)
        } else if s[1] == 1 && s[2] == 1 {
            if s[3] == 1 && s[4] == 1 {
                Some(Bonus::FourColors)
            } else {
                Some(Bonus::ThreeColors)
            }
        } else {
            Some(Bonus::Duo)
        }
    } else if s[0] == 1 && s[1] == 1 {
        if s[2] == 1 {
            if s[3] == 1 {
                if s[4] == 1 {
                    Some(Bonus::FiveColors)
                } else {
                    Some(Bonus::FourColors)
                }
            } else {
                Some(Bonus::ThreeColors)
            }
        } else {
            Some(Bonus::TwoColors)
        }
    } else {
        None
    }
}

/// The tier of a combo: a function of its sorted color counts.
pub open spec fn tier_of(g: Seq<usize>) -> Option<Bonus> {
    tier_of_sorted(sort_desc(color_counts(g)))
}

/// Number of gems in a combo.
pub open spec fn combo_total(g: Seq<usize>) -> int {
    g[0] + g[1] + g[2] + g[3] + g[4] + g[5]
}

/// Only combos of two to five gems are given a set bonus.
pub open spec fn bonus_eligible(g: Seq<usize>) -> bool {
    2 <= combo_total(g) <= 5
}

/// The bonus rate of a combo in tenths; zero when it has no tier.
pub open spec fn bonus_tenths(g: Seq<usize>) -> int {
    if bonus_eligible(g) {
        match tier_of(g) {
            Some(b) => tier_tenths(b),
            None => 0,
        }
    } else {
        0
    }
}

/// Total value of the first `n` gem types of a combo.
pub open spec fn gem_worth(g: Seq<usize>, n: int) -> int
    decreases n,
{
    if n <= 0 {
        0
    } else {
        gem_worth(g, n - 1) + g[n - 1] * catalog_gem(n - 1).value
    }
}

/// The treasure's value plus the value of the gems in it.
pub open spec fn base_value(t: Treasure, g: Seq<usize>) -> int {
    t.value + gem_worth(g, 6)
}

/// The set bonus of a filled treasure: its tier's share of the base value,
/// rounded down.
pub open spec fn appraised_bonus(t: Treasure, g: Seq<usize>) -> int {
    bonus_tenths(g) * base_value(t, g) / 10
}

/// The value of a filled treasure, set bonus included.
pub open spec fn appraised_value(t: Treasure, g: Seq<usize>) -> int {
    base_value(t, g) + appraised_bonus(t, g)
}

proof fn lemma_gem_worth_mono(g: Seq<usize>, i: int, j: int)
    requires
        0 <= i <= j <= 6,
    ensures
        0 <= gem_worth(g, i) <= gem_worth(g, j),
    decreases j,
{
    if j > 0 {
        assert(g[j - 1] * catalog_gem(j - 1).value >= 0) by (nonlinear_arith)
            requires
                g[j - 1] >= 0,
                catalog_gem(j - 1).value >= 0,
        ;
        if i < j {
            lemma_gem_worth_mono(g, i, j - 1);
        } else {
            lemma_gem_worth_mono(g, i - 1, j - 1);
        }
    }
}

/// Bounds on the appraisal of a filling of a catalog-sized treasure.
pub proof fn lemma_appraisal_bounds(t: Treasure, g: Seq<usize>)
    requires
        catalog_sized(t),
        fits_shape(g, t.sockets.0 as int, t.sockets.1 as int),
    ensures
        0 <= appraised_bonus(t, g) <= base_value(t, g) <= 67000,
        appraised_value(t, g) <= 134000,
{
    assert(gem_worth(g, 6) == g[0] * 3000 + g[1] * 4000 + g[2] * 7000 + g[3] * 5000 + g[4] * 6000
        + g[5] * 9000) by {
        reveal_with_fuel(gem_worth, 7);
    }
    let b = base_value(t, g);
    let r = bonus_tenths(g);
    assert(0 <= r <= 10);
    assert(0 <= r * b / 10 <= b) by (nonlinear_arith)
        requires
            0 <= r <= 10,
            0 <= b,
    ;
}

proof fn lemma_insert_at(x: usize, s: Seq<usize>, p: int)
    requires
        0 <= p <= s.len(),
        forall|j: int| 0 <= j < p ==> s[j] > x,
        p < s.len() ==> s[p] <= x,
    ensures
        insert_desc(x, s) == s.insert(p, x),
    decreases p,
{
    if p == 0 {
        assert(insert_desc(x, s) =~= s.insert(0, x));
    } else {
        lemma_insert_at(x, s.drop_first(), p - 1);
        assert(insert_desc(x, s) =~= s.insert(p, x));
    }
}

/// The set-bonus tier of a combo of at most five gems.
fn get_bonus(gems: &Combo) -> (r: Option<Bonus>)
    requires
        combo_total(gems@) <= 5,
    ensures
        r == tier_of(gems@),
{
    let colors: [usize; 5] = [gems[0] + gems[5], gems[1], gems[2], gems[3], gems[4]];
    assert(colors@ =~= color_counts(gems@));
    let mut sorted: Vec<usize> = Vec::with_capacity(5);
    let mut i: usize = 0;
    while i < 5
        invariant
            i <= 5,
            sorted@.len() == i,
            sorted@ == sort_desc(colors@.take(i as int)),
        decreases 5 - i,
    {
        let x = colors[i];
        let mut p: usize = 0;
        while p < sorted.len() && sorted[p] > x
            invariant
                p <= sorted@.len(),
                forall|j: int| 0 <= j < p ==> sorted@[j] > x,
            decreases sorted@.len() - p,
        {
            p = p + 1;
        }
        proof {
            lemma_insert_at(x, sorted@, p as int);
            assert(colors@.take(i + 1).drop_last() =~= colors@.take(i as int));
        }
        sorted.insert(p, x);
        i = i + 1;
    }
    assert(colors@.take(5) =~= colors@);
    let s = sorted;
    if s[0] == 5 {
        Some(Bonus::Quintet)
    } else if s[0] == 4 {
        Some(Bonus::Quartet)
    } else if s[0] == 3 {
        if s[1] == 2 {
            Some(Bonus::DuoAndTrio)
        } else {
            Some(Bonus::Trio)
        }
    } else if s[0] == 2 {
        if s[1] == 2 {
            Some(Bonus::TwoDuos)
        } else if s[1] == 1 && s[2] == 1 {
            if s[3] == 1 && s[4] == 1 {
                Some(Bonus::FourColors)
            } else {
                Some(Bonus::ThreeColors)
            }
        } else {
            Some(Bonus::Duo)
        }
    } else if s[0] == 1 && s[1] == 1 {
        if s[2] == 1 {
            if s[3] == 1 {
                if s[4] == 1 {
                    Some(Bonus::FiveColors)
                } else {
                    Some(Bonus::FourColors)
                }
            } else {
                Some(Bonus::ThreeColors)
            }
        } else {
            Some(Bonus::TwoColors)
        }
    } else {
        None
    }
}

/// Appraises a treasure filled with `gems`: the base value is the treasure's
/// value plus that of every gem; a combo of two to five gems whose color
/// pattern has a tier adds that tier's tenths of the base value, rounded down.
pub fn appraise(treasure: &Treasure, gems: &[usize; 6]) -> (r: Appraisal)
    requires
        10 * base_value(*treasure, gems@) <= usize::MAX,
    ensures
        r.value == appraised_value(*treasure, gems@),
        r.bonus == appraised_bonus(*treasure, gems@),
{
    let mut value: usize = treasure.value as usize;
    let mut i: usize = 0;
    while i < 6
        invariant
            i <= 6,
            10 * base_value(*treasure, gems@) <= usize::MAX,
            value == treasure.value + gem_worth(gems@, i as int),
        decreases 6 - i,
    {
        proof {
            lemma_gem_worth_mono(gems@, i + 1, 6);
        }
        value = value + gems[i] * gem(i).value as usize;
        i = i + 1;
    }
    let mut total: usize = 0;
    let mut j: usize = 0;
    while j < 6
        invariant
            j <= 6,
            total <= 6,
            total == if gems@.take(j as int).fold_left(0int, |a: int, x: usize| a + x) > 5 {
                6
            } else {
                gems@.take(j as int).fold_left(0int, |a: int, x: usize| a + x)
            },
        decreases 6 - j,
    {
        proof {
            assert(gems@.take(j + 1).drop_last() =~= gems@.take(j as int));
        }
        if gems[j] > 5 || total + gems[j] > 5 {
            total = 6;
        } else {
            total = total + gems[j];
        }
        j = j + 1;
    }
    proof {
        assert(gems@.take(6) =~= gems@);
        reveal_with_fuel(vstd::seq::Seq::fold_left, 7);
        assert(gems@.fold_left(0int, |a: int, x: usize| a + x) == combo_total(gems@));
    }
    let mut bonus: usize = 0;
    if 2 <= total && total <= 5 {
        match get_bonus(gems) {
            Some(tier) => {
                let m = tier.multiplier();
                assert(m * value <= 10 * value) by (nonlinear_arith)
                    requires
                        m <= 10,
                ;
                bonus = (m * value) / 10;
            },
            None => {},
        }
    }
    Appraisal { value: value + bonus, bonus }
}

/// An empty treasure is worth its own value and has no set bonus.
pub proof fn lemma_appraise_empty(t: Treasure)
    ensures
        appraised_value(t, seq![0usize, 0, 0, 0, 0, 0]) == t.value,
        appraised_bonus(t, seq![0usize, 0, 0, 0, 0, 0]) == 0,
{
    let z = seq![0usize, 0, 0, 0, 0, 0];
    assert(gem_worth(z, 6) == 0) by {
        reveal_with_fuel(gem_worth, 7);
    }
    assert(!bonus_eligible(z));
}

} // verus!
