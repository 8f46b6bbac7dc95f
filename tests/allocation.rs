use gem_allocator::{
    add_combos, allocate_gems, appraise, binomial, combinations, compare_combos, gem, gems,
    treasure, treasures, AllocationError, Appraisal, ObjectiveFunction, Shape, Socket,
    SocketedTreasure, MAX_TREASURES,
};
use std::cmp::Ordering;

fn used_gems(result: &[SocketedTreasure]) -> [usize; 6] {
    let mut used = [0usize; 6];
    for t in result {
        for s in &t.sockets {
            if let Some(id) = s.gem_id {
                used[(id - 1) as usize] += 1;
            }
        }
    }
    used
}

fn totals(result: &[SocketedTreasure]) -> (usize, usize) {
    let value = result.iter().map(|t| t.appraisal.value).sum();
    let bonus = result.iter().map(|t| t.appraisal.bonus).sum();
    (value, bonus)
}

fn all_fillings(circ: usize, rect: usize) -> Vec<[usize; 6]> {
    let mut out = Vec::new();
    for a in 0..=3usize {
        for b in 0..=3usize {
            for c in 0..=3usize {
                for d in 0..=3usize {
                    for e in 0..=3usize {
                        for f in 0..=3usize {
                            if a + b + c <= circ && d + e + f <= rect {
                                out.push([a, b, c, d, e, f]);
                            }
                        }
                    }
                }
            }
        }
    }
    out
}

fn within(c: &[usize; 6], budget: &[usize; 6]) -> bool {
    (0..6).all(|i| c[i] <= budget[i])
}

#[test]
fn compare_combos_partial_order() {
    let a = [1, 0, 2, 0, 0, 1];
    let b = [1, 1, 2, 0, 3, 1];
    let c = [0, 2, 0, 0, 0, 0];
    assert_eq!(compare_combos(&a, &a), Ordering::Equal);
    assert_eq!(compare_combos(&a, &b), Ordering::Less);
    assert_eq!(compare_combos(&b, &a), Ordering::Greater);
    assert_eq!(compare_combos(&a, &c), Ordering::Greater);
    assert_eq!(compare_combos(&c, &a), Ordering::Greater);
    assert_eq!(compare_combos(&[0; 6], &c), Ordering::Less);
}

#[test]
fn add_combos_adds_coordinatewise() {
    assert_eq!(add_combos(&[1, 2, 3, 4, 5, 6], &[6, 5, 4, 3, 2, 1]), [7; 6]);
}

#[test]
fn combinations_counts_and_sums() {
    let v = combinations(3);
    assert_eq!(v.len(), 4);
    let expected = [1usize, 3, 6, 10];
    for h in 0..=3usize {
        assert_eq!(v[h].len(), expected[h]);
        for t in &v[h] {
            assert_eq!(t[0] + t[1] + t[2], h);
        }
        let mut sorted = v[h].clone();
        sorted.sort();
        sorted.dedup();
        assert_eq!(sorted.len(), expected[h]);
    }
}

#[test]
fn binomial_values() {
    assert_eq!(binomial(5, 2), 10);
    assert_eq!(binomial(6, 3), 20);
    assert_eq!(binomial(4, 0), 1);
    assert_eq!(binomial(2, 3), 0);
}

#[test]
fn catalog_lists() {
    let g = gems();
    assert_eq!(g.len(), 6);
    assert_eq!(g[0].name, "Ruby");
    assert_eq!(g[5].value, 9000);
    assert_eq!(gem(2).name, "Yellow Diamond");
    let t = treasures();
    assert_eq!(t.len(), 10);
    assert_eq!(t[0].name, "Flagon");
    assert_eq!(t[9].sockets, (2, 3));
    assert_eq!(treasure(6).value, 9000);
}

#[test]
fn appraise_empty_is_base_value() {
    for t in treasures() {
        assert_eq!(appraise(&t, &[0; 6]), Appraisal { value: t.value as usize, bonus: 0 });
    }
}

#[test]
fn appraise_flagon_ruby_sapphire() {
    let flagon = treasure(0);
    assert_eq!(appraise(&flagon, &[1, 1, 0, 0, 0, 0]), Appraisal { value: 12100, bonus: 1100 });
}

#[test]
fn appraise_tiers() {
    let crown = treasure(9);
    // Two rubies and one red beryl: three reds, a trio (40%).
    let base = 19000 + 3000 * 2 + 9000;
    assert_eq!(appraise(&crown, &[2, 0, 0, 0, 0, 1]), Appraisal { value: base + base * 4 / 10, bonus: base * 4 / 10 });
    // One gem only: no bonus.
    assert_eq!(appraise(&crown, &[0, 0, 1, 0, 0, 0]), Appraisal { value: 26000, bonus: 0 });
    // Five colors, one each (100%).
    let base = 19000 + 3000 + 4000 + 7000 + 5000 + 6000;
    assert_eq!(appraise(&crown, &[1, 1, 1, 1, 1, 0]), Appraisal { value: 2 * base, bonus: base });
    // Two reds, one blue, one yellow, one green: three colors (30%).
    let base = 19000 + 3000 + 4000 + 7000 + 5000 + 9000;
    assert_eq!(appraise(&crown, &[1, 1, 1, 1, 0, 1]), Appraisal { value: base + base * 3 / 10, bonus: base * 3 / 10 });
    // Three reds and two blues: duo and trio (80%).
    let base = 19000 + 3000 + 4000 * 2 + 9000 * 2;
    assert_eq!(appraise(&crown, &[1, 2, 0, 0, 0, 2]), Appraisal { value: base + base * 8 / 10, bonus: base * 8 / 10 });
    // Six gems lie outside the bonus range.
    let base = 19000 + 3000 * 3 + 9000 * 3;
    assert_eq!(appraise(&crown, &[3, 0, 0, 0, 0, 3]), Appraisal { value: base, bonus: 0 });
}

#[test]
fn allocate_empty_collection() {
    for obj in [ObjectiveFunction::MaximizeBonus, ObjectiveFunction::MaximizeValue] {
        let r = allocate_gems([0; 10], [3, 1, 4, 1, 5, 9], obj).unwrap();
        assert!(r.is_empty());
        let r = allocate_gems([0; 10], [0; 6], obj).unwrap();
        assert!(r.is_empty());
    }
}

#[test]
fn allocate_too_many_treasures() {
    let mut coll = [0usize; 10];
    coll[3] = MAX_TREASURES + 1;
    assert_eq!(allocate_gems(coll, [1; 6], ObjectiveFunction::MaximizeValue).unwrap_err(), AllocationError::InvalidInput);
    let coll = [usize::MAX; 10];
    assert_eq!(allocate_gems(coll, [1; 6], ObjectiveFunction::MaximizeBonus).unwrap_err(), AllocationError::InvalidInput);
}

#[test]
fn allocate_single_treasure_best_value() {
    let budgets = [[1, 2, 0, 1, 0, 2], [0; 6], [3, 3, 3, 3, 3, 3], [0, 0, 1, 0, 1, 0]];
    for i in 0..10usize {
        let t = treasure(i);
        for budget in budgets {
            let mut coll = [0usize; 10];
            coll[i] = 1;
            let r = allocate_gems(coll, budget, ObjectiveFunction::MaximizeValue).unwrap();
            assert_eq!(r.len(), 1);
            assert_eq!(r[0].id, t.id);
            let best = all_fillings(t.sockets.0 as usize, t.sockets.1 as usize)
                .iter()
                .filter(|c| within(c, &budget))
                .map(|c| appraise(&t, c).value)
                .max()
                .unwrap();
            assert_eq!(r[0].appraisal.value, best);
            let used = used_gems(&r);
            assert!(within(&used, &budget));
            assert_eq!(r[0].sockets.len(), (t.sockets.0 + t.sockets.1) as usize);
        }
    }
}

#[test]
fn allocate_two_flagons_two_rubies() {
    let mut coll = [0usize; 10];
    coll[0] = 2;
    let budget = [2, 0, 0, 0, 0, 0];
    let r = allocate_gems(coll, budget, ObjectiveFunction::MaximizeValue).unwrap();
    assert_eq!(r.len(), 2);
    let flagon = treasure(0);
    let splits = [([2, 0, 0, 0, 0, 0], [0; 6]), ([1, 0, 0, 0, 0, 0], [1, 0, 0, 0, 0, 0]), ([0; 6], [2, 0, 0, 0, 0, 0])];
    let best = splits
        .iter()
        .map(|(a, b)| appraise(&flagon, a).value + appraise(&flagon, b).value)
        .max()
        .unwrap();
    assert_eq!(best, 16000);
    assert_eq!(totals(&r).0, best);
    let used = used_gems(&r);
    assert!(used[0] <= 2);
    assert!(within(&used, &budget));
}

#[test]
fn allocate_is_deterministic() {
    let coll = [1, 0, 2, 0, 1, 0, 1, 1, 0, 1];
    let budget = [2, 1, 3, 1, 2, 2];
    for obj in [ObjectiveFunction::MaximizeBonus, ObjectiveFunction::MaximizeValue] {
        let r1 = allocate_gems(coll, budget, obj).unwrap();
        let r2 = allocate_gems(coll, budget, obj).unwrap();
        assert_eq!(totals(&r1), totals(&r2));
        assert_eq!(r1.len(), r2.len());
        for (a, b) in r1.iter().zip(r2.iter()) {
            assert_eq!(a.id, b.id);
            assert_eq!(a.sockets, b.sockets);
            assert_eq!(a.appraisal, b.appraisal);
        }
    }
}

#[test]
fn allocate_never_exceeds_budget() {
    let cases: [([usize; 10], [usize; 6]); 3] = [
        ([2, 1, 0, 1, 0, 1, 1, 0, 1, 1], [1, 1, 1, 1, 1, 1]),
        ([0, 0, 0, 0, 0, 0, 0, 3, 0, 2], [4, 0, 2, 3, 1, 5]),
        ([1; 10], [0, 5, 0, 0, 5, 0]),
    ];
    for (coll, budget) in cases {
        for obj in [ObjectiveFunction::MaximizeBonus, ObjectiveFunction::MaximizeValue] {
            let r = allocate_gems(coll, budget, obj).unwrap();
            assert_eq!(r.len(), coll.iter().sum::<usize>());
            assert!(within(&used_gems(&r), &budget));
        }
    }
}

#[test]
fn allocate_matches_brute_force_for_pairs() {
    // Ornate Necklace and Golden Lynx share a small budget.
    let mut coll = [0usize; 10];
    coll[7] = 1;
    coll[8] = 1;
    let budget = [1, 1, 1, 1, 1, 1];
    let necklace = treasure(7);
    let lynx = treasure(8);
    for obj in [ObjectiveFunction::MaximizeBonus, ObjectiveFunction::MaximizeValue] {
        let score = |a: Appraisal| match obj {
            ObjectiveFunction::MaximizeBonus => a.bonus,
            ObjectiveFunction::MaximizeValue => a.value,
        };
        let mut best = 0;
        for a in all_fillings(2, 2) {
            for b in all_fillings(2, 1) {
                let sum = add_combos(&a, &b);
                if within(&sum, &budget) {
                    best = best.max(score(appraise(&necklace, &a)) + score(appraise(&lynx, &b)));
                }
            }
        }
        let r = allocate_gems(coll, budget, obj).unwrap();
        assert_eq!(r[0].id, 8);
        assert_eq!(r[1].id, 9);
        let got: usize = r.iter().map(|t| score(t.appraisal)).sum();
        assert_eq!(got, best);
    }
}

#[test]
fn socket_layout_order() {
    let mut coll = [0usize; 10];
    coll[9] = 1;
    let r = allocate_gems(coll, [0, 1, 0, 0, 0, 1], ObjectiveFunction::MaximizeValue).unwrap();
    // The best use of one sapphire and one red beryl in the crown is both.
    assert_eq!(
        r[0].sockets,
        vec![
            Socket { shape: Shape::Circular, gem_id: Some(2) },
            Socket { shape: Shape::Circular, gem_id: None },
            Socket { shape: Shape::Rectangular, gem_id: Some(6) },
            Socket { shape: Shape::Rectangular, gem_id: None },
            Socket { shape: Shape::Rectangular, gem_id: None },
        ]
    );
    let base = 19000 + 4000 + 9000;
    assert_eq!(r[0].appraisal, Appraisal { value: base + base / 10, bonus: base / 10 });
}

fn tier_case(gems: [usize; 6], tenths: usize) {
    let crown = treasure(9);
    let base = 19000 + (0..6).map(|i| gems[i] * gem(i).value as usize).sum::<usize>();
    let bonus = base * tenths / 10;
    assert_eq!(appraise(&crown, &gems), Appraisal { value: base + bonus, bonus }, "{:?}", gems);
}

#[test]
fn appraise_every_tier() {
    tier_case([1, 1, 0, 0, 0, 0], 1); // two colors
    tier_case([2, 0, 0, 0, 0, 0], 2); // duo
    tier_case([1, 1, 0, 0, 0, 1], 2); // duo and a single
    tier_case([1, 1, 1, 0, 0, 0], 3); // three colors
    tier_case([2, 1, 1, 0, 0, 0], 3); // three colors with a pair
    tier_case([1, 1, 1, 1, 0, 1], 3); // pair of reds and three singles
    tier_case([2, 0, 0, 0, 0, 1], 4); // trio
    tier_case([3, 1, 0, 0, 0, 0], 4); // trio and a single
    tier_case([1, 2, 0, 0, 0, 1], 5); // two duos
    tier_case([1, 1, 1, 1, 0, 0], 6); // four colors
    tier_case([2, 0, 0, 0, 0, 2], 7); // quartet
    tier_case([1, 2, 0, 0, 0, 2], 8); // duo and trio
    tier_case([3, 0, 0, 0, 0, 2], 9); // quintet
    tier_case([1, 1, 1, 1, 1, 0], 10); // five colors
    tier_case([0, 0, 0, 1, 0, 0], 0); // a single gem
}

#[test]
fn combinations_row_order() {
    assert_eq!(combinations(1), vec![vec![[0, 0, 0]], vec![[0, 0, 1], [0, 1, 0], [1, 0, 0]]]);
    let v = combinations(3);
    for row in &v {
        for w in row.windows(2) {
            assert!((w[0][0], w[0][1]) < (w[1][0], w[1][1]));
        }
    }
}

#[test]
fn binomial_wider_values() {
    assert_eq!(binomial(10, 5), 252);
    assert_eq!(binomial(30, 15), 155117520);
    assert_eq!(binomial(300, 3), 4455100);
}
