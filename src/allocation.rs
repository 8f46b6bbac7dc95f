use vstd::prelude::*;

use crate::appraisal::{appraise, appraised_bonus, appraised_value, lemma_appraisal_bounds, Appraisal};
use crate::catalog::{
    catalog_gem, catalog_sized, catalog_treasure, gem, lemma_catalog_treasure_sized, treasure,
    Combo, Shape, Treasure, TreasureCollection, GEM_KINDS, TREASURE_KINDS,
};
use crate::combo::{add_combos, combo_le, combo_sum, combos, compare_combos, fits_shape, has_combo};

verus! {

/// Largest number of treasure instances that one request may hold.
pub const MAX_TREASURES: usize = 10000;

/// Largest appraised value of any filling of a catalog-sized treasure.
pub const MAX_APPRAISAL: usize = 134000;

/// What the allocation maximizes, summed over all treasures of a request.
#[derive(Clone, Copy, Debug, PartialEq, Eq, Structural)]
pub enum ObjectiveFunction {
    MaximizeBonus,
    MaximizeValue,
}

/// Why a request could not be answered.
#[derive(Clone, Copy, Debug, PartialEq, Eq, Structural)]
pub enum AllocationError {
    /// The request asks for more than `MAX_TREASURES` treasure instances.
    InvalidInput,
    /// No filling of the requested treasures fits the budget. Leaving every
    /// socket empty always fits, so `allocate_gems` never returns this; it is
    /// here for callers that report every kind of failure.
    InfeasibleAllocation,
}

/// One socket of a treasure: the gem in it, if any.
#[derive(Clone, Copy, Debug, PartialEq, Eq, Structural)]
pub struct Socket {
    pub shape: Shape,
    pub gem_id: Option<u8>,
}

/// A treasure with its sockets filled, and what it is then worth.
#[derive(Debug)]
pub struct SocketedTreasure {
    pub id: u8,
    pub sockets: Vec<Socket>,
    pub appraisal: Appraisal,
}

/// The score that an objective gives a treasure filled with `g`.
pub open spec fn objective_score(obj: ObjectiveFunction, t: Treasure, g: Seq<usize>) -> int {
    match obj {
        ObjectiveFunction::MaximizeBonus => appraised_bonus(t, g),
        ObjectiveFunction::MaximizeValue => appraised_value(t, g),
    }
}

/// A filling of `t` that the budget can pay for.
pub open spec fn affordable(t: Treasure, budget: Seq<usize>, g: Seq<usize>) -> bool {
    fits_shape(g, t.sockets.0 as int, t.sockets.1 as int) && combo_le(g, budget)
}

/// A candidate filling of `t` with its appraisal.
pub open spec fn candidate_ok(t: Treasure, budget: Seq<usize>, e: (Combo, Appraisal)) -> bool {
    &&& affordable(t, budget, e.0@)
    &&& e.1.value == appraised_value(t, e.0@)
    &&& e.1.bonus == appraised_bonus(t, e.0@)
}

pub open spec fn has_candidate(s: Seq<(Combo, Appraisal)>, g: Seq<usize>) -> bool {
    exists|k: int| 0 <= k < s.len() && #[trigger] s[k].0@ == g
}

/// Number of treasure instances among the first `n` catalog entries.
pub open spec fn size_upto(coll: Seq<usize>, n: int) -> int
    decreases n,
{
    if n <= 0 {
        0
    } else {
        size_upto(coll, n - 1) + coll[n - 1]
    }
}

/// Number of treasure instances a collection requests.
pub open spec fn collection_size(coll: Seq<usize>) -> int {
    size_upto(coll, 10)
}

/// The instances requested of the first `n` catalog entries, in catalog order.
pub open spec fn instances_upto(coll: Seq<usize>, n: int) -> Seq<Treasure>
    decreases n,
{
    if n <= 0 {
        Seq::empty()
    } else {
        instances_upto(coll, n - 1) + Seq::new(coll[n - 1] as nat, |j: int| catalog_treasure(n - 1))
    }
}

/// The treasure instances a collection requests: catalog order, each entry
/// repeated as often as requested.
pub open spec fn instances(coll: Seq<usize>) -> Seq<Treasure> {
    instances_upto(coll, 10)
}

/// The socket holding a gem of catalog type `i`.
pub open spec fn filled_socket(i: int) -> Socket {
    Socket { shape: catalog_gem(i).shape, gem_id: Some(catalog_gem(i).id) }
}

/// The sockets for the first `n` gem types of `g`: each gem type's sockets in
/// catalog order, the empty circular sockets after the last circular gem type
/// and the empty rectangular ones after the last rectangular gem type.
pub open spec fn layout_upto(t: Treasure, g: Seq<usize>, n: int) -> Seq<Socket>
    decreases n,
{
    if n <= 0 {
        Seq::empty()
    } else {
        let i = n - 1;
        let filled = layout_upto(t, g, i) + Seq::new(g[i] as nat, |j: int| filled_socket(i));
        if i == 2 {
            filled + Seq::new(
                (t.sockets.0 - (g[0] + g[1] + g[2])) as nat,
                |j: int| Socket { shape: Shape::Circular, gem_id: None },
            )
        } else if i == 5 {
            filled + Seq::new(
                (t.sockets.1 - (g[3] + g[4] + g[5])) as nat,
                |j: int| Socket { shape: Shape::Rectangular, gem_id: None },
            )
        } else {
            filled
        }
    }
}

/// The sockets of `t` filled with `g`.
pub open spec fn socket_layout(t: Treasure, g: Seq<usize>) -> Seq<Socket> {
    layout_upto(t, g, 6)
}

/// `s` is `t` filled with `g`, with its appraisal.
pub open spec fn socketed_ok(s: SocketedTreasure, t: Treasure, g: Seq<usize>) -> bool {
    &&& s.id == t.id
    &&& s.sockets@ == socket_layout(t, g)
    &&& s.appraisal.value == appraised_value(t, g)
    &&& s.appraisal.bonus == appraised_bonus(t, g)
}

proof fn lemma_size_upto(coll: Seq<usize>, i: int, j: int)
    requires
        0 <= i <= j <= 10,
        coll.len() == 10,
    ensures
        0 <= size_upto(coll, i) <= size_upto(coll, j),
        instances_upto(coll, i).len() == size_upto(coll, i),
    decreases j,
{
    if j > 0 {
        if i < j {
            lemma_size_upto(coll, i, j - 1);
        } else {
            lemma_size_upto(coll, i - 1, j - 1);
        }
    }
}

/// The treasures that a collection requests, as `instances` lists them.
fn treasures_from_collection(collection: TreasureCollection) -> (r: Vec<Treasure>)
    requires
        collection_size(collection@) <= MAX_TREASURES,
    ensures
        r@ == instances(collection@),
{
    let mut list: Vec<Treasure> = Vec::new();
    let mut i: usize = 0;
    while i < TREASURE_KINDS
        invariant
            i <= TREASURE_KINDS,
            collection_size(collection@) <= MAX_TREASURES,
            list@ == instances_upto(collection@, i as int),
        decreases TREASURE_KINDS - i,
    {
        let t = treasure(i);
        let mut j: usize = 0;
        while j < collection[i]
            invariant
                i < TREASURE_KINDS,
                j <= collection@[i as int],
                t == catalog_treasure(i as int),
                list@ == instances_upto(collection@, i as int) + Seq::new(
                    j as nat,
                    |k: int| catalog_treasure(i as int),
                ),
            decreases collection@[i as int] - j,
        {
            list.push(t);
            assert(list@ =~= instances_upto(collection@, i as int) + Seq::new(
                (j + 1) as nat,
                |k: int| catalog_treasure(i as int),
            ));
            j = j + 1;
        }
        i = i + 1;
    }
    list
}

/// Every filling of `treasure` that `gems` can pay for, with its appraisal.
fn get_valid_combos(treasure: &Treasure, gems: &Combo) -> (r: Vec<(Combo, Appraisal)>)
    requires
        catalog_sized(*treasure),
    ensures
        forall|k: int| 0 <= k < r@.len() ==> #[trigger] candidate_ok(*treasure, gems@, r@[k]),
        forall|g: Seq<usize>| #[trigger] affordable(*treasure, gems@, g) ==> has_candidate(r@, g),
{
    let all = combos(treasure.sockets.0 as usize, treasure.sockets.1 as usize);
    let mut map: Vec<(Combo, Appraisal)> = Vec::new();
    let mut k: usize = 0;
    while k < all.len()
        invariant
            k <= all@.len(),
            catalog_sized(*treasure),
            forall|j: int| 0 <= j < all@.len() ==> #[trigger] fits_shape(all@[j]@, treasure.sockets.0 as int, treasure.sockets.1 as int),
            forall|j: int| 0 <= j < map@.len() ==> #[trigger] candidate_ok(*treasure, gems@, map@[j]),
            forall|j: int| 0 <= j < k && combo_le(all@[j]@, gems@) ==> #[trigger] has_candidate(map@, all@[j]@),
        decreases all@.len() - k,
    {
        let combo = all[k];
        let within = match compare_combos(&combo, gems) {
            std::cmp::Ordering::Greater => false,
            _ => true,
        };
        if within {
            assert(fits_shape(all@[k as int]@, treasure.sockets.0 as int, treasure.sockets.1 as int));
            proof {
                lemma_appraisal_bounds(*treasure, combo@);
            }
            let old_map = Ghost(map@);
            let appraisal = appraise(treasure, &combo);
            assert(combo_le(combo@, gems@));
            assert(affordable(*treasure, gems@, combo@));
            assert(appraisal.value == appraised_value(*treasure, combo@));
            assert(candidate_ok(*treasure, gems@, (combo, appraisal)));
            map.push((combo, appraisal));
            proof {
                assert forall|j: int| 0 <= j < map@.len() implies #[trigger] candidate_ok(*treasure, gems@, map@[j]) by {
                    if j < old_map@.len() {
                        assert(map@[j] == old_map@[j]);
                    }
                }
                assert forall|j: int| 0 <= j < k + 1 && combo_le(all@[j]@, gems@) implies #[trigger] has_candidate(map@, all@[j]@) by {
                    if j < k {
                        assert(has_candidate(old_map@, all@[j]@));
                        let q = choose|q: int| 0 <= q < old_map@.len() && #[trigger] old_map@[q].0@ == all@[j]@;
                        assert(map@[q] == old_map@[q]);
                    } else {
                        assert(map@[map@.len() - 1].0 == combo);
                    }
                }
            }
        } else {
            assert(!combo_le(all@[k as int]@, gems@));
        }
        k = k + 1;
    }
    proof {
        assert forall|g: Seq<usize>| #[trigger] affordable(*treasure, gems@, g) implies has_candidate(map@, g) by {
            assert(fits_shape(g, treasure.sockets.0 as int, treasure.sockets.1 as int));
            assert(has_combo(all@, g));
            let j = choose|j: int| 0 <= j < all@.len() && #[trigger] all@[j]@ == g;
            assert(has_candidate(map@, all@[j]@));
        }
    }
    map
}

/// `treasure` filled with `gems`: the filled sockets in catalog gem order,
/// each shape's empty sockets after its gems, and the appraisal.
fn create_socketed_treasure(treasure: &Treasure, gems: &Combo) -> (r: SocketedTreasure)
    requires
        catalog_sized(*treasure),
        fits_shape(gems@, treasure.sockets.0 as int, treasure.sockets.1 as int),
    ensures
        socketed_ok(r, *treasure, gems@),
{
    let mut sockets: Vec<Socket> = Vec::new();
    let mut i: usize = 0;
    while i < GEM_KINDS
        invariant
            i <= GEM_KINDS,
            fits_shape(gems@, treasure.sockets.0 as int, treasure.sockets.1 as int),
            sockets@ == layout_upto(*treasure, gems@, i as int),
        decreases GEM_KINDS - i,
    {
        let g = gem(i);
        let ghost before = sockets@;
        let mut j: usize = 0;
        while j < gems[i]
            invariant
                i < GEM_KINDS,
                j <= gems@[i as int],
                g == catalog_gem(i as int),
                sockets@ == before + Seq::new(j as nat, |k: int| filled_socket(i as int)),
            decreases gems@[i as int] - j,
        {
            sockets.push(Socket { shape: g.shape, gem_id: Some(g.id) });
            assert(sockets@ =~= before + Seq::new((j + 1) as nat, |k: int| filled_socket(i as int)));
            j = j + 1;
        }
        let ghost with_gems = sockets@;
        if i == 2 || i == 5 {
            let (capacity, used, shape) = if i == 2 {
                (treasure.sockets.0 as usize, gems[0] + gems[1] + gems[2], Shape::Circular)
            } else {
                (treasure.sockets.1 as usize, gems[3] + gems[4] + gems[5], Shape::Rectangular)
            };
            let mut e: usize = 0;
            while e < capacity - used
                invariant
                    used <= capacity,
                    e <= capacity - used,
                    sockets@ == with_gems + Seq::new(e as nat, |k: int| Socket { shape: shape, gem_id: None }),
                decreases capacity - used - e,
            {
                sockets.push(Socket { shape, gem_id: None });
                assert(sockets@ =~= with_gems + Seq::new((e + 1) as nat, |k: int| Socket { shape: shape, gem_id: None }));
                e = e + 1;
            }
        }
        proof {
            reveal_with_fuel(layout_upto, 1);
            assert(sockets@ =~= layout_upto(*treasure, gems@, i + 1));
        }
        i = i + 1;
    }
    proof {
        lemma_appraisal_bounds(*treasure, gems@);
    }
    SocketedTreasure { id: treasure.id, sockets, appraisal: appraise(treasure, gems) }
}

/// Gems of type `x` used by all fillings of an assignment together.
pub open spec fn coord_sum(a: Seq<Seq<usize>>, x: int) -> int
    decreases a.len(),
{
    if a.len() == 0 {
        0
    } else {
        coord_sum(a.drop_last(), x) + a.last()[x]
    }
}

/// All fillings of an assignment together use no more gems than the budget.
pub open spec fn within_budget(a: Seq<Seq<usize>>, budget: Seq<usize>) -> bool {
    forall|x: int| 0 <= x < 6 ==> #[trigger] coord_sum(a, x) <= budget[x]
}

/// The objective summed over the treasures of an assignment.
pub open spec fn total_score(obj: ObjectiveFunction, ts: Seq<Treasure>, a: Seq<Seq<usize>>) -> int
    decreases a.len(),
{
    if a.len() == 0 || ts.len() == 0 {
        0
    } else {
        total_score(obj, ts.drop_last(), a.drop_last()) + objective_score(obj, ts.last(), a.last())
    }
}

/// `a` gives each treasure of `ts` a filling of its sockets, and the budget
/// pays for all of them together.
pub open spec fn feasible(ts: Seq<Treasure>, a: Seq<Seq<usize>>, budget: Seq<usize>) -> bool {
    &&& a.len() == ts.len()
    &&& forall|k: int| 0 <= k < a.len() ==> #[trigger] fits_shape(a[k], ts[k].sockets.0 as int, ts[k].sockets.1 as int)
    &&& within_budget(a, budget)
}

/// `a` is feasible and no feasible assignment scores more.
pub open spec fn optimal(obj: ObjectiveFunction, ts: Seq<Treasure>, a: Seq<Seq<usize>>, budget: Seq<usize>) -> bool {
    &&& feasible(ts, a, budget)
    &&& forall|b: Seq<Seq<usize>>| #[trigger] feasible(ts, b, budget) ==> total_score(obj, ts, b) <= total_score(obj, ts, a)
}

/// `v` lists the treasures `ts` filled as `a` says.
pub open spec fn socketed_all(v: Seq<SocketedTreasure>, ts: Seq<Treasure>, a: Seq<Seq<usize>>) -> bool {
    &&& v.len() == ts.len()
    &&& a.len() == ts.len()
    &&& forall|k: int| 0 <= k < v.len() ==> #[trigger] socketed_ok(v[k], ts[k], a[k])
}

/// `v` answers a request: it lists the requested treasures, filled as some
/// optimal assignment of the budget says.
pub open spec fn allocation_ok(coll: Seq<usize>, budget: Seq<usize>, obj: ObjectiveFunction, v: Seq<SocketedTreasure>) -> bool {
    &&& collection_size(coll) <= MAX_TREASURES
    &&& exists|a: Seq<Seq<usize>>| optimal(obj, instances(coll), a, budget) && #[trigger] socketed_all(v, instances(coll), a)
}

/// The views of a list of combos.
pub open spec fn combo_views(r: Seq<Combo>) -> Seq<Seq<usize>> {
    Seq::new(r.len(), |k: int| r[k]@)
}

/// One entry of a layer of the merge: the best way found to use exactly
/// `total` gems on the treasures so far, made of entry `prior` of the layer
/// before and `filling` for the latest treasure.
#[derive(Clone, Copy)]
struct Step {
    total: Combo,
    prior: usize,
    filling: Combo,
    score: usize,
}

spec fn step_ok(obj: ObjectiveFunction, t: Treasure, budget: Seq<usize>, prev: Seq<Step>, k: int, e: Step) -> bool {
    &&& fits_shape(e.filling@, t.sockets.0 as int, t.sockets.1 as int)
    &&& combo_le(e.total@, budget)
    &&& e.score <= (k + 1) * MAX_APPRAISAL
    &&& if k == 0 {
        &&& e.total@ == e.filling@
        &&& e.score == objective_score(obj, t, e.filling@)
    } else {
        &&& e.prior < prev.len()
        &&& combo_sum(e.total@, prev[e.prior as int].total@, e.filling@)
        &&& e.score == prev[e.prior as int].score + objective_score(obj, t, e.filling@)
    }
}

spec fn layer_ok(obj: ObjectiveFunction, t: Treasure, budget: Seq<usize>, prev: Seq<Step>, k: int, layer: Seq<Step>) -> bool {
    forall|i: int| 0 <= i < layer.len() ==> #[trigger] step_ok(obj, t, budget, prev, k, layer[i])
}

spec fn prev_layer(layers: Seq<Vec<Step>>, k: int) -> Seq<Step> {
    if k == 0 {
        Seq::empty()
    } else {
        layers[k - 1]@
    }
}

spec fn layers_ok(obj: ObjectiveFunction, ts: Seq<Treasure>, budget: Seq<usize>, layers: Seq<Vec<Step>>) -> bool {
    &&& layers.len() <= ts.len()
    &&& forall|k: int| 0 <= k < layers.len() ==> #[trigger] layer_ok(obj, ts[k], budget, prev_layer(layers, k), k, layers[k]@)
}

spec fn matches_sum(t: Seq<usize>, a: Seq<Seq<usize>>) -> bool {
    forall|x: int| 0 <= x < 6 ==> #[trigger] t[x] == coord_sum(a, x)
}

spec fn reached(obj: ObjectiveFunction, ts: Seq<Treasure>, layer: Seq<Step>, a: Seq<Seq<usize>>) -> bool {
    exists|p: int| 0 <= p < layer.len() && matches_sum(layer[p].total@, a) && #[trigger] layer[p].score >= total_score(obj, ts, a)
}

/// Every feasible assignment of `ts` is matched by an entry of `layer` with the
/// same gem use and at least its score.
spec fn layer_complete(obj: ObjectiveFunction, ts: Seq<Treasure>, budget: Seq<usize>, layer: Seq<Step>) -> bool {
    forall|a: Seq<Seq<usize>>| #[trigger] feasible(ts, a, budget) ==> reached(obj, ts, layer, a)
}

/// The fillings that the back pointers from entry `i` of layer `k` lead to.
spec fn recover(layers: Seq<Vec<Step>>, k: int, i: int) -> Seq<Seq<usize>>
    decreases k,
{
    if k <= 0 {
        seq![layers[0]@[i].filling@]
    } else {
        recover(layers, k - 1, layers[k]@[i].prior as int).push(layers[k]@[i].filling@)
    }
}

proof fn lemma_coord_sum_nonneg(a: Seq<Seq<usize>>, x: int)
    ensures
        coord_sum(a, x) >= 0,
    decreases a.len(),
{
    if a.len() > 0 {
        lemma_coord_sum_nonneg(a.drop_last(), x);
    }
}

proof fn lemma_recover(obj: ObjectiveFunction, ts: Seq<Treasure>, budget: Seq<usize>, layers: Seq<Vec<Step>>, k: int, i: int)
    requires
        layers_ok(obj, ts, budget, layers),
        0 <= k < layers.len(),
        0 <= i < layers[k]@.len(),
    ensures
        recover(layers, k, i).len() == k + 1,
        matches_sum(layers[k]@[i].total@, recover(layers, k, i)),
        total_score(obj, ts.take(k + 1), recover(layers, k, i)) == layers[k]@[i].score,
        feasible(ts.take(k + 1), recover(layers, k, i), budget),
    decreases k,
{
    let a = recover(layers, k, i);
    let e = layers[k]@[i];
    assert(layer_ok(obj, ts[k], budget, prev_layer(layers, k), k, layers[k]@));
    assert(step_ok(obj, ts[k], budget, prev_layer(layers, k), k, e));
    if k == 0 {
        assert(a.drop_last() =~= Seq::<Seq<usize>>::empty());
        assert(ts.take(1).drop_last() =~= Seq::<Treasure>::empty());
        assert forall|x: int| 0 <= x < 6 implies #[trigger] e.total@[x] == coord_sum(a, x) by {
            assert(coord_sum(a.drop_last(), x) == 0);
        }
        assert(ts.take(1).last() == ts[0]);
        assert(a.last() == e.filling@);
        assert(total_score(obj, ts.take(1).drop_last(), a.drop_last()) == 0);
    } else {
        let p = e.prior as int;
        lemma_recover(obj, ts, budget, layers, k - 1, p);
        let b = recover(layers, k - 1, p);
        assert(a.drop_last() =~= b);
        assert(ts.take(k + 1).drop_last() =~= ts.take(k));
        assert(ts.take(k + 1).last() == ts[k]);
        assert(a.last() == e.filling@);
        assert forall|x: int| 0 <= x < 6 implies #[trigger] e.total@[x] == coord_sum(a, x) by {
            assert(layers[k - 1]@[p].total@[x] == coord_sum(b, x));
        }
        assert forall|j: int| 0 <= j < a.len() implies #[trigger] fits_shape(a[j], ts.take(k + 1)[j].sockets.0 as int, ts.take(k + 1)[j].sockets.1 as int) by {
            if j < k {
                assert(a[j] == b[j]);
                assert(fits_shape(b[j], ts.take(k)[j].sockets.0 as int, ts.take(k)[j].sockets.1 as int));
            }
        }
    }
    assert(within_budget(a, budget)) by {
        assert forall|x: int| 0 <= x < 6 implies #[trigger] coord_sum(a, x) <= budget[x] by {
            assert(e.total@[x] == coord_sum(a, x));
            assert(e.total@[x] <= budget[x]);
        }
    }
}

/// The first layer: each candidate filling of the first treasure on its own.
fn first_layer(cands: &Vec<(Combo, Appraisal)>, treasure: &Treasure, gems: &Combo, obj: ObjectiveFunction) -> (r: Vec<Step>)
    requires
        catalog_sized(*treasure),
        forall|k: int| 0 <= k < cands@.len() ==> #[trigger] candidate_ok(*treasure, gems@, cands@[k]),
        forall|g: Seq<usize>| #[trigger] affordable(*treasure, gems@, g) ==> has_candidate(cands@, g),
    ensures
        layer_ok(obj, *treasure, gems@, Seq::empty(), 0, r@),
        layer_complete(obj, seq![*treasure], gems@, r@),
{
    let mut layer: Vec<Step> = Vec::new();
    let mut j: usize = 0;
    while j < cands.len()
        invariant
            j <= cands@.len(),
            layer@.len() == j,
            catalog_sized(*treasure),
            forall|k: int| 0 <= k < cands@.len() ==> #[trigger] candidate_ok(*treasure, gems@, cands@[k]),
            forall|k: int| 0 <= k < j ==> #[trigger] layer@[k].filling == cands@[k].0,
            layer_ok(obj, *treasure, gems@, Seq::empty(), 0, layer@),
        decreases cands@.len() - j,
    {
        let (c, ap) = cands[j];
        assert(candidate_ok(*treasure, gems@, cands@[j as int]));
        proof {
            lemma_appraisal_bounds(*treasure, c@);
        }
        let score = match obj {
            ObjectiveFunction::MaximizeBonus => ap.bonus,
            ObjectiveFunction::MaximizeValue => ap.value,
        };
        let step = Step { total: c, prior: 0, filling: c, score };
        assert(step_ok(obj, *treasure, gems@, Seq::empty(), 0, step));
        layer.push(step);
        assert(layer@[j as int] == step);
        j = j + 1;
    }
    proof {
        assert forall|a: Seq<Seq<usize>>| #[trigger] feasible(seq![*treasure], a, gems@) implies reached(obj, seq![*treasure], layer@, a) by {
            let g = a[0];
            assert(a.drop_last() =~= Seq::<Seq<usize>>::empty());
            assert(seq![*treasure].drop_last() =~= Seq::<Treasure>::empty());
            assert forall|x: int| 0 <= x < 6 implies #[trigger] g[x] == coord_sum(a, x) by {
                assert(coord_sum(a.drop_last(), x) == 0);
            }
            assert(seq![*treasure][0] == *treasure);
            assert(fits_shape(a[0], seq![*treasure][0].sockets.0 as int, seq![*treasure][0].sockets.1 as int));
            assert(fits_shape(g, treasure.sockets.0 as int, treasure.sockets.1 as int));
            assert forall|x: int| 0 <= x < 6 implies #[trigger] g[x] <= gems@[x] by {
                assert(coord_sum(a, x) <= gems@[x]);
            }
            assert(affordable(*treasure, gems@, g));
            let q = choose|q: int| 0 <= q < cands@.len() && #[trigger] cands@[q].0@ == g;
            assert(step_ok(obj, *treasure, gems@, Seq::empty(), 0, layer@[q]));
            assert(layer@[q].filling@ == g);
            assert(matches_sum(layer@[q].total@, a));
            assert(seq![*treasure].last() == *treasure);
            assert(a.last() == g);
            assert(total_score(obj, seq![*treasure].drop_last(), a.drop_last()) == 0);
            assert(layer@[q].score >= total_score(obj, seq![*treasure], a));
        }
    }
    layer
}

spec fn pair_fits(base: Seq<usize>, c: Seq<usize>, budget: Seq<usize>) -> bool {
    forall|x: int| 0 <= x < 6 ==> #[trigger] budget[x] >= base[x] + c[x]
}

spec fn covered(layer: Seq<Step>, base: Seq<usize>, c: Seq<usize>, s: int) -> bool {
    exists|p: int| 0 <= p < layer.len() && combo_sum(layer[p].total@, base, c) && #[trigger] layer[p].score >= s
}

/// Entry `i` of the layer before together with candidate `j` is accounted for
/// in `layer`.
spec fn pair_done(
    obj: ObjectiveFunction,
    t: Treasure,
    budget: Seq<usize>,
    prev: Seq<Step>,
    cands: Seq<(Combo, Appraisal)>,
    layer: Seq<Step>,
    i: int,
    j: int,
) -> bool {
    pair_fits(prev[i].total@, cands[j].0@, budget) ==> covered(
        layer,
        prev[i].total@,
        cands[j].0@,
        prev[i].score + objective_score(obj, t, cands[j].0@),
    )
}

proof fn lemma_covered_mono(old: Seq<Step>, new: Seq<Step>, base: Seq<usize>, c: Seq<usize>, s: int)
    requires
        covered(old, base, c, s),
        new.len() >= old.len(),
        forall|q: int| 0 <= q < old.len() ==> #[trigger] new[q].total@ == old[q].total@ && new[q].score >= old[q].score,
    ensures
        covered(new, base, c, s),
{
    let p = choose|p: int| 0 <= p < old.len() && combo_sum(old[p].total@, base, c) && #[trigger] old[p].score >= s;
    assert(new[p].total@ == old[p].total@);
    assert(new[p].score >= s);
}

/// Whether `total + c` stays within `budget`.
fn fits_remaining(total: &Combo, c: &Combo, budget: &Combo) -> (r: bool)
    requires
        combo_le(total@, budget@),
    ensures
        r == pair_fits(total@, c@, budget@),
{
    let mut x: usize = 0;
    while x < 6
        invariant
            x <= 6,
            combo_le(total@, budget@),
            forall|y: int| 0 <= y < x ==> #[trigger] budget@[y] >= total@[y] + c@[y],
        decreases 6 - x,
    {
        assert(total@[x as int] <= budget@[x as int]);
        if c[x] > budget[x] - total[x] {
            return false;
        }
        x = x + 1;
    }
    true
}

/// The position of the entry of `layer` whose total is `key`, if there is one.
fn find_step(layer: &Vec<Step>, key: &Combo) -> (r: Option<usize>)
    ensures
        match r {
            Some(p) => p < layer@.len() && layer@[p as int].total@ == key@,
            None => forall|p: int| 0 <= p < layer@.len() ==> #[trigger] layer@[p].total@ != key@,
        },
{
    let mut p: usize = 0;
    while p < layer.len()
        invariant
            p <= layer@.len(),
            forall|q: int| 0 <= q < p ==> #[trigger] layer@[q].total@ != key@,
        decreases layer@.len() - p,
    {
        match compare_combos(&layer[p].total, key) {
            std::cmp::Ordering::Equal => {
                return Some(p);
            },
            _ => {},
        }
        p = p + 1;
    }
    None
}

proof fn lemma_extend_complete(
    obj: ObjectiveFunction,
    ts: Seq<Treasure>,
    t: Treasure,
    budget: Seq<usize>,
    prev: Seq<Step>,
    cands: Seq<(Combo, Appraisal)>,
    layer: Seq<Step>,
)
    requires
        layer_complete(obj, ts, budget, prev),
        forall|g: Seq<usize>| #[trigger] affordable(t, budget, g) ==> has_candidate(cands, g),
        forall|i: int, j: int|
            0 <= i < prev.len() && 0 <= j < cands.len() ==> #[trigger] pair_done(obj, t, budget, prev, cands, layer, i, j),
    ensures
        layer_complete(obj, ts.push(t), budget, layer),
{
    let tp = ts.push(t);
    assert forall|a: Seq<Seq<usize>>| #[trigger] feasible(tp, a, budget) implies reached(obj, tp, layer, a) by {
        let b = a.drop_last();
        let g = a.last();
        let n = a.len() - 1;
        assert(tp.drop_last() =~= ts);
        assert(tp.last() == t);
        assert(fits_shape(a[n], tp[n].sockets.0 as int, tp[n].sockets.1 as int));
        assert forall|x: int| 0 <= x < 6 implies #[trigger] coord_sum(b, x) <= budget[x] by {
            assert(coord_sum(a, x) <= budget[x]);
        }
        assert forall|x: int| 0 <= x < 6 implies #[trigger] g[x] <= budget[x] by {
            assert(coord_sum(a, x) <= budget[x]);
            lemma_coord_sum_nonneg(b, x);
        }
        assert forall|k: int| 0 <= k < b.len() implies #[trigger] fits_shape(b[k], ts[k].sockets.0 as int, ts[k].sockets.1 as int) by {
            assert(fits_shape(a[k], tp[k].sockets.0 as int, tp[k].sockets.1 as int));
        }
        assert(within_budget(b, budget));
        assert(feasible(ts, b, budget));
        assert(reached(obj, ts, prev, b));
        let i = choose|i: int| 0 <= i < prev.len() && matches_sum(prev[i].total@, b) && #[trigger] prev[i].score >= total_score(obj, ts, b);
        assert(combo_le(g, budget));
        assert(affordable(t, budget, g));
        assert(has_candidate(cands, g));
        let j = choose|j: int| 0 <= j < cands.len() && #[trigger] cands[j].0@ == g;
        assert forall|x: int| 0 <= x < 6 implies #[trigger] budget[x] >= prev[i].total@[x] + cands[j].0@[x] by {
            assert(prev[i].total@[x] == coord_sum(b, x));
            assert(coord_sum(a, x) <= budget[x]);
        }
        assert(pair_done(obj, t, budget, prev, cands, layer, i, j));
        let s = prev[i].score + objective_score(obj, t, g);
        assert(covered(layer, prev[i].total@, g, s));
        let p = choose|p: int| 0 <= p < layer.len() && combo_sum(layer[p].total@, prev[i].total@, g) && #[trigger] layer[p].score >= s;
        assert forall|x: int| 0 <= x < 6 implies #[trigger] layer[p].total@[x] == coord_sum(a, x) by {
            assert(prev[i].total@[x] == coord_sum(b, x));
        }
        assert(matches_sum(layer[p].total@, a));
        assert(layer[p].score >= total_score(obj, tp, a));
    }
}

/// Merges the layer for the treasures so far with the candidate fillings of
/// the next treasure: for every total that the budget allows, the best score
/// over all pairs of an entry and a candidate that sum to it.
fn compute_sub_solution(
    prev: &Vec<Step>,
    cands: &Vec<(Combo, Appraisal)>,
    treasure: &Treasure,
    gems: &Combo,
    obj: ObjectiveFunction,
    k: usize,
    Ghost(ts): Ghost<Seq<Treasure>>,
) -> (r: Vec<Step>)
    requires
        1 <= k < MAX_TREASURES,
        catalog_sized(*treasure),
        forall|q: int| 0 <= q < prev@.len() ==> #[trigger] combo_le(prev@[q].total@, gems@),
            forall|q: int| 0 <= q < prev@.len() ==> #[trigger] prev@[q].score <= k * MAX_APPRAISAL,
        forall|j: int| 0 <= j < cands@.len() ==> #[trigger] candidate_ok(*treasure, gems@, cands@[j]),
        forall|g: Seq<usize>| #[trigger] affordable(*treasure, gems@, g) ==> has_candidate(cands@, g),
        layer_complete(obj, ts, gems@, prev@),
    ensures
        layer_ok(obj, *treasure, gems@, prev@, k as int, r@),
        forall|a: int, b: int|
            0 <= a < prev@.len() && 0 <= b < cands@.len() ==> #[trigger] pair_done(obj, *treasure, gems@, prev@, cands@, r@, a, b),
        forall|p: int, q: int| 0 <= p < q < r@.len() ==> #[trigger] r@[p].total@ != #[trigger] r@[q].total@,
        layer_complete(obj, ts.push(*treasure), gems@, r@),
{
    let mut layer: Vec<Step> = Vec::new();
    let mut i: usize = 0;
    while i < prev.len()
        invariant
            i <= prev@.len(),
            1 <= k < MAX_TREASURES,
            catalog_sized(*treasure),
            forall|q: int| 0 <= q < prev@.len() ==> #[trigger] combo_le(prev@[q].total@, gems@),
            forall|q: int| 0 <= q < prev@.len() ==> #[trigger] prev@[q].score <= k * MAX_APPRAISAL,
            forall|j: int| 0 <= j < cands@.len() ==> #[trigger] candidate_ok(*treasure, gems@, cands@[j]),
            layer_ok(obj, *treasure, gems@, prev@, k as int, layer@),
            forall|p: int, q: int| 0 <= p < q < layer@.len() ==> #[trigger] layer@[p].total@ != #[trigger] layer@[q].total@,
            forall|a: int, b: int|
                0 <= a < i && 0 <= b < cands@.len() ==> #[trigger] pair_done(obj, *treasure, gems@, prev@, cands@, layer@, a, b),
        decreases prev@.len() - i,
    {
        let e = prev[i];
        assert(combo_le(prev@[i as int].total@, gems@));
        let mut j: usize = 0;
        while j < cands.len()
            invariant
                i < prev@.len(),
                j <= cands@.len(),
                e == prev@[i as int],
                1 <= k < MAX_TREASURES,
                catalog_sized(*treasure),
                combo_le(e.total@, gems@),
                e.score <= k * MAX_APPRAISAL,
                forall|j: int| 0 <= j < cands@.len() ==> #[trigger] candidate_ok(*treasure, gems@, cands@[j]),
                layer_ok(obj, *treasure, gems@, prev@, k as int, layer@),
                forall|p: int, q: int| 0 <= p < q < layer@.len() ==> #[trigger] layer@[p].total@ != #[trigger] layer@[q].total@,
                forall|a: int, b: int|
                    0 <= a < i && 0 <= b < cands@.len() ==> #[trigger] pair_done(obj, *treasure, gems@, prev@, cands@, layer@, a, b),
                forall|b: int| 0 <= b < j ==> #[trigger] pair_done(obj, *treasure, gems@, prev@, cands@, layer@, i as int, b),
            decreases cands@.len() - j,
        {
            let (c, ap) = cands[j];
            assert(candidate_ok(*treasure, gems@, cands@[j as int]));
            if fits_remaining(&e.total, &c, gems) {
                proof {
                    lemma_appraisal_bounds(*treasure, c@);
                }
                let key = add_combos(&e.total, &c);
                let gain = match obj {
                    ObjectiveFunction::MaximizeBonus => ap.bonus,
                    ObjectiveFunction::MaximizeValue => ap.value,
                };
                assert(e.score + gain <= (k + 1) * MAX_APPRAISAL) by (nonlinear_arith)
                    requires
                        e.score <= k * MAX_APPRAISAL,
                        gain <= MAX_APPRAISAL,
                ;
                assert((k + 1) * MAX_APPRAISAL <= MAX_TREASURES * MAX_APPRAISAL) by (nonlinear_arith)
                    requires
                        k < MAX_TREASURES,
                ;
                let sum = e.score + gain;
                let step = Step { total: key, prior: i, filling: c, score: sum };
                assert(combo_le(key@, gems@));
                assert(step_ok(obj, *treasure, gems@, prev@, k as int, step));
                let ghost old_layer = layer@;
                match find_step(&layer, &key) {
                    Some(p) => {
                        if sum > layer[p].score {
                            layer.set(p, step);
                        }
                        proof {
                            assert(layer@[p as int].total@ == key@);
                            assert(layer@[p as int].score >= sum);
                            assert(covered(layer@, e.total@, c@, sum as int));
                        }
                    },
                    None => {
                        layer.push(step);
                        proof {
                            assert(layer@[layer@.len() - 1] == step);
                            assert(covered(layer@, e.total@, c@, sum as int));
                        }
                    },
                }
                proof {
                    assert forall|p: int, q: int| 0 <= p < q < layer@.len() implies #[trigger] layer@[p].total@ != #[trigger] layer@[q].total@ by {
                        if q < old_layer.len() {
                            assert(layer@[p].total@ == old_layer[p].total@);
                            assert(layer@[q].total@ == old_layer[q].total@);
                        } else {
                            assert(layer@[p] == old_layer[p]);
                        }
                    }
                    assert forall|q: int| 0 <= q < layer@.len() implies #[trigger] step_ok(obj, *treasure, gems@, prev@, k as int, layer@[q]) by {
                        if q < old_layer.len() && layer@[q] != step {
                            assert(layer@[q] == old_layer[q]);
                        }
                    }
                    assert forall|a: int, b: int|
                        0 <= a < i && 0 <= b < cands@.len() implies #[trigger] pair_done(obj, *treasure, gems@, prev@, cands@, layer@, a, b) by {
                        assert(pair_done(obj, *treasure, gems@, prev@, cands@, old_layer, a, b));
                        if pair_fits(prev@[a].total@, cands@[b].0@, gems@) {
                            lemma_covered_mono(old_layer, layer@, prev@[a].total@, cands@[b].0@, prev@[a].score + objective_score(obj, *treasure, cands@[b].0@));
                        }
                    }
                    assert forall|b: int| 0 <= b < j + 1 implies #[trigger] pair_done(obj, *treasure, gems@, prev@, cands@, layer@, i as int, b) by {
                        if b < j {
                            assert(pair_done(obj, *treasure, gems@, prev@, cands@, old_layer, i as int, b));
                            if pair_fits(prev@[i as int].total@, cands@[b].0@, gems@) {
                                lemma_covered_mono(old_layer, layer@, prev@[i as int].total@, cands@[b].0@, prev@[i as int].score + objective_score(obj, *treasure, cands@[b].0@));
                            }
                        }
                    }
                }
            }
            j = j + 1;
        }
        i = i + 1;
    }
    proof {
        lemma_extend_complete(obj, ts, *treasure, gems@, prev@, cands@, layer@);
    }
    layer
}

/// Walks back from the best entry of the last layer and returns the filling
/// that each treasure gets on the way.
fn trace_optimal_solution(
    layers: &Vec<Vec<Step>>,
    obj: ObjectiveFunction,
    Ghost(ts): Ghost<Seq<Treasure>>,
    Ghost(budget): Ghost<Seq<usize>>,
) -> (r: Option<Vec<Combo>>)
    requires
        layers@.len() >= 1,
        layers_ok(obj, ts, budget, layers@),
    ensures
        r is None <==> layers@[layers@.len() - 1]@.len() == 0,
        r matches Some(r) ==> exists|b: int|
            0 <= b < layers@[layers@.len() - 1]@.len() && (forall|q: int|
                0 <= q < layers@[layers@.len() - 1]@.len() ==> #[trigger] layers@[layers@.len() - 1]@[q].score
                    <= layers@[layers@.len() - 1]@[b].score) && combo_views(r@) == #[trigger] recover(
                layers@,
                layers@.len() - 1,
                b,
            ),
{
    let n = layers.len();
    let last = &layers[n - 1];
    if last.len() == 0 {
        return None;
    }
    let mut best: usize = 0;
    let mut q: usize = 1;
    while q < last.len()
        invariant
            1 <= q <= last@.len(),
            best < last@.len(),
            forall|p: int| 0 <= p < q ==> #[trigger] last@[p].score <= last@[best as int].score,
        decreases last@.len() - q,
    {
        if last[q].score > last[best].score {
            best = q;
        }
        q = q + 1;
    }
    let mut solution: Vec<Combo> = Vec::new();
    let mut k: usize = n - 1;
    let mut idx: usize = best;
    while k > 0
        invariant
            n == layers@.len(),
            k < n,
            layers_ok(obj, ts, budget, layers@),
            idx < layers@[k as int]@.len(),
            recover(layers@, n - 1, best as int) == recover(layers@, k as int, idx as int) + combo_views(solution@),
        decreases k,
    {
        let e = layers[k][idx];
        proof {
            assert(layer_ok(obj, ts[k as int], budget, prev_layer(layers@, k as int), k as int, layers@[k as int]@));
            assert(step_ok(obj, ts[k as int], budget, prev_layer(layers@, k as int), k as int, e));
        }
        let ghost before = solution@;
        solution.insert(0, e.filling);
        proof {
            assert(combo_views(solution@) =~= seq![e.filling@] + combo_views(before));
            assert(recover(layers@, k as int, idx as int) + combo_views(before) =~= recover(layers@, k - 1, e.prior as int) + combo_views(solution@));
        }
        idx = e.prior;
        k = k - 1;
    }
    let ghost before = solution@;
    solution.insert(0, layers[0][idx].filling);
    proof {
        assert(combo_views(solution@) =~= seq![layers@[0]@[idx as int].filling@] + combo_views(before));
        assert(recover(layers@, 0, idx as int) + combo_views(before) =~= combo_views(solution@));
    }
    Some(solution)
}

/// The score that an objective reads off a candidate's appraisal.
spec fn cand_score(obj: ObjectiveFunction, e: (Combo, Appraisal)) -> int {
    match obj {
        ObjectiveFunction::MaximizeBonus => e.1.bonus as int,
        ObjectiveFunction::MaximizeValue => e.1.value as int,
    }
}

/// The position of the first candidate with the highest score.
fn best_candidate(cands: &Vec<(Combo, Appraisal)>, obj: ObjectiveFunction) -> (r: usize)
    requires
        cands@.len() > 0,
    ensures
        r < cands@.len(),
        forall|q: int| 0 <= q < cands@.len() ==> #[trigger] cand_score(obj, cands@[q]) <= cand_score(obj, cands@[r as int]),
{
    let mut best: usize = 0;
    let mut q: usize = 1;
    while q < cands.len()
        invariant
            1 <= q <= cands@.len(),
            best < cands@.len(),
            forall|p: int| 0 <= p < q ==> #[trigger] cand_score(obj, cands@[p]) <= cand_score(obj, cands@[best as int]),
        decreases cands@.len() - q,
    {
        let better = match obj {
            ObjectiveFunction::MaximizeBonus => cands[q].1.bonus > cands[best].1.bonus,
            ObjectiveFunction::MaximizeValue => cands[q].1.value > cands[best].1.value,
        };
        if better {
            best = q;
        }
        q = q + 1;
    }
    best
}

proof fn lemma_instances_sized(coll: Seq<usize>, n: int)
    requires
        0 <= n <= 10,
    ensures
        forall|k: int| 0 <= k < instances_upto(coll, n).len() ==> #[trigger] catalog_sized(instances_upto(coll, n)[k]),
    decreases n,
{
    if n > 0 {
        lemma_instances_sized(coll, n - 1);
        lemma_catalog_treasure_sized(n - 1);
        let front = instances_upto(coll, n - 1);
        assert forall|k: int| 0 <= k < instances_upto(coll, n).len() implies #[trigger] catalog_sized(instances_upto(coll, n)[k]) by {
            if k < front.len() {
                assert(instances_upto(coll, n)[k] == front[k]);
            } else {
                assert(instances_upto(coll, n)[k] == catalog_treasure(n - 1));
            }
        }
    }
}

proof fn lemma_single_optimal(obj: ObjectiveFunction, ts: Seq<Treasure>, budget: Seq<usize>, cands: Seq<(Combo, Appraisal)>, best: int)
    requires
        ts.len() == 1,
        0 <= best < cands.len(),
        forall|k: int| 0 <= k < cands.len() ==> #[trigger] candidate_ok(ts[0], budget, cands[k]),
        forall|g: Seq<usize>| #[trigger] affordable(ts[0], budget, g) ==> has_candidate(cands, g),
        forall|q: int| 0 <= q < cands.len() ==> #[trigger] cand_score(obj, cands[q]) <= cand_score(obj, cands[best]),
    ensures
        optimal(obj, ts, seq![cands[best].0@], budget),
{
    let t = ts[0];
    assert(ts.drop_last() =~= Seq::<Treasure>::empty());
    assert(ts.last() == t);
    let g = cands[best].0@;
    let a = seq![g];
    assert(candidate_ok(t, budget, cands[best]));
    assert(a.drop_last() =~= Seq::<Seq<usize>>::empty());
    assert forall|x: int| 0 <= x < 6 implies #[trigger] coord_sum(a, x) <= budget[x] by {
        assert(coord_sum(a.drop_last(), x) == 0);
        assert(g[x] <= budget[x]);
    }
    assert(feasible(ts, a, budget));
    assert(a.last() == g);
    assert(total_score(obj, ts.drop_last(), a.drop_last()) == 0);
    assert(total_score(obj, ts, a) == objective_score(obj, t, g));
    assert forall|b: Seq<Seq<usize>>| #[trigger] feasible(ts, b, budget) implies total_score(obj, ts, b) <= total_score(obj, ts, a) by {
        let h = b[0];
        assert(b.drop_last() =~= Seq::<Seq<usize>>::empty());
        assert(b.last() == h);
        assert(fits_shape(b[0], ts[0].sockets.0 as int, ts[0].sockets.1 as int));
        assert forall|x: int| 0 <= x < 6 implies #[trigger] h[x] <= budget[x] by {
            assert(coord_sum(b.drop_last(), x) == 0);
            assert(coord_sum(b, x) <= budget[x]);
        }
        assert(affordable(t, budget, h));
        let q = choose|q: int| 0 <= q < cands.len() && #[trigger] cands[q].0@ == h;
        assert(candidate_ok(t, budget, cands[q]));
        assert(cand_score(obj, cands[q]) <= cand_score(obj, cands[best]));
        assert(total_score(obj, ts.drop_last(), b.drop_last()) == 0);
        assert(total_score(obj, ts, b) == objective_score(obj, t, h));
    }
}

/// Fills the requested treasures from the shared gem budget so that the
/// chosen objective, summed over all of them, is as large as possible.
///
/// The treasures come in catalog order, each repeated as often as requested.
/// A request for more than `MAX_TREASURES` treasures is refused.
///
/// The contract fixes the total of the objective, not which optimal
/// assignment is returned when several tie. In practice ties are broken in a
/// fixed order: candidates are enumerated in a fixed order, a merge keeps the
/// first entry of the highest score for each gem total, and the trace starts
/// from the first entry of the highest score.
pub fn allocate_gems(
    treasure_collection: TreasureCollection,
    gems: Combo,
    obj_fn: ObjectiveFunction,
) -> (r: Result<Vec<SocketedTreasure>, AllocationError>)
    ensures
        match r {
            Ok(v) => allocation_ok(treasure_collection@, gems@, obj_fn, v@),
            Err(e) => e == AllocationError::InvalidInput && collection_size(treasure_collection@)
                > MAX_TREASURES,
        },
        collection_size(treasure_collection@) == 0 ==> (r matches Ok(v) && v@.len() == 0),
{
    let ghost coll = treasure_collection@;
    let mut size: usize = 0;
    let mut i: usize = 0;
    while i < TREASURE_KINDS
        invariant
            i <= TREASURE_KINDS,
            coll == treasure_collection@,
            size == size_upto(coll, i as int),
            size <= MAX_TREASURES,
        decreases TREASURE_KINDS - i,
    {
        if treasure_collection[i] > MAX_TREASURES - size {
            proof {
                lemma_size_upto(coll, i + 1, 10);
            }
            return Err(AllocationError::InvalidInput);
        }
        size = size + treasure_collection[i];
        i = i + 1;
    }
    assert(collection_size(treasure_collection@) <= MAX_TREASURES);
    let treasures = treasures_from_collection(treasure_collection);
    let ghost ts = treasures@;
    proof {
        lemma_size_upto(coll, 10, 10);
        lemma_instances_sized(coll, 10);
    }
    let n = treasures.len();
    if n == 0 {
        let none: Vec<SocketedTreasure> = Vec::new();
        proof {
            let a = Seq::<Seq<usize>>::empty();
            assert(feasible(ts, a, gems@));
            assert(optimal(obj_fn, ts, a, gems@));
            assert(socketed_all(Seq::<SocketedTreasure>::empty(), ts, a));
            assert(none@ =~= Seq::<SocketedTreasure>::empty());
            assert(ts == instances(treasure_collection@));
            assert(socketed_all(none@, instances(treasure_collection@), a));
            assert(allocation_ok(treasure_collection@, gems@, obj_fn, none@));
        }
        return Ok(none);
    }
    let solution: Vec<Combo> = if n == 1 {
        let t = treasures[0];
        let cands = get_valid_combos(&t, &gems);
        proof {
            let zero = seq![0usize, 0, 0, 0, 0, 0];
            assert(affordable(t, gems@, zero));
            assert(has_candidate(cands@, zero));
        }
        let best = best_candidate(&cands, obj_fn);
        let mut solution: Vec<Combo> = Vec::new();
        solution.push(cands[best].0);
        proof {
            lemma_single_optimal(obj_fn, ts, gems@, cands@, best as int);
            assert(combo_views(solution@) =~= seq![cands@[best as int].0@]);
        }
        solution
    } else {
        let mut layers: Vec<Vec<Step>> = Vec::new();
        let c0 = get_valid_combos(&treasures[0], &gems);
        layers.push(first_layer(&c0, &treasures[0], &gems, obj_fn));
        proof {
            assert(ts.take(1) =~= seq![ts[0]]);
            assert(layer_ok(obj_fn, ts[0], gems@, prev_layer(layers@, 0), 0, layers@[0]@));
        }
        let mut k: usize = 1;
        while k < n
            invariant
                1 <= k <= n,
                n == ts.len(),
                n <= MAX_TREASURES,
                treasures@ == ts,
                forall|q: int| 0 <= q < n ==> #[trigger] catalog_sized(ts[q]),
                layers@.len() == k,
                layers_ok(obj_fn, ts, gems@, layers@),
                layer_complete(obj_fn, ts.take(k as int), gems@, layers@[k - 1]@),
            decreases n - k,
        {
            let cands = get_valid_combos(&treasures[k], &gems);
            proof {
                assert(layer_ok(obj_fn, ts[k - 1], gems@, prev_layer(layers@, k - 1), k - 1, layers@[k - 1]@));
                assert forall|q: int| 0 <= q < layers@[k - 1]@.len() implies #[trigger] combo_le(layers@[k - 1]@[q].total@, gems@) by {
                    assert(step_ok(obj_fn, ts[k - 1], gems@, prev_layer(layers@, k - 1), k - 1, layers@[k - 1]@[q]));
                }
                assert forall|q: int| 0 <= q < layers@[k - 1]@.len() implies #[trigger] layers@[k - 1]@[q].score <= k * MAX_APPRAISAL by {
                    assert(step_ok(obj_fn, ts[k - 1], gems@, prev_layer(layers@, k - 1), k - 1, layers@[k - 1]@[q]));
                }
            }
            let next = compute_sub_solution(&layers[k - 1], &cands, &treasures[k], &gems, obj_fn, k, Ghost(ts.take(k as int)));
            let ghost before = layers@;
            layers.push(next);
            proof {
                assert(ts.take(k as int).push(ts[k as int]) =~= ts.take(k + 1));
                assert forall|j: int| 0 <= j < layers@.len() implies #[trigger] layer_ok(obj_fn, ts[j], gems@, prev_layer(layers@, j), j, layers@[j]@) by {
                    if j < k {
                        assert(layers@[j] == before[j]);
                        assert(prev_layer(layers@, j) == prev_layer(before, j));
                        assert(layer_ok(obj_fn, ts[j], gems@, prev_layer(before, j), j, before[j]@));
                    }
                }
            }
            k = k + 1;
        }
        proof {
            assert(ts.take(n as int) =~= ts);
            assert(layer_ok(obj_fn, ts[0], gems@, prev_layer(layers@, 0), 0, layers@[0]@));
        }
        let ghost last = layers@[n - 1]@;
        proof {
            // The empty filling of every treasure is feasible, so the last layer is not empty.
            let zero = seq![0usize, 0, 0, 0, 0, 0];
            let empty = Seq::new(n as nat, |q: int| zero);
            assert forall|x: int| 0 <= x < 6 implies #[trigger] coord_sum(empty, x) <= gems@[x] by {
                lemma_zero_sum(empty, x);
            }
            assert(feasible(ts, empty, gems@));
            assert(reached(obj_fn, ts, last, empty));
        }
        let solution = match trace_optimal_solution(&layers, obj_fn, Ghost(ts), Ghost(gems@)) {
            Some(solution) => solution,
            None => {
                return Err(AllocationError::InfeasibleAllocation);
            },
        };
        proof {
            let b = choose|b: int|
                0 <= b < last.len() && (forall|q: int| 0 <= q < last.len() ==> #[trigger] last[q].score <= last[b].score)
                    && combo_views(solution@) == #[trigger] recover(layers@, n - 1, b);
            lemma_recover(obj_fn, ts, gems@, layers@, n - 1, b);
            let a = combo_views(solution@);
            assert forall|c: Seq<Seq<usize>>| #[trigger] feasible(ts, c, gems@) implies total_score(obj_fn, ts, c) <= total_score(obj_fn, ts, a) by {
                assert(reached(obj_fn, ts, last, c));
                let p = choose|p: int| 0 <= p < last.len() && matches_sum(last[p].total@, c) && #[trigger] last[p].score >= total_score(obj_fn, ts, c);
                assert(last[p].score <= last[b].score);
            }
            assert(optimal(obj_fn, ts, a, gems@));
        }
        solution
    };
    let ghost a = combo_views(solution@);
    assert(optimal(obj_fn, ts, a, gems@));
    let mut result: Vec<SocketedTreasure> = Vec::with_capacity(n);
    let mut k: usize = 0;
    while k < n
        invariant
            k <= n,
            n == ts.len(),
            treasures@ == ts,
            a == combo_views(solution@),
            feasible(ts, a, gems@),
            forall|q: int| 0 <= q < n ==> #[trigger] catalog_sized(ts[q]),
            result@.len() == k,
            forall|q: int| 0 <= q < k ==> #[trigger] socketed_ok(result@[q], ts[q], a[q]),
        decreases n - k,
    {
        assert(fits_shape(a[k as int], ts[k as int].sockets.0 as int, ts[k as int].sockets.1 as int));
        result.push(create_socketed_treasure(&treasures[k], &solution[k]));
        k = k + 1;
    }
    assert(socketed_all(result@, ts, a));
    assert(ts == instances(treasure_collection@));
    assert(optimal(obj_fn, instances(treasure_collection@), a, gems@) && socketed_all(result@, instances(treasure_collection@), a));
    assert(allocation_ok(treasure_collection@, gems@, obj_fn, result@));
    Ok(result)
}

proof fn lemma_zero_sum(a: Seq<Seq<usize>>, x: int)
    requires
        0 <= x < 6,
        forall|q: int| 0 <= q < a.len() ==> #[trigger] a[q] == seq![0usize, 0, 0, 0, 0, 0],
    ensures
        coord_sum(a, x) == 0,
    decreases a.len(),
{
    if a.len() > 0 {
        let b = a.drop_last();
        assert forall|q: int| 0 <= q < b.len() implies #[trigger] b[q] == seq![0usize, 0, 0, 0, 0, 0] by {
            assert(b[q] == a[q]);
        }
        lemma_zero_sum(b, x);
    }
}

/// The objective as the answer reports it: the sum over the returned
/// treasures of their appraised value or of their bonus.
pub open spec fn reported_total(obj: ObjectiveFunction, v: Seq<SocketedTreasure>) -> int
    decreases v.len(),
{
    if v.len() == 0 {
        0
    } else {
        reported_total(obj, v.drop_last()) + match obj {
            ObjectiveFunction::MaximizeBonus => v.last().appraisal.bonus as int,
            ObjectiveFunction::MaximizeValue => v.last().appraisal.value as int,
        }
    }
}

proof fn lemma_reported_total(obj: ObjectiveFunction, v: Seq<SocketedTreasure>, ts: Seq<Treasure>, a: Seq<Seq<usize>>)
    requires
        socketed_all(v, ts, a),
    ensures
        reported_total(obj, v) == total_score(obj, ts, a),
    decreases v.len(),
{
    if v.len() > 0 {
        let n = v.len() - 1;
        assert(socketed_ok(v[n], ts[n], a[n]));
        assert forall|k: int| 0 <= k < n implies #[trigger] socketed_ok(v.drop_last()[k], ts.drop_last()[k], a.drop_last()[k]) by {
            assert(socketed_ok(v[k], ts[k], a[k]));
        }
        lemma_reported_total(obj, v.drop_last(), ts.drop_last(), a.drop_last());
    }
}

/// Two answers to the same request report the same total of the objective:
/// whichever optimal assignment each holds, their scores are equal.
pub proof fn lemma_objective_total_deterministic(
    coll: Seq<usize>,
    budget: Seq<usize>,
    obj: ObjectiveFunction,
    v1: Seq<SocketedTreasure>,
    v2: Seq<SocketedTreasure>,
)
    requires
        allocation_ok(coll, budget, obj, v1),
        allocation_ok(coll, budget, obj, v2),
    ensures
        reported_total(obj, v1) == reported_total(obj, v2),
{
    let ts = instances(coll);
    let a1 = choose|a: Seq<Seq<usize>>| optimal(obj, ts, a, budget) && #[trigger] socketed_all(v1, ts, a);
    let a2 = choose|a: Seq<Seq<usize>>| optimal(obj, ts, a, budget) && #[trigger] socketed_all(v2, ts, a);
    assert(feasible(ts, a1, budget));
    assert(feasible(ts, a2, budget));
    lemma_reported_total(obj, v1, ts, a1);
    lemma_reported_total(obj, v2, ts, a2);
}

/// The fillings of an answer never use more gems of any type than the budget
/// holds.
pub proof fn lemma_budget_respected(coll: Seq<usize>, budget: Seq<usize>, obj: ObjectiveFunction, v: Seq<SocketedTreasure>)
    requires
        allocation_ok(coll, budget, obj, v),
    ensures
        exists|a: Seq<Seq<usize>>| #[trigger] socketed_all(v, instances(coll), a) && within_budget(a, budget),
{
    let ts = instances(coll);
    let a = choose|a: Seq<Seq<usize>>| optimal(obj, ts, a, budget) && #[trigger] socketed_all(v, ts, a);
    assert(feasible(ts, a, budget));
}

proof fn lemma_single_instance(coll: Seq<usize>, i: int, n: int)
    requires
        coll.len() == 10,
        0 <= i < 10,
        0 <= n <= 10,
        coll[i] == 1,
        forall|j: int| 0 <= j < 10 && j != i ==> #[trigger] coll[j] == 0,
    ensures
        instances_upto(coll, n) == if i < n { seq![catalog_treasure(i)] } else { Seq::<Treasure>::empty() },
    decreases n,
{
    if n > 0 {
        lemma_single_instance(coll, i, n - 1);
        if n - 1 == i {
            assert(instances_upto(coll, n) =~= seq![catalog_treasure(i)]);
        } else {
            assert(coll[n - 1] == 0);
            assert(instances_upto(coll, n) =~= instances_upto(coll, n - 1));
        }
    }
}

/// With one treasure, catalog entry `i`, requested and the value maximized,
/// the answer is that treasure filled with an affordable combo of the highest
/// appraised value.
pub proof fn lemma_single_treasure_best_value(coll: Seq<usize>, i: int, budget: Seq<usize>, v: Seq<SocketedTreasure>)
    requires
        allocation_ok(coll, budget, ObjectiveFunction::MaximizeValue, v),
        coll.len() == 10,
        0 <= i < 10,
        coll[i] == 1,
        forall|j: int| 0 <= j < 10 && j != i ==> #[trigger] coll[j] == 0,
    ensures
        v.len() == 1,
        v[0].id == catalog_treasure(i).id,
        exists|g: Seq<usize>| #[trigger] affordable(catalog_treasure(i), budget, g) && v[0].appraisal.value == appraised_value(catalog_treasure(i), g),
        forall|g: Seq<usize>| #[trigger] affordable(catalog_treasure(i), budget, g) ==> appraised_value(catalog_treasure(i), g) <= v[0].appraisal.value,
{
    lemma_single_instance(coll, i, 10);
    let obj = ObjectiveFunction::MaximizeValue;
    let ts = instances(coll);
    lemma_size_upto(coll, 10, 10);
    let t = ts[0];
    assert(t == catalog_treasure(i));
    let a = choose|a: Seq<Seq<usize>>| optimal(obj, ts, a, budget) && #[trigger] socketed_all(v, ts, a);
    assert(ts.drop_last() =~= Seq::<Treasure>::empty());
    assert(ts.last() == t);
    assert(socketed_ok(v[0], ts[0], a[0]));
    assert(fits_shape(a[0], t.sockets.0 as int, t.sockets.1 as int));
    assert(a.drop_last() =~= Seq::<Seq<usize>>::empty());
    assert(a.last() == a[0]);
    assert forall|x: int| 0 <= x < 6 implies #[trigger] a[0][x] <= budget[x] by {
        assert(coord_sum(a.drop_last(), x) == 0);
        assert(coord_sum(a, x) <= budget[x]);
    }
    assert(affordable(t, budget, a[0]));
    assert(total_score(obj, ts.drop_last(), a.drop_last()) == 0);
    assert(total_score(obj, ts, a) == appraised_value(t, a[0]));
    assert forall|g: Seq<usize>| #[trigger] affordable(t, budget, g) implies appraised_value(t, g) <= v[0].appraisal.value by {
        let b = seq![g];
        assert(b.drop_last() =~= Seq::<Seq<usize>>::empty());
        assert(b.last() == g);
        assert forall|x: int| 0 <= x < 6 implies #[trigger] coord_sum(b, x) <= budget[x] by {
            assert(coord_sum(b.drop_last(), x) == 0);
            assert(g[x] <= budget[x]);
        }
        assert(feasible(ts, b, budget));
        assert(total_score(obj, ts.drop_last(), b.drop_last()) == 0);
        assert(total_score(obj, ts, b) == appraised_value(t, g));
    }
}

/// Number of sockets in `s` that hold the gem with id `id`.
pub open spec fn id_count(s: Seq<Socket>, id: u8) -> int
    decreases s.len(),
{
    if s.len() == 0 {
        0
    } else {
        id_count(s.drop_last(), id) + if s.last().gem_id == Some(id) { 1int } else { 0int }
    }
}

/// Number of sockets over all treasures of an answer that hold gem `id`.
pub open spec fn answer_id_count(v: Seq<SocketedTreasure>, id: u8) -> int
    decreases v.len(),
{
    if v.len() == 0 {
        0
    } else {
        answer_id_count(v.drop_last(), id) + id_count(v.last().sockets@, id)
    }
}

proof fn lemma_id_count_concat(a: Seq<Socket>, b: Seq<Socket>, id: u8)
    ensures
        id_count(a + b, id) == id_count(a, id) + id_count(b, id),
    decreases b.len(),
{
    if b.len() > 0 {
        assert((a + b).drop_last() =~= a + b.drop_last());
        lemma_id_count_concat(a, b.drop_last(), id);
    } else {
        assert(a + b =~= a);
    }
}

proof fn lemma_id_count_repeat(n: nat, s: Socket, id: u8)
    ensures
        id_count(Seq::new(n, |j: int| s), id) == if s.gem_id == Some(id) { n as int } else { 0 },
    decreases n,
{
    if n > 0 {
        assert(Seq::new(n, |j: int| s).drop_last() =~= Seq::new((n - 1) as nat, |j: int| s));
        lemma_id_count_repeat((n - 1) as nat, s, id);
    }
}

proof fn lemma_layout_count(t: Treasure, g: Seq<usize>, n: int, x: int)
    requires
        0 <= n <= 6,
        0 <= x < 6,
    ensures
        id_count(layout_upto(t, g, n), catalog_gem(x).id) == if x < n { g[x] as int } else { 0 },
    decreases n,
{
    if n > 0 {
        let i = n - 1;
        let id = catalog_gem(x).id;
        lemma_layout_count(t, g, i, x);
        let filled = Seq::new(g[i] as nat, |j: int| filled_socket(i));
        lemma_id_count_concat(layout_upto(t, g, i), filled, id);
        lemma_id_count_repeat(g[i] as nat, filled_socket(i), id);
        let circ_empty = Seq::new(
            (t.sockets.0 - (g[0] + g[1] + g[2])) as nat,
            |j: int| Socket { shape: Shape::Circular, gem_id: None },
        );
        let rect_empty = Seq::new(
            (t.sockets.1 - (g[3] + g[4] + g[5])) as nat,
            |j: int| Socket { shape: Shape::Rectangular, gem_id: None },
        );
        lemma_id_count_concat(layout_upto(t, g, i) + filled, circ_empty, id);
        lemma_id_count_concat(layout_upto(t, g, i) + filled, rect_empty, id);
        lemma_id_count_repeat((t.sockets.0 - (g[0] + g[1] + g[2])) as nat, Socket { shape: Shape::Circular, gem_id: None }, id);
        lemma_id_count_repeat((t.sockets.1 - (g[3] + g[4] + g[5])) as nat, Socket { shape: Shape::Rectangular, gem_id: None }, id);
    }
}

proof fn lemma_answer_count(v: Seq<SocketedTreasure>, ts: Seq<Treasure>, a: Seq<Seq<usize>>, x: int)
    requires
        socketed_all(v, ts, a),
        0 <= x < 6,
    ensures
        answer_id_count(v, catalog_gem(x).id) == coord_sum(a, x),
    decreases v.len(),
{
    if v.len() > 0 {
        let n = v.len() - 1;
        assert(socketed_ok(v[n], ts[n], a[n]));
        assert forall|k: int| 0 <= k < n implies #[trigger] socketed_ok(v.drop_last()[k], ts.drop_last()[k], a.drop_last()[k]) by {
            assert(socketed_ok(v[k], ts[k], a[k]));
        }
        lemma_answer_count(v.drop_last(), ts.drop_last(), a.drop_last(), x);
        lemma_layout_count(ts[n], a[n], 6, x);
    }
}

/// Counted over the sockets of an answer, no gem type is used more often than
/// the budget holds.
pub proof fn lemma_sockets_within_budget(coll: Seq<usize>, budget: Seq<usize>, obj: ObjectiveFunction, v: Seq<SocketedTreasure>, x: int)
    requires
        allocation_ok(coll, budget, obj, v),
        0 <= x < 6,
    ensures
        answer_id_count(v, catalog_gem(x).id) <= budget[x],
{
    let ts = instances(coll);
    let a = choose|a: Seq<Seq<usize>>| optimal(obj, ts, a, budget) && #[trigger] socketed_all(v, ts, a);
    assert(feasible(ts, a, budget));
    lemma_answer_count(v, ts, a, x);
}

} // verus!
