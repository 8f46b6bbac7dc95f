use vstd::prelude::*;

use crate::catalog::Combo;
use vstd::arithmetic::power2::{lemma2_to64, lemma_pow2_unfold, pow2};

verus! {

/// The partial order on combos: `a` is at most `b` in every coordinate.
pub open spec fn combo_le(a: Seq<usize>, b: Seq<usize>) -> bool {
    forall|i: int| 0 <= i < 6 ==> #[trigger] a[i] <= b[i]
}

/// `r` is the coordinatewise sum of `a` and `b`.
pub open spec fn combo_sum(r: Seq<usize>, a: Seq<usize>, b: Seq<usize>) -> bool {
    forall|i: int| 0 <= i < 6 ==> #[trigger] r[i] == a[i] + b[i]
}

/// The six-entry combo made of a circular triple followed by a rectangular one.
pub open spec fn join_triples(c: [usize; 3], r: [usize; 3]) -> Seq<usize> {
    seq![c[0], c[1], c[2], r[0], r[1], r[2]]
}

/// A combo whose circular gems fit in `circ` sockets and whose rectangular
/// gems fit in `rect` sockets.
pub open spec fn fits_shape(c: Seq<usize>, circ: int, rect: int) -> bool {
    &&& c.len() == 6
    &&& c[0] + c[1] + c[2] <= circ
    &&& c[3] + c[4] + c[5] <= rect
}

/// Order on triples, read at offset `ox` of `x` and `oy` of `y`: by sum, then
/// by first entry, then by second entry.
pub open spec fn triple_lt_at(x: Seq<usize>, ox: int, y: Seq<usize>, oy: int) -> bool {
    let sx = x[ox] + x[ox + 1] + x[ox + 2];
    let sy = y[oy] + y[oy + 1] + y[oy + 2];
    sx < sy || (sx == sy && (x[ox] < y[oy] || (x[ox] == y[oy] && x[ox + 1] < y[oy + 1])))
}

/// The order on triples: by sum, then first entry, then second entry.
pub open spec fn triple_lt(x: [usize; 3], y: [usize; 3]) -> bool {
    triple_lt_at(x@, 0, y@, 0)
}

/// The order in which combos are listed: by their circular triple, then by
/// their rectangular triple.
pub open spec fn combo_lt(c: Seq<usize>, d: Seq<usize>) -> bool {
    triple_lt_at(c, 0, d, 0) || (c[0] == d[0] && c[1] == d[1] && c[2] == d[2] && triple_lt_at(c, 3, d, 3))
}

/// `n` choose `k`, by Pascal's rule.
pub open spec fn binom(n: nat, k: nat) -> nat
    decreases n,
{
    if k == 0 {
        1
    } else if n == 0 {
        0
    } else {
        binom((n - 1) as nat, (k - 1) as nat) + binom((n - 1) as nat, k)
    }
}

pub open spec fn has_triple(s: Seq<[usize; 3]>, x: int, y: int, z: int) -> bool {
    exists|k: int| 0 <= k < s.len() && #[trigger] s[k][0] == x && s[k][1] == y && s[k][2] == z
}

pub open spec fn has_combo(s: Seq<[usize; 6]>, c: Seq<usize>) -> bool {
    exists|k: int| 0 <= k < s.len() && #[trigger] s[k]@ == c
}

/// Number of triples `[a, b, h - a - b]` with a first entry below `a`.
pub open spec fn triples_before(h: int, a: int) -> int
    decreases a,
{
    if a <= 0 {
        0
    } else {
        triples_before(h, a - 1) + (h - (a - 1) + 1)
    }
}

proof fn lemma_triples_before(h: int, a: int)
    requires
        0 <= a,
    ensures
        2 * triples_before(h, a) == a * (2 * h + 3 - a),
    decreases a,
{
    if a > 0 {
        lemma_triples_before(h, a - 1);
        assert(2 * triples_before(h, a) == a * (2 * h + 3 - a)) by (nonlinear_arith)
            requires
                2 * triples_before(h, a - 1) == (a - 1) * (2 * h + 3 - (a - 1)),
                triples_before(h, a) == triples_before(h, a - 1) + (h - (a - 1) + 1),
        ;
    } else {
        assert(a * (2 * h + 3 - a) == 0) by (nonlinear_arith)
            requires
                a == 0,
        ;
    }
}

proof fn lemma_binom_one(n: nat)
    ensures
        binom(n, 1) == n,
    decreases n,
{
    if n > 0 {
        lemma_binom_one((n - 1) as nat);
        assert(binom((n - 1) as nat, 0) == 1);
    }
}

proof fn lemma_binom_two(n: nat)
    ensures
        2 * binom(n, 2) == n * (n - 1),
    decreases n,
{
    if n > 0 {
        lemma_binom_two((n - 1) as nat);
        lemma_binom_one((n - 1) as nat);
        assert(2 * binom(n, 2) == n * (n - 1)) by (nonlinear_arith)
            requires
                2 * binom((n - 1) as nat, 2) == (n - 1) * (n - 2),
                binom(n, 2) == binom((n - 1) as nat, 1) + binom((n - 1) as nat, 2),
                binom((n - 1) as nat, 1) == n - 1,
                n > 0,
        ;
    } else {
        assert(n * (n - 1) == 0) by (nonlinear_arith)
            requires
                n == 0,
        ;
    }
}

/// Relies on num_integer::binomial: it returns `n` choose `k` (0 when
/// `k > n`). It first swaps `k` for `n - k` when that is smaller, and each
/// step then holds `n` choose `d` for a growing `d <= k`, so no intermediate
/// value exceeds the result.
#[verifier::external_body]
fn num_binomial(n: usize, k: usize) -> (r: usize)
    requires
        binom(n as nat, k as nat) <= usize::MAX,
    ensures
        r == binom(n as nat, k as nat),
{
    num_integer::binomial(n, k)
}

/// `n` choose `k`.
pub fn binomial(n: usize, k: usize) -> (r: usize)
    requires
        binom(n as nat, k as nat) <= usize::MAX,
    ensures
        r == binom(n as nat, k as nat),
{
    if k == 0 {
        1
    } else {
        num_binomial(n, k)
    }
}

/// Compares two combos under the coordinatewise partial order: `Greater` as
/// soon as some coordinate of `a` exceeds that of `b`, otherwise `Less` if some
/// coordinate is smaller, otherwise `Equal`.
pub fn compare_combos(a: &Combo, b: &Combo) -> (r: std::cmp::Ordering)
    ensures
        (r == std::cmp::Ordering::Greater) <==> !combo_le(a@, b@),
        (r == std::cmp::Ordering::Equal) <==> a@ == b@,
        (r == std::cmp::Ordering::Less) <==> (combo_le(a@, b@) && a@ != b@),
{
    let mut ordering = std::cmp::Ordering::Equal;
    let mut i: usize = 0;
    while i < 6
        invariant
            i <= 6,
            forall|k: int| 0 <= k < i ==> #[trigger] a@[k] <= b@[k],
            (ordering == std::cmp::Ordering::Equal) <==> (forall|k: int|
                0 <= k < i ==> #[trigger] a@[k] == b@[k]),
            ordering == std::cmp::Ordering::Equal || ordering == std::cmp::Ordering::Less,
        decreases 6 - i,
    {
        if a[i] > b[i] {
            return std::cmp::Ordering::Greater;
        }
        if a[i] < b[i] {
            ordering = std::cmp::Ordering::Less;
        }
        i = i + 1;
    }
    proof {
        if ordering == std::cmp::Ordering::Equal {
            assert(a@ =~= b@);
        }
    }
    ordering
}

/// The coordinatewise order on combos is reflexive and transitive.
pub proof fn lemma_combo_order(a: Seq<usize>, b: Seq<usize>, c: Seq<usize>)
    ensures
        combo_le(a, a),
        combo_le(a, b) && combo_le(b, c) ==> combo_le(a, c),
{
    if combo_le(a, b) && combo_le(b, c) {
        assert forall|i: int| 0 <= i < 6 implies #[trigger] a[i] <= c[i] by {
            assert(a[i] <= b[i]);
            assert(b[i] <= c[i]);
        }
    }
}

/// The coordinatewise sum of two combos.
pub fn add_combos(a: &Combo, b: &Combo) -> (r: Combo)
    requires
        forall|i: int| 0 <= i < 6 ==> a@[i] + b@[i] <= usize::MAX,
    ensures
        combo_sum(r@, a@, b@),
{
    [a[0] + b[0], a[1] + b[1], a[2] + b[2], a[3] + b[3], a[4] + b[4], a[5] + b[5]]
}

/// For each `h` from 0 to `sockets`, every way to spread `h` gems over three
/// colors: row `h` holds all triples of non-negative integers that sum to `h`,
/// `binom(h + 2, 2)` of them, in increasing order of first and then second
/// entry.
pub fn combinations(sockets: usize) -> (r: Vec<Vec<[usize; 3]>>)
    requires
        sockets <= 255,
    ensures
        r@.len() == sockets + 1,
        forall|h: int| 0 <= h <= sockets ==> #[trigger] r@[h]@.len() == binom((h + 2) as nat, 2),
        forall|h: int| 0 <= h <= sockets ==> 2 * #[trigger] r@[h]@.len() == (h + 1) * (h + 2),
        forall|h: int, k: int|
            0 <= h <= sockets && 0 <= k < r@[h]@.len() ==> #[trigger] r@[h]@[k][0] + r@[h]@[k][1]
                + r@[h]@[k][2] == h,
        forall|h: int, x: int, y: int, z: int|
            0 <= h <= sockets && 0 <= x && 0 <= y && 0 <= z && x + y + z == h ==> #[trigger] has_triple(
                r@[h]@,
                x,
                y,
                z,
            ),
        forall|h: int, i: int, j: int|
            0 <= h <= sockets && 0 <= i < j < r@[h]@.len() ==> #[trigger] triple_lt(r@[h]@[i], r@[h]@[j]),
{
    let mut values: Vec<Vec<[usize; 3]>> = Vec::with_capacity(sockets + 1);
    let mut h: usize = 0;
    while h <= sockets
        invariant
            h <= sockets + 1,
            sockets <= 255,
            values@.len() == h,
            forall|g: int| 0 <= g < h ==> #[trigger] values@[g]@.len() == binom((g + 2) as nat, 2),
            forall|g: int| 0 <= g < h ==> 2 * #[trigger] values@[g]@.len() == (g + 1) * (g + 2),
            forall|g: int, k: int|
                0 <= g < h && 0 <= k < values@[g]@.len() ==> #[trigger] values@[g]@[k][0]
                    + values@[g]@[k][1] + values@[g]@[k][2] == g,
            forall|g: int, x: int, y: int, z: int|
                0 <= g < h && 0 <= x && 0 <= y && 0 <= z && x + y + z == g ==> #[trigger] has_triple(
                    values@[g]@,
                    x,
                    y,
                    z,
                ),
            forall|g: int, i: int, j: int|
                0 <= g < h && 0 <= i < j < values@[g]@.len() ==> #[trigger] triple_lt(values@[g]@[i], values@[g]@[j]),
        decreases sockets + 1 - h,
    {
        let row = combinations_of(h);
        let ghost before = values@;
        values.push(row);
        proof {
            lemma_binom_two((h + 2) as nat);
            assert forall|g: int| 0 <= g <= h implies 2 * #[trigger] values@[g]@.len() == (g + 1) * (g + 2) by {
                if g < h {
                    assert(values@[g] == before[g]);
                }
                lemma_binom_two((g + 2) as nat);
                assert((g + 2) * (g + 2 - 1) == (g + 1) * (g + 2)) by (nonlinear_arith);
            }
        }
        h = h + 1;
    }
    values
}

/// All triples summing to `h`, in order of first and then second entry.
fn combinations_of(h: usize) -> (row: Vec<[usize; 3]>)
    requires
        h <= 255,
    ensures
        forall|i: int, j: int| 0 <= i < j < row@.len() ==> #[trigger] triple_lt(row@[i], row@[j]),
        row@.len() == binom((h + 2) as nat, 2),
        forall|k: int| 0 <= k < row@.len() ==> #[trigger] row@[k][0] + row@[k][1] + row@[k][2] == h,
        forall|x: int, y: int, z: int|
            0 <= x && 0 <= y && 0 <= z && x + y + z == h ==> #[trigger] has_triple(row@, x, y, z),
{
    proof {
        lemma_binom_two((h + 2) as nat);
        assert(binom((h + 2) as nat, 2) <= 40000) by (nonlinear_arith)
            requires
                2 * binom((h + 2) as nat, 2) == (h + 2) * (h + 2 - 1),
                h <= 255,
        ;
    }
    let mut row: Vec<[usize; 3]> = Vec::with_capacity(binomial(h + 2, 2));
    let mut a: usize = 0;
    while a <= h
        invariant
            a <= h + 1,
            h <= 255,
            row@.len() == triples_before(h as int, a as int),
            forall|k: int| 0 <= k < row@.len() ==> #[trigger] row@[k][0] + row@[k][1] + row@[k][2] == h,
            forall|x: int, y: int, z: int|
                0 <= x < a && 0 <= y && 0 <= z && x + y + z == h ==> #[trigger] has_triple(row@, x, y, z),
            forall|i: int, j: int| 0 <= i < j < row@.len() ==> #[trigger] triple_lt(row@[i], row@[j]),
            forall|i: int| 0 <= i < row@.len() ==> #[trigger] row@[i][0] < a,
        decreases h + 1 - a,
    {
        let mut b: usize = 0;
        while b <= h - a
            invariant
                a <= h,
                h <= 255,
                b <= h - a + 1,
                row@.len() == triples_before(h as int, a as int) + b,
                forall|k: int| 0 <= k < row@.len() ==> #[trigger] row@[k][0] + row@[k][1] + row@[k][2] == h,
                forall|x: int, y: int, z: int|
                    0 <= x < a && 0 <= y && 0 <= z && x + y + z == h ==> #[trigger] has_triple(row@, x, y, z),
                forall|y: int| 0 <= y < b ==> #[trigger] has_triple(row@, a as int, y, h - a - y),
                forall|i: int, j: int| 0 <= i < j < row@.len() ==> #[trigger] triple_lt(row@[i], row@[j]),
                forall|i: int| 0 <= i < row@.len() ==> #[trigger] row@[i][0] < a || (row@[i][0] == a && row@[i][1] < b),
            decreases h - a + 1 - b,
        {
            let old_row = Ghost(row@);
            let c: usize = h - a - b;
            row.push([a, b, c]);
            assert forall|i: int| 0 <= i < row@.len() implies #[trigger] row@[i][0] < a || (row@[i][0] == a && row@[i][1] < b + 1) by {
                if i < old_row@.len() {
                    assert(row@[i] == old_row@[i]);
                }
            }
            assert forall|i: int, j: int| 0 <= i < j < row@.len() implies #[trigger] triple_lt(row@[i], row@[j]) by {
                assert(row@[i] == old_row@[i]);
                if j < old_row@.len() {
                    assert(row@[j] == old_row@[j]);
                    assert(triple_lt(old_row@[i], old_row@[j]));
                } else {
                    assert(old_row@[i][0] < a || (old_row@[i][0] == a && old_row@[i][1] < b));
                    assert(old_row@[i][0] + old_row@[i][1] + old_row@[i][2] == h);
                }
            }
            assert(row@[row@.len() - 1] == [a, b, c]);
            assert forall|x: int, y: int, z: int|
                0 <= x < a && 0 <= y && 0 <= z && x + y + z == h implies #[trigger] has_triple(row@, x, y, z) by {
                assert(has_triple(old_row@, x, y, z));
                let k = choose|k: int| 0 <= k < old_row@.len() && #[trigger] old_row@[k][0] == x && old_row@[k][1] == y && old_row@[k][2] == z;
                assert(row@[k] == old_row@[k]);
            }
            assert forall|y: int| 0 <= y < b + 1 implies #[trigger] has_triple(row@, a as int, y, h - a - y) by {
                if y < b {
                    assert(has_triple(old_row@, a as int, y, h - a - y));
                    let k = choose|k: int| 0 <= k < old_row@.len() && #[trigger] old_row@[k][0] == a && old_row@[k][1] == y && old_row@[k][2] == h - a - y;
                    assert(row@[k] == old_row@[k]);
                } else {
                    assert(row@[row@.len() - 1][0] == a);
                }
            }
            b = b + 1;
        }
        assert forall|x: int, y: int, z: int|
            0 <= x < a + 1 && 0 <= y && 0 <= z && x + y + z == h implies #[trigger] has_triple(row@, x, y, z) by {
            if x == a {
                assert(has_triple(row@, a as int, y, h - a - y));
            }
        }
        a = a + 1;
    }
    proof {
        lemma_triples_before(h as int, h + 1);
        lemma_binom_two((h + 2) as nat);
        assert(row@.len() == binom((h + 2) as nat, 2)) by (nonlinear_arith)
            requires
                2 * row@.len() == (h + 1) * (2 * h + 3 - (h + 1)),
                2 * binom((h + 2) as nat, 2) == (h + 2) * (h + 2 - 1),
        ;
    }
    row
}

proof fn lemma_push_keeps_triple(s: Seq<[usize; 3]>, t: [usize; 3], x: int, y: int, z: int)
    requires
        has_triple(s, x, y, z),
    ensures
        has_triple(s.push(t), x, y, z),
{
    let k = choose|k: int| 0 <= k < s.len() && #[trigger] s[k][0] == x && s[k][1] == y && s[k][2] == z;
    assert(s.push(t)[k] == s[k]);
}

proof fn lemma_push_keeps_combo(s: Seq<[usize; 6]>, t: [usize; 6], c: Seq<usize>)
    requires
        has_combo(s, c),
    ensures
        has_combo(s.push(t), c),
{
    let k = choose|k: int| 0 <= k < s.len() && #[trigger] s[k]@ == c;
    assert(s.push(t)[k] == s[k]);
}

proof fn lemma_binom_le_pow2(n: nat, k: nat)
    ensures
        binom(n, k) <= pow2(n),
    decreases n,
{
    vstd::arithmetic::power2::lemma_pow2_pos(n);
    if k != 0 && n != 0 {
        lemma_binom_le_pow2((n - 1) as nat, (k - 1) as nat);
        lemma_binom_le_pow2((n - 1) as nat, k);
        lemma_pow2_unfold(n);
    }
}

/// All triples whose entries sum to at most `n`, taken from the rows of `v`.
fn triples_up_to(v: &Vec<Vec<[usize; 3]>>, n: usize) -> (r: Vec<[usize; 3]>)
    requires
        n <= 255,
        n < v@.len(),
        forall|h: int, k: int|
            0 <= h <= n && 0 <= k < v@[h]@.len() ==> #[trigger] v@[h]@[k][0] + v@[h]@[k][1]
                + v@[h]@[k][2] == h,
        forall|h: int, x: int, y: int, z: int|
            0 <= h <= n && 0 <= x && 0 <= y && 0 <= z && x + y + z == h ==> #[trigger] has_triple(
                v@[h]@,
                x,
                y,
                z,
            ),
        forall|h: int, i: int, j: int|
            0 <= h <= n && 0 <= i < j < v@[h]@.len() ==> #[trigger] triple_lt(v@[h]@[i], v@[h]@[j]),
    ensures
        forall|i: int, j: int| 0 <= i < j < r@.len() ==> #[trigger] triple_lt(r@[i], r@[j]),
        forall|k: int| 0 <= k < r@.len() ==> #[trigger] r@[k][0] + r@[k][1] + r@[k][2] <= n,
        forall|x: int, y: int, z: int|
            0 <= x && 0 <= y && 0 <= z && x + y + z <= n ==> #[trigger] has_triple(r@, x, y, z),
{
    let mut r: Vec<[usize; 3]> = Vec::new();
    let mut h: usize = 0;
    while h <= n
        invariant
            h <= n + 1,
            n <= 255,
            n < v@.len(),
            forall|h: int, x: int, y: int, z: int|
                0 <= h <= n && 0 <= x && 0 <= y && 0 <= z && x + y + z == h ==> #[trigger] has_triple(
                    v@[h]@,
                    x,
                    y,
                    z,
                ),
            forall|h: int, k: int|
                0 <= h <= n && 0 <= k < v@[h]@.len() ==> #[trigger] v@[h]@[k][0] + v@[h]@[k][1]
                    + v@[h]@[k][2] == h,
            forall|k: int| 0 <= k < r@.len() ==> #[trigger] r@[k][0] + r@[k][1] + r@[k][2] <= n,
            forall|x: int, y: int, z: int|
                0 <= x && 0 <= y && 0 <= z && x + y + z < h ==> #[trigger] has_triple(r@, x, y, z),
            forall|h: int, i: int, j: int|
                0 <= h <= n && 0 <= i < j < v@[h]@.len() ==> #[trigger] triple_lt(v@[h]@[i], v@[h]@[j]),
            forall|i: int, j: int| 0 <= i < j < r@.len() ==> #[trigger] triple_lt(r@[i], r@[j]),
            forall|i: int| 0 <= i < r@.len() ==> #[trigger] r@[i][0] + r@[i][1] + r@[i][2] < h,
        decreases n + 1 - h,
    {
        let row = &v[h];
        let mut k: usize = 0;
        while k < row.len()
            invariant
                h <= n,
                n < v@.len(),
                row@ == v@[h as int]@,
                k <= row@.len(),
                forall|h: int, k: int|
                    0 <= h <= n && 0 <= k < v@[h]@.len() ==> #[trigger] v@[h]@[k][0] + v@[h]@[k][1]
                        + v@[h]@[k][2] == h,
                forall|k: int| 0 <= k < r@.len() ==> #[trigger] r@[k][0] + r@[k][1] + r@[k][2] <= n,
                forall|x: int, y: int, z: int|
                    0 <= x && 0 <= y && 0 <= z && x + y + z < h ==> #[trigger] has_triple(r@, x, y, z),
                forall|j: int| 0 <= j < k ==> #[trigger] has_triple(r@, row@[j][0] as int, row@[j][1] as int, row@[j][2] as int),
                forall|i: int, j: int| 0 <= i < j < row@.len() ==> #[trigger] triple_lt(row@[i], row@[j]),
                forall|i: int, j: int| 0 <= i < j < r@.len() ==> #[trigger] triple_lt(r@[i], r@[j]),
                forall|i: int| 0 <= i < r@.len() ==> #[trigger] r@[i][0] + r@[i][1] + r@[i][2] < h || (k > 0
                    && r@[i][0] + r@[i][1] + r@[i][2] == h && (r@[i][0] < row@[k - 1][0] || (r@[i][0] == row@[k - 1][0]
                    && r@[i][1] <= row@[k - 1][1]))),
            decreases row@.len() - k,
        {
            let old_r = Ghost(r@);
            let t = row[k];
            assert(t[0] + t[1] + t[2] == h);
            proof {
                if k > 0 {
                    assert(triple_lt(row@[k - 1], row@[k as int]));
                    assert(row@[k - 1][0] + row@[k - 1][1] + row@[k - 1][2] == h);
                }
                assert forall|i: int| 0 <= i < old_r@.len() implies #[trigger] triple_lt(old_r@[i], t) by {
                    assert(old_r@[i][0] + old_r@[i][1] + old_r@[i][2] < h || (k > 0
                        && old_r@[i][0] + old_r@[i][1] + old_r@[i][2] == h && (old_r@[i][0] < row@[k - 1][0] || (old_r@[i][0] == row@[k - 1][0]
                        && old_r@[i][1] <= row@[k - 1][1]))));
                }
            }
            r.push(t);
            proof {
                assert forall|i: int, j: int| 0 <= i < j < r@.len() implies #[trigger] triple_lt(r@[i], r@[j]) by {
                    assert(r@[i] == old_r@[i]);
                    if j < old_r@.len() {
                        assert(r@[j] == old_r@[j]);
                        assert(triple_lt(old_r@[i], old_r@[j]));
                    } else {
                        assert(triple_lt(old_r@[i], t));
                    }
                }
                assert forall|i: int| 0 <= i < r@.len() implies #[trigger] r@[i][0] + r@[i][1] + r@[i][2] < h || (k + 1 > 0
                    && r@[i][0] + r@[i][1] + r@[i][2] == h && (r@[i][0] < row@[k as int][0] || (r@[i][0] == row@[k as int][0]
                    && r@[i][1] <= row@[k as int][1]))) by {
                    if i < old_r@.len() {
                        assert(r@[i] == old_r@[i]);
                        assert(triple_lt(old_r@[i], t));
                    }
                }
                assert forall|x: int, y: int, z: int|
                    0 <= x && 0 <= y && 0 <= z && x + y + z < h implies #[trigger] has_triple(r@, x, y, z) by {
                    lemma_push_keeps_triple(old_r@, t, x, y, z);
                }
                assert forall|j: int| 0 <= j < k + 1 implies #[trigger] has_triple(r@, row@[j][0] as int, row@[j][1] as int, row@[j][2] as int) by {
                    if j < k {
                        lemma_push_keeps_triple(old_r@, t, row@[j][0] as int, row@[j][1] as int, row@[j][2] as int);
                    } else {
                        assert(r@[r@.len() - 1] == t);
                    }
                }
            }
            k = k + 1;
        }
        proof {
            assert forall|x: int, y: int, z: int|
                0 <= x && 0 <= y && 0 <= z && x + y + z < h + 1 implies #[trigger] has_triple(r@, x, y, z) by {
                if x + y + z == h {
                    assert(has_triple(v@[h as int]@, x, y, z));
                    let j = choose|j: int| 0 <= j < row@.len() && #[trigger] row@[j][0] == x && row@[j][1] == y && row@[j][2] == z;
                    assert(has_triple(r@, row@[j][0] as int, row@[j][1] as int, row@[j][2] as int));
                }
            }
        }
        h = h + 1;
    }
    r
}

/// Every filling of `circ` circular and `rect` rectangular sockets: all combos
/// whose first three entries sum to at most `circ` and whose last three sum to
/// at most `rect`, each once, in increasing `combo_lt` order.
pub(crate) fn combos(circ: usize, rect: usize) -> (r: Vec<Combo>)
    requires
        circ <= 3,
        rect <= 3,
    ensures
        forall|k: int| 0 <= k < r@.len() ==> #[trigger] fits_shape(r@[k]@, circ as int, rect as int),
        forall|c: Seq<usize>| #[trigger] fits_shape(c, circ as int, rect as int) ==> has_combo(r@, c),
        forall|i: int, j: int| 0 <= i < j < r@.len() ==> #[trigger] combo_lt(r@[i]@, r@[j]@),
        forall|i: int, j: int| 0 <= i < j < r@.len() ==> #[trigger] r@[i]@ != #[trigger] r@[j]@,
{
    proof {
        lemma2_to64();
        lemma_binom_le_pow2((circ + 3) as nat, circ as nat);
        lemma_binom_le_pow2((rect + 3) as nat, rect as nat);
        lemma_pow2_unfold(6);
        assert(pow2((circ + 3) as nat) <= 64) by {
            if circ < 3 {
                vstd::arithmetic::power2::lemma_pow2_strictly_increases((circ + 3) as nat, 6);
            }
        }
        assert(pow2((rect + 3) as nat) <= 64) by {
            if rect < 3 {
                vstd::arithmetic::power2::lemma_pow2_strictly_increases((rect + 3) as nat, 6);
            }
        }
    }
    let circ_count = binomial(circ + 3, circ);
    let rect_count = binomial(rect + 3, rect);
    assert(circ_count * rect_count <= 64 * 64) by (nonlinear_arith)
        requires
            circ_count <= 64,
            rect_count <= 64,
    ;
    let mut values: Vec<Combo> = Vec::with_capacity(circ_count * rect_count);
    let v = combinations(if circ > rect { circ } else { rect });
    let cs = triples_up_to(&v, circ);
    let rs = triples_up_to(&v, rect);
    let mut p: usize = 0;
    while p < cs.len()
        invariant
            p <= cs@.len(),
            forall|k: int| 0 <= k < cs@.len() ==> #[trigger] cs@[k][0] + cs@[k][1] + cs@[k][2] <= circ,
            forall|k: int| 0 <= k < rs@.len() ==> #[trigger] rs@[k][0] + rs@[k][1] + rs@[k][2] <= rect,
            forall|k: int| 0 <= k < values@.len() ==> #[trigger] fits_shape(values@[k]@, circ as int, rect as int),
            forall|i: int, j: int|
                0 <= i < p && 0 <= j < rs@.len() ==> #[trigger] has_combo(values@, join_triples(cs@[i], rs@[j])),
            forall|i: int, j: int| 0 <= i < j < cs@.len() ==> #[trigger] triple_lt(cs@[i], cs@[j]),
            forall|i: int, j: int| 0 <= i < j < rs@.len() ==> #[trigger] triple_lt(rs@[i], rs@[j]),
            forall|i: int, j: int| 0 <= i < j < values@.len() ==> #[trigger] combo_lt(values@[i]@, values@[j]@),
            p < cs@.len() ==> forall|i: int| 0 <= i < values@.len() ==> #[trigger] triple_lt_at(values@[i]@, 0, cs@[p as int]@, 0),
        decreases cs@.len() - p,
    {
        let mut q: usize = 0;
        while q < rs.len()
            invariant
                p < cs@.len(),
                q <= rs@.len(),
                forall|k: int| 0 <= k < cs@.len() ==> #[trigger] cs@[k][0] + cs@[k][1] + cs@[k][2] <= circ,
                forall|k: int| 0 <= k < rs@.len() ==> #[trigger] rs@[k][0] + rs@[k][1] + rs@[k][2] <= rect,
                forall|k: int| 0 <= k < values@.len() ==> #[trigger] fits_shape(values@[k]@, circ as int, rect as int),
                forall|i: int, j: int|
                    0 <= i < p && 0 <= j < rs@.len() ==> #[trigger] has_combo(values@, join_triples(cs@[i], rs@[j])),
                forall|j: int| 0 <= j < q ==> #[trigger] has_combo(values@, join_triples(cs@[p as int], rs@[j])),
                forall|i: int, j: int| 0 <= i < j < cs@.len() ==> #[trigger] triple_lt(cs@[i], cs@[j]),
                forall|i: int, j: int| 0 <= i < j < rs@.len() ==> #[trigger] triple_lt(rs@[i], rs@[j]),
                forall|i: int, j: int| 0 <= i < j < values@.len() ==> #[trigger] combo_lt(values@[i]@, values@[j]@),
                forall|i: int| 0 <= i < values@.len() ==> #[trigger] triple_lt_at(values@[i]@, 0, cs@[p as int]@, 0) || (
                    values@[i][0] == cs@[p as int][0] && values@[i][1] == cs@[p as int][1] && values@[i][2] == cs@[p as int][2]
                    && q > 0 && !triple_lt_at(rs@[q - 1]@, 0, values@[i]@, 3)),
            decreases rs@.len() - q,
        {
            let c = cs[p];
            let r = rs[q];
            let combo: Combo = [c[0], c[1], c[2], r[0], r[1], r[2]];
            let old_values = Ghost(values@);
            proof {
                if q > 0 {
                    assert(triple_lt(rs@[q - 1], rs@[q as int]));
                }
                assert forall|i: int| 0 <= i < old_values@.len() implies #[trigger] combo_lt(old_values@[i]@, combo@) by {
                    assert(triple_lt_at(old_values@[i]@, 0, cs@[p as int]@, 0) || (
                        old_values@[i][0] == cs@[p as int][0] && old_values@[i][1] == cs@[p as int][1] && old_values@[i][2] == cs@[p as int][2]
                        && q > 0 && !triple_lt_at(rs@[q - 1]@, 0, old_values@[i]@, 3)));
                }
            }
            values.push(combo);
            proof {
                assert forall|i: int, j: int| 0 <= i < j < values@.len() implies #[trigger] combo_lt(values@[i]@, values@[j]@) by {
                    assert(values@[i] == old_values@[i]);
                    if j < old_values@.len() {
                        assert(values@[j] == old_values@[j]);
                        assert(combo_lt(old_values@[i]@, old_values@[j]@));
                    } else {
                        assert(combo_lt(old_values@[i]@, combo@));
                    }
                }
                assert forall|i: int| 0 <= i < values@.len() implies #[trigger] triple_lt_at(values@[i]@, 0, cs@[p as int]@, 0) || (
                    values@[i][0] == cs@[p as int][0] && values@[i][1] == cs@[p as int][1] && values@[i][2] == cs@[p as int][2]
                    && q + 1 > 0 && !triple_lt_at(rs@[q as int]@, 0, values@[i]@, 3)) by {
                    if i < old_values@.len() {
                        assert(values@[i] == old_values@[i]);
                        assert(combo_lt(old_values@[i]@, combo@));
                    }
                }
                assert(combo@ =~= join_triples(c, r));
                assert(fits_shape(values@[values@.len() - 1]@, circ as int, rect as int));
                assert forall|i: int, j: int|
                    0 <= i < p && 0 <= j < rs@.len() implies #[trigger] has_combo(values@, join_triples(cs@[i], rs@[j])) by {
                    lemma_push_keeps_combo(old_values@, combo, join_triples(cs@[i], rs@[j]));
                }
                assert forall|j: int| 0 <= j < q + 1 implies #[trigger] has_combo(values@, join_triples(cs@[p as int], rs@[j])) by {
                    if j < q {
                        lemma_push_keeps_combo(old_values@, combo, join_triples(cs@[p as int], rs@[j]));
                    } else {
                        assert(values@[values@.len() - 1]@ == join_triples(cs@[p as int], rs@[j]));
                    }
                }
            }
            q = q + 1;
        }
        proof {
            if p + 1 < cs@.len() {
                assert(triple_lt(cs@[p as int], cs@[p + 1]));
                assert forall|i: int| 0 <= i < values@.len() implies #[trigger] triple_lt_at(values@[i]@, 0, cs@[p + 1]@, 0) by {
                    assert(triple_lt_at(values@[i]@, 0, cs@[p as int]@, 0) || (
                        values@[i][0] == cs@[p as int][0] && values@[i][1] == cs@[p as int][1] && values@[i][2] == cs@[p as int][2]));
                }
            }
        }
        p = p + 1;
    }
    proof {
        assert forall|c: Seq<usize>| #[trigger] fits_shape(c, circ as int, rect as int) implies has_combo(values@, c) by {
            assert(has_triple(cs@, c[0] as int, c[1] as int, c[2] as int));
            assert(has_triple(rs@, c[3] as int, c[4] as int, c[5] as int));
            let i = choose|i: int| 0 <= i < cs@.len() && #[trigger] cs@[i][0] == c[0] && cs@[i][1] == c[1] && cs@[i][2] == c[2];
            let j = choose|j: int| 0 <= j < rs@.len() && #[trigger] rs@[j][0] == c[3] && rs@[j][1] == c[4] && rs@[j][2] == c[5];
            assert(has_combo(values@, join_triples(cs@[i], rs@[j])));
            assert(join_triples(cs@[i], rs@[j]) =~= c);
        }
        assert forall|i: int, j: int| 0 <= i < j < values@.len() implies #[trigger] values@[i]@ != #[trigger] values@[j]@ by {
            assert(combo_lt(values@[i]@, values@[j]@));
        }
    }
    values
}

} // verus!
