//! Integer relations by lattice basis reduction.
//!
//! For integers `v[0], .., v[n-1]` the search looks for coefficients `c`, not
//! all zero, with `c[0] * v[0] + .. + c[n-1] * v[n-1]` within a tolerance of
//! zero. It works on the lattice spanned by the rows `(e_i, scale * v[i])`:
//! a unit vector followed by one heavily weighted coordinate. Every vector of
//! that lattice is a coefficient vector followed by `scale` times the
//! combination it produces, so a lattice vector with a small last coordinate
//! is a relation.
//!
//! The reduction is the size-reduction step of LLL, taken with respect to the
//! weighted coordinate alone: each round subtracts from every row the
//! multiple of the row with the lightest non-zero weight that brings its own
//! weight closest to zero. There is no exchange step and no Gram-Schmidt
//! data, so the rows that come out are short in the weighted coordinate and
//! not necessarily short otherwise.

use vstd::prelude::*;
use vstd::math::abs;
use crate::algorithm::AlgorithmError;
use crate::rational::magnitude_of;

verus! {

/// Scale, tolerance and iteration budget of a search.
///
/// With integer inputs a tolerance of zero asks for an exact relation. A
/// caller who feeds in real numbers multiplied up to integers chooses the
/// tolerance in the same units. Too small a scale or tolerance hides true
/// relations behind rounding of the inputs; too large a scale pushes the
/// weighted coordinate out of the 64-bit range, and the search then ends
/// without a result.
#[derive(Clone, Copy, Debug, PartialEq, Eq, Structural)]
pub struct RelationConfig {
    /// The factor on the weighted coordinate; at least one.
    pub scale: i64,
    /// The largest magnitude of a combination that counts as zero.
    pub tolerance: i64,
    /// The number of reduction rounds after which the search gives up.
    pub max_rounds: usize,
}

impl RelationConfig {
    /// The scale is positive and the tolerance is not negative.
    pub open spec fn valid(self) -> bool {
        self.scale >= 1 && self.tolerance >= 0
    }

    /// The largest weight magnitude that counts as zero.
    pub open spec fn bound(self) -> int {
        self.tolerance * self.scale
    }
}

impl Default for RelationConfig {
    /// A scale of one million, exact relations, and 256 rounds.
    fn default() -> (c: RelationConfig)
        ensures
            c == (RelationConfig { scale: 1_000_000, tolerance: 0, max_rounds: 256 }),
    {
        RelationConfig { scale: 1_000_000, tolerance: 0, max_rounds: 256 }
    }
}

/// The elements of `s` as mathematical integers.
pub open spec fn ints(s: Seq<i64>) -> Seq<int> {
    Seq::new(s.len(), |i: int| s[i] as int)
}

/// The rows of `b` as sequences of mathematical integers.
pub open spec fn model(b: Seq<Vec<i64>>) -> Seq<Seq<int>> {
    Seq::new(b.len(), |i: int| ints(b[i]@))
}

/// The combination `c[0] * v[0] + .. + c[n-1] * v[n-1]`.
pub open spec fn dot(c: Seq<int>, v: Seq<int>) -> int
    decreases c.len(),
{
    if c.len() == 0 || v.len() == 0 {
        0
    } else {
        dot(c.drop_last(), v.drop_last()) + c.last() * v.last()
    }
}

/// Some coefficient is not zero.
pub open spec fn nonzero(c: Seq<int>) -> bool {
    exists|k: int| 0 <= k < c.len() && #[trigger] c[k] != 0
}

/// `c` is a non-trivial combination of `v` within `tolerance` of zero.
pub open spec fn is_relation(c: Seq<int>, v: Seq<int>, tolerance: int) -> bool {
    &&& c.len() == v.len()
    &&& nonzero(c)
    &&& -tolerance <= dot(c, v) <= tolerance
}

/// The last coordinate of a lattice vector.
pub open spec fn weight(row: Seq<int>) -> int {
    row[row.len() - 1]
}

/// The coordinates of a lattice vector before the last.
pub open spec fn coefficients(row: Seq<int>) -> Seq<int> {
    row.take(row.len() - 1)
}

/// Row `i` of the starting basis: the unit vector `e_i` followed by
/// `scale * v[i]`.
pub open spec fn initial_row(v: Seq<int>, scale: int, i: int) -> Seq<int> {
    Seq::new(
        v.len() + 1,
        |k: int|
            if k == i {
                1
            } else if k == v.len() {
                scale * v[i]
            } else {
                0
            },
    )
}

/// The starting basis: the identity beside the scaled input.
pub open spec fn initial_basis(v: Seq<int>, scale: int) -> Seq<Seq<int>> {
    Seq::new(v.len(), |i: int| initial_row(v, scale, i))
}

/// Every coordinate of every row fits in 64 bits.
pub open spec fn fits(basis: Seq<Seq<int>>) -> bool {
    forall|i: int, k: int|
        0 <= i < basis.len() && 0 <= k < basis[i].len() ==> i64::MIN <= #[trigger] basis[i][k]
            <= i64::MAX
}

/// The quotient of `a` by `b` rounded toward zero, for `b != 0`.
pub open spec fn truncated_quotient(a: int, b: int) -> int {
    if (a >= 0) == (b > 0) {
        (abs(a) / abs(b)) as int
    } else {
        -((abs(a) / abs(b)) as int)
    }
}

/// The row with the lightest non-zero weight among the first `k` rows, the
/// earliest of them if several are equally light; `None` if all weigh zero.
pub open spec fn pivot_among(basis: Seq<Seq<int>>, k: nat) -> Option<int>
    decreases k,
{
    if k == 0 {
        None
    } else {
        let before = pivot_among(basis, (k - 1) as nat);
        let w = weight(basis[k - 1]);
        if w == 0 {
            before
        } else {
            match before {
                None => Some(k - 1),
                Some(p) => if abs(w) < abs(weight(basis[p])) {
                    Some(k - 1)
                } else {
                    Some(p)
                },
            }
        }
    }
}

/// `row` less the multiple of `pivot` that brings its weight closest to zero
/// from its own side.
pub open spec fn reduced_row(row: Seq<int>, pivot: Seq<int>) -> Seq<int> {
    let q = truncated_quotient(weight(row), weight(pivot));
    Seq::new(row.len(), |k: int| row[k] - q * pivot[k])
}

/// One round of reduction: every row but the pivot is reduced by the pivot.
pub open spec fn reduce_round(basis: Seq<Seq<int>>) -> Seq<Seq<int>> {
    match pivot_among(basis, basis.len()) {
        None => basis,
        Some(p) => Seq::new(
            basis.len(),
            |j: int|
                if j == p {
                    basis[j]
                } else {
                    reduced_row(basis[j], basis[p])
                },
        ),
    }
}

/// `row` has a weight within `bound` of zero and a coefficient that is not zero.
pub open spec fn is_candidate(row: Seq<int>, bound: int) -> bool {
    -bound <= weight(row) <= bound && nonzero(coefficients(row))
}

/// The coefficients of the first candidate among the rows from `from` on.
pub open spec fn first_relation(basis: Seq<Seq<int>>, bound: int, from: nat) -> Option<Seq<int>>
    decreases basis.len() - from,
{
    if from >= basis.len() {
        None
    } else if is_candidate(basis[from as int], bound) {
        Some(coefficients(basis[from as int]))
    } else {
        first_relation(basis, bound, from + 1)
    }
}

/// What the search finds from `basis` in at most `rounds` rounds: the first
/// candidate of the earliest basis that has one, unless a round leaves the
/// 64-bit range before that.
pub open spec fn search(basis: Seq<Seq<int>>, bound: int, rounds: nat) -> Option<Seq<int>>
    decreases rounds,
{
    match first_relation(basis, bound, 0) {
        Some(c) => Some(c),
        None => if rounds == 0 {
            None
        } else if !fits(reduce_round(basis)) {
            None
        } else {
            search(reduce_round(basis), bound, (rounds - 1) as nat)
        },
    }
}

/// What `relation_by_lll` finds for `v` under `config`.
pub open spec fn relation_found(v: Seq<int>, config: RelationConfig) -> Option<Seq<int>> {
    if !fits(initial_basis(v, config.scale as int)) {
        None
    } else {
        search(initial_basis(v, config.scale as int), config.bound(), config.max_rounds as nat)
    }
}

/// `row` belongs to the lattice of `v`: its weight is `scale` times the
/// combination that its coefficients produce.
pub open spec fn in_lattice(row: Seq<int>, v: Seq<int>, scale: int) -> bool {
    row.len() == v.len() + 1 && weight(row) == scale * dot(coefficients(row), v)
}

/// Every row of `basis` belongs to the lattice of `v`.
pub open spec fn all_in_lattice(basis: Seq<Seq<int>>, v: Seq<int>, scale: int) -> bool {
    forall|i: int| 0 <= i < basis.len() ==> in_lattice(#[trigger] basis[i], v, scale)
}

/// A combination with all coefficients zero is zero.
proof fn lemma_dot_zero(c: Seq<int>, v: Seq<int>)
    requires
        c.len() == v.len(),
        forall|k: int| 0 <= k < c.len() ==> c[k] == 0,
    ensures
        dot(c, v) == 0,
    decreases c.len(),
{
    if c.len() > 0 {
        lemma_dot_zero(c.drop_last(), v.drop_last());
        assert(c.last() * v.last() == 0) by (nonlinear_arith)
            requires
                c.last() == 0,
        ;
    }
}

/// The combination of a unit vector picks one element.
proof fn lemma_dot_unit(c: Seq<int>, v: Seq<int>, i: int)
    requires
        c.len() == v.len(),
        0 <= i < c.len(),
        c[i] == 1,
        forall|k: int| 0 <= k < c.len() && k != i ==> c[k] == 0,
    ensures
        dot(c, v) == v[i],
    decreases c.len(),
{
    if i == c.len() - 1 {
        lemma_dot_zero(c.drop_last(), v.drop_last());
        assert(c.last() * v.last() == v.last()) by (nonlinear_arith)
            requires
                c.last() == 1,
        ;
    } else {
        lemma_dot_unit(c.drop_last(), v.drop_last(), i);
        assert(c.last() * v.last() == 0) by (nonlinear_arith)
            requires
                c.last() == 0,
        ;
    }
}

/// Combinations are linear in the coefficients.
proof fn lemma_dot_linear(a: Seq<int>, b: Seq<int>, c: Seq<int>, q: int, v: Seq<int>)
    requires
        a.len() == v.len(),
        b.len() == v.len(),
        c.len() == v.len(),
        forall|k: int| 0 <= k < c.len() ==> c[k] == a[k] - q * b[k],
    ensures
        dot(c, v) == dot(a, v) - q * dot(b, v),
    decreases v.len(),
{
    if v.len() > 0 {
        lemma_dot_linear(a.drop_last(), b.drop_last(), c.drop_last(), q, v.drop_last());
        let (x, y, z, w) = (a.last(), b.last(), c.last(), v.last());
        let (da, db) = (dot(a.drop_last(), v.drop_last()), dot(b.drop_last(), v.drop_last()));
        assert((da - q * db) + z * w == (da + x * w) - q * (db + y * w)) by (nonlinear_arith)
            requires
                z == x - q * y,
        ;
    } else {
        assert(q * 0 == 0);
    }
}

/// The starting basis lies in the lattice.
proof fn lemma_initial_in_lattice(v: Seq<int>, scale: int)
    ensures
        all_in_lattice(initial_basis(v, scale), v, scale),
{
    let basis = initial_basis(v, scale);
    assert forall|i: int| 0 <= i < basis.len() implies in_lattice(#[trigger] basis[i], v, scale) by {
        let row = basis[i];
        lemma_dot_unit(coefficients(row), v, i);
    }
}

/// A round of reduction keeps every row in the lattice.
proof fn lemma_round_in_lattice(basis: Seq<Seq<int>>, v: Seq<int>, scale: int)
    requires
        all_in_lattice(basis, v, scale),
    ensures
        all_in_lattice(reduce_round(basis), v, scale),
{
    let next = reduce_round(basis);
    match pivot_among(basis, basis.len()) {
        None => {},
        Some(p) => {
            lemma_pivot_in_range(basis, basis.len());
            assert forall|j: int| 0 <= j < next.len() implies in_lattice(
                #[trigger] next[j],
                v,
                scale,
            ) by {
                if j != p {
                    let q = truncated_quotient(weight(basis[j]), weight(basis[p]));
                    assert(in_lattice(basis[j], v, scale));
                    assert(in_lattice(basis[p], v, scale));
                    lemma_dot_linear(
                        coefficients(basis[j]),
                        coefficients(basis[p]),
                        coefficients(next[j]),
                        q,
                        v,
                    );
                    let (dj, dp) = (
                        dot(coefficients(basis[j]), v),
                        dot(coefficients(basis[p]), v),
                    );
                    assert(scale * dj - q * (scale * dp) == scale * (dj - q * dp))
                        by (nonlinear_arith);
                } else {
                    assert(in_lattice(basis[j], v, scale));
                }
            }
        },
    }
}

/// The pivot, if there is one, is the index of a row with non-zero weight.
proof fn lemma_pivot_in_range(basis: Seq<Seq<int>>, k: nat)
    ensures
        pivot_among(basis, k) matches Some(p) ==> 0 <= p < k && weight(basis[p]) != 0,
    decreases k,
{
    if k > 0 {
        lemma_pivot_in_range(basis, (k - 1) as nat);
    }
}

/// The first candidate of a basis in the lattice is a relation.
proof fn lemma_first_relation_sound(
    basis: Seq<Seq<int>>,
    v: Seq<int>,
    config: RelationConfig,
    from: nat,
)
    requires
        config.valid(),
        all_in_lattice(basis, v, config.scale as int),
    ensures
        first_relation(basis, config.bound(), from) matches Some(c) ==> is_relation(
            c,
            v,
            config.tolerance as int,
        ),
    decreases basis.len() - from,
{
    if from < basis.len() {
        let row = basis[from as int];
        if is_candidate(row, config.bound()) {
            assert(in_lattice(row, v, config.scale as int));
            let d = dot(coefficients(row), v);
            let (s, t) = (config.scale as int, config.tolerance as int);
            assert(-t <= d <= t) by (nonlinear_arith)
                requires
                    -(t * s) <= s * d <= t * s,
                    s >= 1,
                    t >= 0,
            ;
        } else {
            lemma_first_relation_sound(basis, v, config, from + 1);
        }
    }
}

/// Whatever the search finds is a relation.
pub proof fn lemma_search_sound(
    basis: Seq<Seq<int>>,
    v: Seq<int>,
    config: RelationConfig,
    rounds: nat,
)
    requires
        config.valid(),
        all_in_lattice(basis, v, config.scale as int),
    ensures
        search(basis, config.bound(), rounds) matches Some(c) ==> is_relation(
            c,
            v,
            config.tolerance as int,
        ),
    decreases rounds,
{
    lemma_first_relation_sound(basis, v, config, 0);
    if first_relation(basis, config.bound(), 0) is None && rounds > 0 {
        lemma_round_in_lattice(basis, v, config.scale as int);
        lemma_search_sound(reduce_round(basis), v, config, (rounds - 1) as nat);
    }
}

/// Whatever `relation_by_lll` finds is a non-trivial combination of the
/// input within the tolerance.
pub proof fn law_relation_found_is_relation(v: Seq<int>, config: RelationConfig)
    requires
        config.valid(),
    ensures
        relation_found(v, config) matches Some(c) ==> is_relation(c, v, config.tolerance as int),
{
    lemma_initial_in_lattice(v, config.scale as int);
    lemma_search_sound(
        initial_basis(v, config.scale as int),
        v,
        config,
        config.max_rounds as nat,
    );
}

/// Every row has `n + 1` coordinates.
pub open spec fn well_formed(b: Seq<Vec<i64>>, n: nat) -> bool {
    forall|i: int| 0 <= i < b.len() ==> (#[trigger] b[i])@.len() == n + 1
}

/// The quotient of `a` by `b`, rounded toward zero.
fn quotient(a: i64, b: i64) -> (q: i128)
    requires
        b != 0,
    ensures
        q == truncated_quotient(a as int, b as int),
        -0x8000_0000_0000_0000 <= q <= 0x8000_0000_0000_0000,
{
    let ma: u64 = magnitude_of(a);
    let mb: u64 = magnitude_of(b);
    let qm: u64 = ma / mb;
    if (a >= 0) == (b > 0) {
        qm as i128
    } else {
        -(qm as i128)
    }
}

/// `row` reduced by `pivot`, or `None` if a coordinate leaves the 64-bit range.
fn reduce_row(row: &Vec<i64>, pivot: &Vec<i64>) -> (r: Option<Vec<i64>>)
    requires
        row@.len() == pivot@.len(),
        row@.len() > 0,
        weight(ints(pivot@)) != 0,
    ensures
        r matches Some(x) ==> ints(x@) == reduced_row(ints(row@), ints(pivot@)),
        r is None <==> exists|k: int|
            0 <= k < row@.len() && !(i64::MIN <= #[trigger] reduced_row(
                ints(row@),
                ints(pivot@),
            )[k] <= i64::MAX),
{
    let n = row.len();
    let q: i128 = quotient(row[n - 1], pivot[n - 1]);
    let ghost target = reduced_row(ints(row@), ints(pivot@));
    let mut out: Vec<i64> = Vec::new();
    let mut k: usize = 0;
    while k < n
        invariant
            k <= n,
            n == row@.len(),
            n == pivot@.len(),
            out@.len() == k,
            q == truncated_quotient(weight(ints(row@)), weight(ints(pivot@))),
            -0x8000_0000_0000_0000 <= q <= 0x8000_0000_0000_0000,
            target == reduced_row(ints(row@), ints(pivot@)),
            forall|t: int| 0 <= t < k ==> out@[t] as int == #[trigger] target[t],
        decreases n - k,
    {
        let x: i128 = row[k] as i128;
        let y: i128 = pivot[k] as i128;
        assert(-0x4000_0000_0000_0000_0000_0000_0000_0000 <= q * y
            <= 0x4000_0000_0000_0000_0000_0000_0000_0000) by (nonlinear_arith)
            requires
                -0x8000_0000_0000_0000 <= q <= 0x8000_0000_0000_0000,
                -0x8000_0000_0000_0000 <= y <= 0x8000_0000_0000_0000,
        ;
        let value: i128 = x - q * y;
        assert(value == target[k as int]);
        if value < i64::MIN as i128 || value > i64::MAX as i128 {
            return None;
        }
        out.push(value as i64);
        k += 1;
    }
    assert(ints(out@) =~= target);
    Some(out)
}

/// The index of the pivot row, if any row has a non-zero weight.
fn find_pivot(basis: &Vec<Vec<i64>>, Ghost(n): Ghost<nat>) -> (r: Option<usize>)
    requires
        well_formed(basis@, n),
    ensures
        match r {
            Some(p) => pivot_among(model(basis@), basis@.len()) == Some(p as int),
            None => pivot_among(model(basis@), basis@.len()) is None,
        },
{
    let mut best: Option<usize> = None;
    let mut k: usize = 0;
    while k < basis.len()
        invariant
            k <= basis@.len(),
            well_formed(basis@, n),
            match best {
                Some(p) => pivot_among(model(basis@), k as nat) == Some(p as int) && p < k,
                None => pivot_among(model(basis@), k as nat) is None,
            },
        decreases basis@.len() - k,
    {
        let row = &basis[k];
        let w: i64 = row[row.len() - 1];
        assert(w as int == weight(model(basis@)[k as int]));
        if w != 0 {
            match best {
                None => {
                    best = Some(k);
                },
                Some(p) => {
                    let other = &basis[p];
                    let v: i64 = other[other.len() - 1];
                    assert(v as int == weight(model(basis@)[p as int]));
                    if magnitude_of(w) < magnitude_of(v) {
                        best = Some(k);
                    }
                },
            }
        }
        k += 1;
    }
    best
}

/// A copy of `row`.
fn copy_row(row: &Vec<i64>) -> (r: Vec<i64>)
    ensures
        r@ == row@,
{
    let mut out: Vec<i64> = Vec::new();
    let mut k: usize = 0;
    while k < row.len()
        invariant
            k <= row@.len(),
            out@ == row@.take(k as int),
        decreases row@.len() - k,
    {
        out.push(row[k]);
        assert(out@ =~= row@.take(k + 1));
        k += 1;
    }
    assert(row@.take(k as int) =~= row@);
    out
}

/// One round of reduction, or `None` if a coordinate leaves the 64-bit range.
fn reduce_basis(basis: Vec<Vec<i64>>, Ghost(n): Ghost<nat>) -> (r: Option<Vec<Vec<i64>>>)
    requires
        well_formed(basis@, n),
    ensures
        r matches Some(next) ==> model(next@) == reduce_round(model(basis@)) && well_formed(
            next@,
            n,
        ),
        r is None <==> !fits(reduce_round(model(basis@))),
{
    let ghost target = reduce_round(model(basis@));
    match find_pivot(&basis, Ghost(n)) {
        None => {
            proof {
                lemma_model_fits(basis@);
            }
            Some(basis)
        },
        Some(p) => {
            proof {
                lemma_pivot_in_range(model(basis@), basis@.len());
            }
            let mut next: Vec<Vec<i64>> = Vec::new();
            let mut j: usize = 0;
            while j < basis.len()
                invariant
                    j <= basis@.len(),
                    p < basis@.len(),
                    well_formed(basis@, n),
                    well_formed(next@, n),
                    weight(model(basis@)[p as int]) != 0,
                    pivot_among(model(basis@), basis@.len()) == Some(p as int),
                    target == reduce_round(model(basis@)),
                    next@.len() == j,
                    forall|t: int| 0 <= t < j ==> ints((#[trigger] next@[t])@) == target[t],
                decreases basis@.len() - j,
            {
                assert(model(basis@)[j as int] == ints(basis@[j as int]@));
                assert(model(basis@)[p as int] == ints(basis@[p as int]@));
                if j == p {
                    let row = copy_row(&basis[j]);
                    next.push(row);
                } else {
                    match reduce_row(&basis[j], &basis[p]) {
                        Some(row) => {
                            assert(ints(row@).len() == row@.len());
                            next.push(row);
                        },
                        None => {
                            proof {
                                let k = choose|k: int|
                                    0 <= k < basis@[j as int]@.len() && !(i64::MIN
                                        <= #[trigger] reduced_row(
                                        ints(basis@[j as int]@),
                                        ints(basis@[p as int]@),
                                    )[k] <= i64::MAX);
                                assert(!(i64::MIN <= target[j as int][k] <= i64::MAX));
                            }
                            return None;
                        },
                    }
                }
                j += 1;
            }
            proof {
                assert(model(next@) =~= target);
                lemma_model_fits(next@);
            }
            Some(next)
        },
    }
}

/// The rows of an executable basis fit in 64 bits.
proof fn lemma_model_fits(b: Seq<Vec<i64>>)
    ensures
        fits(model(b)),
{
}

/// Whether some coefficient of `row` is not zero.
fn has_nonzero_coefficient(row: &Vec<i64>) -> (b: bool)
    requires
        row@.len() > 0,
    ensures
        b == nonzero(coefficients(ints(row@))),
{
    let ghost c = coefficients(ints(row@));
    let mut k: usize = 0;
    while k < row.len() - 1
        invariant
            k <= row@.len() - 1,
            c == coefficients(ints(row@)),
            forall|t: int| 0 <= t < k ==> c[t] == 0,
        decreases row@.len() - k,
    {
        if row[k] != 0 {
            assert(c[k as int] != 0);
            return true;
        }
        k += 1;
    }
    false
}

/// The coefficients of the first candidate row, if there is one.
fn find_relation(basis: &Vec<Vec<i64>>, bound: i128, Ghost(n): Ghost<nat>) -> (r: Option<Vec<i64>>)
    requires
        well_formed(basis@, n),
        bound >= 0,
    ensures
        match r {
            Some(c) => first_relation(model(basis@), bound as int, 0) == Some(ints(c@)),
            None => first_relation(model(basis@), bound as int, 0) is None,
        },
{
    let mut i: usize = 0;
    while i < basis.len()
        invariant
            i <= basis@.len(),
            bound >= 0,
            well_formed(basis@, n),
            first_relation(model(basis@), bound as int, 0) == first_relation(
                model(basis@),
                bound as int,
                i as nat,
            ),
        decreases basis@.len() - i,
    {
        let row = &basis[i];
        let w: i128 = row[row.len() - 1] as i128;
        assert(model(basis@)[i as int] == ints(row@));
        if -bound <= w && w <= bound && has_nonzero_coefficient(row) {
            let mut c: Vec<i64> = Vec::new();
            let mut k: usize = 0;
            while k < row.len() - 1
                invariant
                    k <= row@.len() - 1,
                    c@ == row@.take(k as int),
                decreases row@.len() - k,
            {
                c.push(row[k]);
                assert(c@ =~= row@.take(k + 1));
                k += 1;
            }
            assert(ints(c@) =~= coefficients(ints(row@)));
            return Some(c);
        }
        i += 1;
    }
    None
}

/// The starting basis for `v`, or `None` if a scaled input leaves the 64-bit
/// range.
fn starting_basis(v: &[i64], scale: i64) -> (r: Option<Vec<Vec<i64>>>)
    ensures
        r matches Some(b) ==> model(b@) == initial_basis(ints(v@), scale as int) && well_formed(
            b@,
            v@.len(),
        ),
        r is None <==> !fits(initial_basis(ints(v@), scale as int)),
{
    let n = v.len();
    let ghost target = initial_basis(ints(v@), scale as int);
    let mut basis: Vec<Vec<i64>> = Vec::new();
    let mut i: usize = 0;
    while i < n
        invariant
            i <= n,
            n == v@.len(),
            basis@.len() == i,
            well_formed(basis@, n as nat),
            target == initial_basis(ints(v@), scale as int),
            forall|t: int| 0 <= t < i ==> ints((#[trigger] basis@[t])@) == target[t],
        decreases n - i,
    {
        let w: i64 = match scale.checked_mul(v[i]) {
            Some(w) => w,
            None => {
                assert(!(i64::MIN <= target[i as int][n as int] <= i64::MAX));
                return None;
            },
        };
        let mut row: Vec<i64> = Vec::new();
        let mut k: usize = 0;
        while k < n
            invariant
                k <= n,
                i < n,
                row@.len() == k,
                forall|t: int|
                    0 <= t < k ==> #[trigger] row@[t] == if t == i {
                        1i64
                    } else {
                        0i64
                    },
            decreases n - k,
        {
            row.push(if k == i { 1 } else { 0 });
            k += 1;
        }
        row.push(w);
        assert(ints(row@) =~= target[i as int]);
        basis.push(row);
        i += 1;
    }
    proof {
        assert(model(basis@) =~= target);
        lemma_model_fits(basis@);
    }
    Some(basis)
}

/// Searches for an integer relation among the elements of `v`.
///
/// Starting from the basis `(e_i, scale * v[i])`, the search returns the
/// coefficients of the first row whose weight is within
/// `tolerance * scale` of zero and reduces the basis for another round if
/// there is none, until the rounds of `config` are used up or a coordinate
/// leaves the 64-bit range. A result is always a relation: not all zero, and
/// combining `v` to within `tolerance` of zero.
pub fn relation_by_lll(v: &[i64], config: &RelationConfig) -> (r: Result<Vec<i64>, AlgorithmError>)
    ensures
        !config.valid() ==> r == Err::<Vec<i64>, AlgorithmError>(AlgorithmError::InvalidInput),
        config.valid() ==> match relation_found(ints(v@), *config) {
            Some(c) => r matches Ok(x) && ints(x@) == c,
            None => r == Err::<Vec<i64>, AlgorithmError>(AlgorithmError::NoRelationFound),
        },
        r matches Ok(x) ==> is_relation(ints(x@), ints(v@), config.tolerance as int),
{
    if config.scale < 1 || config.tolerance < 0 {
        return Err(AlgorithmError::InvalidInput);
    }
    assert(0 <= config.tolerance * config.scale <= 0x4000_0000_0000_0000_0000_0000_0000_0000)
        by (nonlinear_arith)
        requires
            0 <= config.tolerance <= 0x8000_0000_0000_0000,
            1 <= config.scale <= 0x8000_0000_0000_0000,
    ;
    let bound: i128 = (config.tolerance as i128) * (config.scale as i128);
    let ghost n = v@.len();
    let ghost goal = relation_found(ints(v@), *config);
    proof {
        law_relation_found_is_relation(ints(v@), *config);
    }
    let mut basis = match starting_basis(v, config.scale) {
        Some(b) => b,
        None => {
            return Err(AlgorithmError::NoRelationFound);
        },
    };
    let mut rounds: usize = config.max_rounds;
    loop
        invariant
            config.valid(),
            well_formed(basis@, n),
            bound == config.bound(),
            bound >= 0,
            goal == relation_found(ints(v@), *config),
            goal == search(model(basis@), bound as int, rounds as nat),
            goal matches Some(c) ==> is_relation(c, ints(v@), config.tolerance as int),
        decreases rounds,
    {
        match find_relation(&basis, bound, Ghost(n)) {
            Some(c) => {
                return Ok(c);
            },
            None => {},
        }
        if rounds == 0 {
            return Err(AlgorithmError::NoRelationFound);
        }
        basis = match reduce_basis(basis, Ghost(n)) {
            Some(next) => next,
            None => {
                return Err(AlgorithmError::NoRelationFound);
            },
        };
        rounds = rounds - 1;
    }
}

} // verus!
