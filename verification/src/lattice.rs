//! The grid behind the cubic-lattice initial condition: how many cells fit
//! on an axis, how many sites the grid has, and which cell each particle
//! sits in.

use vstd::prelude::*;
use vstd::arithmetic::div_mod::*;
use vstd::arithmetic::power::*;

verus! {

/// Number of sites of a grid with the given per-axis cell counts: their product.
pub open spec fn product(cells: Seq<usize>) -> nat
    decreases cells.len(),
{
    if cells.len() == 0 {
        1
    } else {
        product(cells.drop_last()) * (cells.last() as nat)
    }
}

/// Whether some axis of the grid has no cell at all.
pub open spec fn has_empty_axis(cells: Seq<usize>) -> bool {
    exists|i: int| 0 <= i < cells.len() && cells[i] == 0
}

/// A grid with an empty axis has no site.
pub proof fn lemma_product_zero(cells: Seq<usize>)
    requires
        has_empty_axis(cells),
    ensures
        product(cells) == 0,
    decreases cells.len(),
{
    let i = choose|i: int| 0 <= i < cells.len() && cells[i] == 0;
    let front = product(cells.drop_last());
    let last = cells.last() as nat;
    if i == cells.len() - 1 {
        assert(front * last == 0) by (nonlinear_arith)
            requires
                last == 0,
        ;
    } else {
        assert(cells.drop_last()[i] == 0);
        lemma_product_zero(cells.drop_last());
        assert(front * last == 0) by (nonlinear_arith)
            requires
                front == 0,
        ;
    }
}

/// A grid without an empty axis has at least one site, and each leading
/// part of it has no more sites than the whole.
pub proof fn lemma_product_prefix(cells: Seq<usize>, n: int)
    requires
        !has_empty_axis(cells),
        0 <= n <= cells.len(),
    ensures
        1 <= product(cells.take(n)) <= product(cells),
    decreases cells.len() - n,
{
    if n == cells.len() {
        assert(cells.take(n) =~= cells);
        lemma_product_positive(cells);
    } else {
        lemma_product_prefix(cells, n + 1);
        let longer = cells.take(n + 1);
        assert(longer.drop_last() =~= cells.take(n));
        assert(longer.last() == cells[n]);
        assert(cells[n] >= 1);
        lemma_product_positive(cells.take(n));
        assert(product(cells.take(n)) <= product(cells.take(n)) * (cells[n] as nat))
            by (nonlinear_arith)
            requires
                cells[n] >= 1,
        ;
    }
}

/// A grid without an empty axis has at least one site.
pub proof fn lemma_product_positive(cells: Seq<usize>)
    requires
        !has_empty_axis(cells),
    ensures
        product(cells) >= 1,
    decreases cells.len(),
{
    if cells.len() > 0 {
        let front = cells.drop_last();
        assert forall|i: int| 0 <= i < front.len() implies front[i] != 0 by {
            assert(front[i] == cells[i]);
        }
        lemma_product_positive(front);
        assert(cells[cells.len() - 1] != 0);
        assert(product(front) * (cells.last() as nat) >= 1) by (nonlinear_arith)
            requires
                product(front) >= 1,
                cells.last() >= 1,
        ;
    }
}

/// Whether some axis has no cell.
fn any_empty_axis(cells: &[usize]) -> (found: bool)
    ensures
        found == has_empty_axis(cells@),
{
    let mut i: usize = 0;
    while i < cells.len()
        invariant
            i <= cells.len(),
            forall|j: int| 0 <= j < i ==> cells@[j] != 0,
        decreases cells.len() - i,
    {
        if cells[i] == 0 {
            return true;
        }
        i += 1;
    }
    false
}

/// The number of sites of the grid, where it fits the machine word.
pub fn number_of_atoms(cells: &[usize]) -> (count: usize)
    requires
        product(cells@) <= usize::MAX,
    ensures
        count == product(cells@),
{
    match checked_number_of_atoms(cells) {
        Some(count) => count,
        None => 0,
    }
}

/// The number of sites of the grid, or `None` where it exceeds the machine word.
pub fn checked_number_of_atoms(cells: &[usize]) -> (count: Option<usize>)
    ensures
        product(cells@) <= usize::MAX ==> count == Some(product(cells@) as usize),
        product(cells@) > usize::MAX ==> count.is_none(),
{
    if any_empty_axis(cells) {
        proof {
            lemma_product_zero(cells@);
        }
        return Some(0);
    }
    let mut result: usize = 1;
    let mut i: usize = 0;
    while i < cells.len()
        invariant
            i <= cells.len(),
            !has_empty_axis(cells@),
            result == product(cells@.take(i as int)),
        decreases cells.len() - i,
    {
        proof {
            let longer = cells@.take(i + 1);
            assert(longer.drop_last() =~= cells@.take(i as int));
            assert(longer.last() == cells@[i as int]);
            lemma_product_prefix(cells@, i + 1);
        }
        match result.checked_mul(cells[i]) {
            Some(next) => {
                result = next;
            },
            None => {
                return None;
            },
        }
        i += 1;
    }
    proof {
        assert(cells@.take(i as int) =~= cells@);
    }
    Some(result)
}

/// Whether `root` is the whole part of the `dim`-th root of `n`: the one
/// number whose `dim`-th power does not exceed `n` while that of its
/// successor does.
pub open spec fn is_integer_root(root: nat, n: nat, dim: nat) -> bool {
    pow(root as int, dim) <= n < pow(root as int + 1, dim)
}

/// A power with one more factor.
pub proof fn lemma_pow_step(b: int, e: nat)
    ensures
        pow(b, e + 1) == b * pow(b, e),
{
    reveal(pow);
}

/// Powers grow with their base.
pub proof fn lemma_pow_base_increases(a: nat, b: nat, e: nat)
    requires
        a <= b,
    ensures
        0 <= pow(a as int, e) <= pow(b as int, e),
    decreases e,
{
    if e == 0 {
        lemma_pow0(a as int);
        lemma_pow0(b as int);
    } else {
        let d = (e - 1) as nat;
        lemma_pow_base_increases(a, b, d);
        lemma_pow_step(a as int, d);
        lemma_pow_step(b as int, d);
        let pa = pow(a as int, d);
        let pb = pow(b as int, d);
        assert(0 <= a * pa <= b * pb) by (nonlinear_arith)
            requires
                0 <= a <= b,
                0 <= pa <= pb,
        ;
    }
}

/// No number has two whole roots of one degree.
pub proof fn lemma_integer_root_unique(r1: nat, r2: nat, n: nat, dim: nat)
    requires
        is_integer_root(r1, n, dim),
        is_integer_root(r2, n, dim),
    ensures
        r1 == r2,
{
    if r1 < r2 {
        lemma_pow_base_increases(r1 + 1, r2, dim);
    } else if r2 < r1 {
        lemma_pow_base_increases(r2 + 1, r1, dim);
    }
}

/// Whether the `dim`-th power of `base` stays within `bound`.
fn power_fits(base: usize, dim: usize, bound: usize) -> (fits: bool)
    requires
        base >= 2,
    ensures
        fits == (pow(base as int, dim as nat) <= bound),
{
    if bound == 0 {
        proof {
            lemma_pow_positive(base as int, dim as nat);
        }
        return false;
    }
    let mut acc: usize = 1;
    let mut i: usize = 0;
    proof {
        lemma_pow0(base as int);
    }
    while i < dim
        invariant
            base >= 2,
            i <= dim,
            1 <= acc <= bound,
            acc == pow(base as int, i as nat),
        decreases dim - i,
    {
        proof {
            lemma_pow_step(base as int, i as nat);
        }
        if acc > bound / base {
            proof {
                assert(acc * base > bound) by (nonlinear_arith)
                    requires
                        acc > bound / base,
                        base >= 2,
                        bound >= 0,
                ;
                lemma_pow_increases(base as nat, (i + 1) as nat, dim as nat);
            }
            return false;
        }
        assert(1 <= acc * base <= bound) by (nonlinear_arith)
            requires
                1 <= acc <= bound / base,
                base >= 2,
                bound >= 0,
        ;
        acc = acc * base;
        i += 1;
    }
    true
}

/// Cells per axis of the cubic lattice for `n_mol` particles in `dim`
/// dimensions: the whole part of the `dim`-th root of `n_mol`.
pub fn cell_count(n_mol: usize, dim: usize) -> (cells: usize)
    requires
        dim >= 1,
    ensures
        is_integer_root(cells as nat, n_mol as nat, dim as nat),
{
    if n_mol <= 1 {
        proof {
            lemma0_pow(dim as nat);
            lemma1_pow(dim as nat);
            lemma_pow1(2);
            lemma_pow_increases(2, 1, dim as nat);
        }
        return n_mol;
    }
    if dim == 1 {
        proof {
            lemma_pow1(n_mol as int);
            lemma_pow1(n_mol + 1);
        }
        return n_mol;
    }
    let mut low: usize = 1;
    let mut high: usize = n_mol;
    proof {
        lemma1_pow(dim as nat);
        lemma_square_is_pow2(n_mol as int);
        lemma_pow_increases(n_mol as nat, 2, dim as nat);
        assert(n_mol * n_mol > n_mol) by (nonlinear_arith)
            requires
                n_mol >= 2,
        ;
    }
    while high - low > 1
        invariant
            1 <= low < high <= n_mol,
            pow(low as int, dim as nat) <= n_mol < pow(high as int, dim as nat),
        decreases high - low,
    {
        let middle: usize = low + (high - low) / 2;
        if power_fits(middle, dim, n_mol) {
            low = middle;
        } else {
            high = middle;
        }
    }
    low
}

/// The cell on each axis of site number `k`, counted with the last axis
/// running fastest.
pub open spec fn site(cells: Seq<usize>, k: nat) -> Seq<usize>
    decreases cells.len(),
{
    if cells.len() == 0 {
        Seq::empty()
    } else {
        let last = cells.last() as nat;
        site(cells.drop_last(), k / last).push((k % last) as usize)
    }
}

/// Whether `at` names a cell of the grid: one index per axis, each below
/// the axis's cell count.
pub open spec fn in_grid(cells: Seq<usize>, at: Seq<usize>) -> bool {
    &&& at.len() == cells.len()
    &&& forall|i: int| 0 <= i < cells.len() ==> #[trigger] at[i] < cells[i]
}

/// The number of the site at cell `at`: the inverse of [`site`].
pub open spec fn rank(cells: Seq<usize>, at: Seq<usize>) -> nat
    decreases cells.len(),
{
    if cells.len() == 0 {
        0
    } else {
        rank(cells.drop_last(), at.drop_last()) * (cells.last() as nat) + (at.last() as nat)
    }
}

proof fn lemma_in_grid_front(cells: Seq<usize>, at: Seq<usize>)
    requires
        in_grid(cells, at),
        cells.len() > 0,
    ensures
        in_grid(cells.drop_last(), at.drop_last()),
        at.last() < cells.last(),
{
    let front = cells.drop_last();
    assert forall|i: int| 0 <= i < front.len() implies at.drop_last()[i] < front[i] by {
        assert(at[i] < cells[i]);
    }
    assert(at[cells.len() - 1] < cells[cells.len() - 1]);
}

/// Every cell of the grid has a site number below the number of sites.
pub proof fn lemma_rank_bound(cells: Seq<usize>, at: Seq<usize>)
    requires
        in_grid(cells, at),
    ensures
        rank(cells, at) < product(cells),
    decreases cells.len(),
{
    if cells.len() > 0 {
        lemma_in_grid_front(cells, at);
        lemma_rank_bound(cells.drop_last(), at.drop_last());
        let r = rank(cells.drop_last(), at.drop_last());
        let p = product(cells.drop_last());
        let c = cells.last() as nat;
        let l = at.last() as nat;
        assert(r * c + l < p * c) by (nonlinear_arith)
            requires
                r < p,
                l < c,
        ;
    }
}

/// The cell of a site number has that number: each cell of the grid holds
/// exactly one site.
pub proof fn lemma_site_of_rank(cells: Seq<usize>, at: Seq<usize>)
    requires
        in_grid(cells, at),
    ensures
        site(cells, rank(cells, at)) == at,
    decreases cells.len(),
{
    if cells.len() == 0 {
        assert(at =~= Seq::empty());
    } else {
        lemma_in_grid_front(cells, at);
        lemma_site_of_rank(cells.drop_last(), at.drop_last());
        let r = rank(cells.drop_last(), at.drop_last());
        let c = cells.last() as nat;
        let l = at.last() as nat;
        lemma_fundamental_div_mod_converse((r * c + l) as int, c as int, r as int, l as int);
        assert(site(cells, rank(cells, at)) =~= at);
    }
}

/// Every site number below the number of sites names a cell of the grid,
/// and that cell has this number.
pub proof fn lemma_rank_of_site(cells: Seq<usize>, k: nat)
    requires
        k < product(cells),
    ensures
        in_grid(cells, site(cells, k)),
        rank(cells, site(cells, k)) == k,
    decreases cells.len(),
{
    if cells.len() > 0 {
        let front = cells.drop_last();
        let c = cells.last() as nat;
        let p = product(front);
        assert(c > 0) by (nonlinear_arith)
            requires
                k < p * c,
        ;
        assert(p * c == c * p) by (nonlinear_arith);
        lemma_multiply_divide_lt(k as int, c as int, p as int);
        lemma_rank_of_site(front, k / c);
        lemma_fundamental_div_mod(k as int, c as int);
        lemma_mod_pos_bound(k as int, c as int);
        let here = site(cells, k);
        assert(here.drop_last() =~= site(front, k / c));
        assert(here.last() == k % c);
        assert forall|i: int| 0 <= i < cells.len() implies here[i] < cells[i] by {
            if i < front.len() {
                assert(here[i] == site(front, k / c)[i]);
                assert(front[i] == cells[i]);
            }
        }
        assert((k / c) * c == c * (k / c)) by (nonlinear_arith);
    }
}

/// The cell whose every index is zero is site number zero.
proof fn lemma_rank_origin(cells: Seq<usize>, at: Seq<usize>)
    requires
        at.len() == cells.len(),
        forall|i: int| 0 <= i < at.len() ==> at[i] == 0,
    ensures
        rank(cells, at) == 0,
    decreases cells.len(),
{
    if cells.len() > 0 {
        lemma_rank_origin(cells.drop_last(), at.drop_last());
        assert(at[at.len() - 1] == 0);
        assert(0 * (cells.last() as nat) == 0) by (nonlinear_arith);
    }
}

/// The cell whose every index is the highest of its axis is the last site.
proof fn lemma_rank_corner(cells: Seq<usize>, at: Seq<usize>)
    requires
        at.len() == cells.len(),
        forall|i: int| 0 <= i < at.len() ==> at[i] + 1 == cells[i],
    ensures
        rank(cells, at) + 1 == product(cells),
    decreases cells.len(),
{
    if cells.len() > 0 {
        lemma_rank_corner(cells.drop_last(), at.drop_last());
        assert(at[at.len() - 1] + 1 == cells[cells.len() - 1]);
        let r = rank(cells.drop_last(), at.drop_last());
        let c = cells.last() as nat;
        assert(r * c + c == (r + 1) * c) by (nonlinear_arith);
    }
}

/// Counting one up on axis `axis`, with every later axis falling from its
/// highest index to zero, gives the next site.
proof fn lemma_rank_carry(cells: Seq<usize>, from: Seq<usize>, to: Seq<usize>, axis: int)
    requires
        from.len() == cells.len(),
        to.len() == cells.len(),
        0 <= axis < cells.len(),
        forall|i: int| 0 <= i < axis ==> to[i] == from[i],
        to[axis] == from[axis] + 1,
        forall|i: int| axis < i < cells.len() ==> from[i] + 1 == cells[i] && to[i] == 0,
    ensures
        rank(cells, to) == rank(cells, from) + 1,
    decreases cells.len(),
{
    let c = cells.last() as nat;
    if axis == cells.len() - 1 {
        assert(to.drop_last() =~= from.drop_last());
    } else {
        lemma_rank_carry(cells.drop_last(), from.drop_last(), to.drop_last(), axis);
        let r = rank(cells.drop_last(), from.drop_last());
        assert(from[cells.len() - 1] + 1 == cells[cells.len() - 1]);
        assert(to[cells.len() - 1] == 0);
        assert((r + 1) * c == r * c + c) by (nonlinear_arith);
    }
}

/// Moves `current` to the cell of the next site. After the last site it
/// returns `false` and leaves `current` at the first one.
pub fn next_site(cells: &[usize], current: &mut Vec<usize>) -> (advanced: bool)
    requires
        in_grid(cells@, old(current)@),
    ensures
        in_grid(cells@, final(current)@),
        advanced == (rank(cells@, old(current)@) + 1 < product(cells@)),
        advanced ==> rank(cells@, final(current)@) == rank(cells@, old(current)@) + 1,
        !advanced ==> rank(cells@, final(current)@) == 0,
        final(current)@ == site(
            cells@,
            if advanced {
                rank(cells@, old(current)@) + 1
            } else {
                0
            },
        ),
{
    let ghost start = current@;
    let mut axis: usize = cells.len();
    while axis > 0
        invariant
            axis <= cells.len(),
            start == old(current)@,
            in_grid(cells@, start),
            current@.len() == cells@.len(),
            forall|i: int| 0 <= i < axis ==> #[trigger] current@[i] == start[i],
            forall|i: int| axis <= i < cells@.len() ==> #[trigger] start[i] + 1 == cells@[i],
            forall|i: int| axis <= i < cells@.len() ==> #[trigger] current@[i] == 0,
        decreases axis,
    {
        axis -= 1;
        let index: usize = current[axis];
        assert(start[axis as int] < cells@[axis as int]);
        if index + 1 < cells[axis] {
            current.set(axis, index + 1);
            proof {
                assert forall|i: int| 0 <= i < cells@.len() implies #[trigger] current@[i]
                    < cells@[i] by {
                    assert(start[i] < cells@[i]);
                }
                lemma_rank_carry(cells@, start, current@, axis as int);
                lemma_rank_bound(cells@, current@);
                lemma_site_of_rank(cells@, current@);
            }
            return true;
        }
        current.set(axis, 0);
    }
    proof {
        assert forall|i: int| 0 <= i < cells@.len() implies #[trigger] current@[i]
            < cells@[i] by {
            assert(start[i] < cells@[i]);
        }
        lemma_rank_corner(cells@, start);
        lemma_rank_origin(cells@, current@);
        lemma_site_of_rank(cells@, current@);
    }
    false
}

/// The cells of all sites of the grid, site by site, the last axis running
/// fastest.
pub fn lattice(cells: &[usize]) -> (sites: Vec<Vec<usize>>)
    requires
        cells@.len() >= 1,
        product(cells@) <= usize::MAX,
    ensures
        sites@.len() == product(cells@),
        forall|k: int| 0 <= k < sites@.len() ==> (#[trigger] sites@[k])@ == site(cells@, k as nat),
{
    let mut sites: Vec<Vec<usize>> = Vec::new();
    if any_empty_axis(cells) {
        proof {
            lemma_product_zero(cells@);
        }
        return sites;
    }
    let mut current: Vec<usize> = Vec::new();
    while current.len() < cells.len()
        invariant
            current@.len() <= cells@.len(),
            forall|i: int| 0 <= i < current@.len() ==> current@[i] == 0,
        decreases cells@.len() - current@.len(),
    {
        current.push(0);
    }
    proof {
        lemma_rank_origin(cells@, current@);
    }
    let mut more: bool = true;
    while more
        invariant
            !has_empty_axis(cells@),
            in_grid(cells@, current@),
            more ==> rank(cells@, current@) == sites@.len(),
            !more ==> sites@.len() == product(cells@),
            forall|k: int| 0 <= k < sites@.len() ==> (#[trigger] sites@[k])@ == site(cells@, k as nat),
        decreases product(cells@) - sites@.len() + (if more { 1nat } else { 0nat }),
    {
        proof {
            lemma_rank_bound(cells@, current@);
            lemma_site_of_rank(cells@, current@);
        }
        let here: Vec<usize> = current.clone();
        assert(here@ =~= current@);
        sites.push(here);
        more = next_site(cells, &mut current);
    }
    sites
}

/// The grid with `count` cells on each of `dim` axes.
pub open spec fn cubic(count: usize, dim: nat) -> Seq<usize> {
    Seq::new(dim, |i: int| count)
}

/// A cubic grid has as many sites as the cell count raised to the number of
/// axes.
pub proof fn lemma_cubic_product(count: usize, dim: nat)
    ensures
        product(cubic(count, dim)) == pow(count as int, dim),
    decreases dim,
{
    if dim == 0 {
        lemma_pow0(count as int);
    } else {
        let fewer = (dim - 1) as nat;
        assert(cubic(count, dim).drop_last() =~= cubic(count, fewer));
        lemma_cubic_product(count, fewer);
        lemma_pow_step(count as int, fewer);
        assert(pow(count as int, fewer) * count == count * pow(count as int, fewer))
            by (nonlinear_arith);
    }
}

/// The cubic lattice for `n_mol` particles in `dim` dimensions holds as
/// many particles as the whole part of the `dim`-th root of `n_mol`, raised
/// to the power `dim`: never more than `n_mol`, and fewer unless `n_mol` is
/// a perfect `dim`-th power.
pub proof fn lemma_cubic_lattice_count(n_mol: usize, dim: usize, count: usize)
    requires
        is_integer_root(count as nat, n_mol as nat, dim as nat),
    ensures
        product(cubic(count, dim as nat)) == pow(count as int, dim as nat),
        product(cubic(count, dim as nat)) <= n_mol,
        product(cubic(count, dim as nat)) == n_mol <==> pow(count as int, dim as nat) == n_mol,
{
    lemma_cubic_product(count, dim as nat);
}

/// The grid of the cubic lattice for `n_mol` particles in `dim` dimensions:
/// the cells per axis, and the cell of every particle in particle order.
/// The lattice holds `count` to the power `dim` particles, which is `n_mol`
/// only where `n_mol` is a perfect power.
pub fn cubic_lattice(n_mol: usize, dim: usize) -> (grid: (usize, Vec<Vec<usize>>))
    requires
        dim >= 1,
    ensures
        is_integer_root(grid.0 as nat, n_mol as nat, dim as nat),
        grid.1@.len() == pow(grid.0 as int, dim as nat),
        forall|k: int|
            0 <= k < grid.1@.len() ==> (#[trigger] grid.1@[k])@ == site(
                cubic(grid.0, dim as nat),
                k as nat,
            ),
{
    let count: usize = cell_count(n_mol, dim);
    let mut cells: Vec<usize> = Vec::new();
    while cells.len() < dim
        invariant
            cells@.len() <= dim,
            forall|i: int| 0 <= i < cells@.len() ==> cells@[i] == count,
        decreases dim - cells@.len(),
    {
        cells.push(count);
    }
    proof {
        assert(cells@ =~= cubic(count, dim as nat));
        lemma_cubic_lattice_count(n_mol, dim, count);
    }
    let sites: Vec<Vec<usize>> = lattice(cells.as_slice());
    (count, sites)
}

} // verus!
