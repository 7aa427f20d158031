//! Why the router's horizon is enough: an agent that can arrive at all can
//! arrive within the horizon, so an agent without a path has no way.

use crate::geometry::Location;
use crate::route::{
    lemma_back_reach, lemma_clear_settled, lemma_first_prior, lemma_no_route, lemma_reach_on_grid,
    longest, prior, Scene,
};
use vstd::prelude::*;
use vstd::set_lib::{lemma_int_range, lemma_len_subset, set_int_range};

verus! {

/// `b` is entered from `a`.
pub open spec fn enters(a: Location, b: Location) -> bool {
    a == prior(b, 0) || a == prior(b, 1) || a == prior(b, 2) || a == prior(b, 3) || a == prior(
        b,
        4,
    )
}

/// From time `from` on the agent being routed may take the cells of `walk`
/// one after the other.
pub open spec fn is_walk(scene: Scene, done: Seq<Seq<Location>>, from: nat, walk: Seq<Location>) -> bool {
    &&& forall|i: int| 0 <= i < walk.len() ==> scene.clear(done, #[trigger] walk[i], from + i)
    &&& forall|i: int| 0 <= i < walk.len() - 1 ==> enters(#[trigger] walk[i], walk[i + 1])
}

/// The number of a cell of the grid, counted in reading order.
pub open spec fn cell_number(scene: Scene, c: Location) -> int {
    c.y * scene.cols + c.x
}

/// A walk from a cell that the agent can reach leads to a cell that it can
/// reach.
pub proof fn lemma_walk_reach(scene: Scene, done: Seq<Seq<Location>>, from: nat, walk: Seq<Location>)
    requires
        walk.len() > 0,
        scene.reach(done, from, walk[0]),
        is_walk(scene, done, from, walk),
    ensures
        scene.reach(done, (from + walk.len() - 1) as nat, walk[walk.len() - 1]),
    decreases walk.len(),
{
    if walk.len() > 1 {
        let head = walk.drop_last();
        assert(is_walk(scene, done, from, head)) by {
            assert forall|i: int| 0 <= i < head.len() implies scene.clear(
                done,
                #[trigger] head[i],
                from + i,
            ) by {
                assert(head[i] == walk[i]);
            }
            assert forall|i: int| 0 <= i < head.len() - 1 implies enters(
                #[trigger] head[i],
                head[i + 1],
            ) by {
                assert(head[i] == walk[i] && head[i + 1] == walk[i + 1]);
            }
        }
        lemma_walk_reach(scene, done, from, head);
        let n = walk.len() as int;
        assert(head[n - 2] == walk[n - 2]);
        assert(enters(walk[n - 2], walk[n - 2 + 1]));
        assert(scene.clear(done, walk[n - 1], from + (n - 1)));
    }
}

/// Distinct cells of the grid have distinct numbers, below the number of
/// cells.
pub proof fn lemma_cell_numbers(scene: Scene, a: Location, b: Location)
    requires
        0 <= a.y < scene.rows,
        0 <= a.x < scene.cols,
        0 <= b.y < scene.rows,
        0 <= b.x < scene.cols,
    ensures
        0 <= cell_number(scene, a) < scene.cells(),
        cell_number(scene, a) == cell_number(scene, b) ==> a == b,
{
    let cols = scene.cols as int;
    let rows = scene.rows as int;
    let ay = a.y as int;
    let by = b.y as int;
    assert(0 <= ay * cols && (ay + 1) * cols <= rows * cols) by (nonlinear_arith)
        requires
            0 <= ay < rows,
            0 < cols,
    ;
    assert((ay + 1) * cols == ay * cols + cols) by (nonlinear_arith);
    if ay < by {
        assert((ay + 1) * cols <= by * cols) by (nonlinear_arith)
            requires
                ay + 1 <= by,
                0 < cols,
        ;
    }
    if by < ay {
        assert((by + 1) * cols <= ay * cols) by (nonlinear_arith)
            requires
                by + 1 <= ay,
                0 < cols,
        ;
        assert((by + 1) * cols == by * cols + cols) by (nonlinear_arith);
    }
}

/// Among more cells of the grid than the grid has, one comes twice.
pub proof fn lemma_cell_twice(scene: Scene, cells: Seq<Location>)
    requires
        cells.len() > scene.cells(),
        forall|i: int|
            0 <= i < cells.len() ==> 0 <= (#[trigger] cells[i]).y < scene.rows && 0 <= cells[i].x
                < scene.cols,
    ensures
        exists|i: int, j: int| 0 <= i < j < cells.len() && cells[i] == cells[j],
{
    let numbers = Seq::new(cells.len(), |i: int| cell_number(scene, cells[i]));
    if numbers.no_duplicates() {
        numbers.unique_seq_to_set();
        lemma_int_range(0, scene.cells());
        assert(numbers.to_set().subset_of(set_int_range(0, scene.cells()))) by {
            assert forall|v: int| numbers.to_set().contains(v) implies set_int_range(
                0,
                scene.cells(),
            ).contains(v) by {
                let i = choose|i: int| 0 <= i < numbers.len() && numbers[i] == v;
                lemma_cell_numbers(scene, cells[i], cells[i]);
            }
        }
        lemma_len_subset(numbers.to_set(), set_int_range(0, scene.cells()));
        assert(false);
    } else {
        let (i, j) = choose|i: int, j: int|
            0 <= i < numbers.len() && 0 <= j < numbers.len() && i != j && numbers[i] == numbers[j];
        lemma_cell_numbers(scene, cells[i], cells[j]);
        if i < j {
            assert(cells[i] == cells[j]);
        } else {
            assert(cells[j] == cells[i]);
        }
    }
}

/// An agent that arrives after the horizon can arrive sooner: once the
/// earlier agents rest, a way that is longer than the grid has cells comes
/// through one cell twice, and the round between can be left out.
pub proof fn lemma_arrive_sooner(scene: Scene, done: Seq<Seq<Location>>, t: nat)
    requires
        scene.arrives(done, t),
        t > scene.horizon(done),
    ensures
        exists|u: nat| u < t && scene.arrives(done, u),
{
    let settle = longest(done);
    let destination = scene.mover(done).destination;
    let way = scene.trace(done, t);
    assert forall|i: int| 0 <= i <= t implies scene.reach(done, i as nat, #[trigger] way[i]) by {
        lemma_back_reach(scene, done, t, i as nat);
    }
    let late = way.subrange(settle as int, t as int + 1);
    assert forall|i: int| 0 <= i < late.len() implies 0 <= (#[trigger] late[i]).y < scene.rows && 0
        <= late[i].x < scene.cols by {
        assert(late[i] == way[settle + i]);
        lemma_reach_on_grid(scene, done, (settle + i) as nat, way[settle + i]);
    }
    lemma_cell_twice(scene, late);
    let (i, j) = choose|i: int, j: int| 0 <= i < j < late.len() && late[i] == late[j];
    let a = (settle + i) as nat;
    let b = (settle + j) as nat;
    assert(way[a as int] == late[i] && way[b as int] == late[j]);
    let rest = way.subrange(b as int, t as int + 1);
    assert(is_walk(scene, done, a, rest)) by {
        assert forall|k: int| 0 <= k < rest.len() implies scene.clear(
            done,
            #[trigger] rest[k],
            a + k,
        ) by {
            assert(rest[k] == way[b + k]);
            assert(scene.reach(done, (b + k) as nat, way[b + k]));
            lemma_clear_settled(scene, done, rest[k], b + k);
            lemma_clear_settled(scene, done, rest[k], a + k);
        }
        assert forall|k: int| 0 <= k < rest.len() - 1 implies enters(
            #[trigger] rest[k],
            rest[k + 1],
        ) by {
            assert(rest[k] == way[b + k] && rest[k + 1] == way[b + k + 1]);
            assert(scene.reach(done, (b + k + 1) as nat, way[b + k + 1]));
            lemma_first_prior(scene, done, (b + k) as nat, way[b + k + 1]);
            assert(way[b + k] == scene.first_prior(done, (b + k) as nat, way[b + k + 1]));
        }
    }
    assert(rest[0] == way[b as int]);
    assert(scene.reach(done, a, way[a as int]));
    lemma_walk_reach(scene, done, a, rest);
    let u = (a + t - b) as nat;
    assert(rest[rest.len() - 1] == way[t as int]);
    assert(scene.reach(done, u, destination));
    assert(scene.rests(done, u)) by {
        assert(scene.clear(done, destination, t as int));
        lemma_clear_settled(scene, done, destination, t as int);
        assert forall|v: int| v >= u implies #[trigger] scene.clear(done, destination, v) by {
            lemma_clear_settled(scene, done, destination, v);
        }
    }
    assert(u < t && scene.arrives(done, u));
}

/// An agent without a path has no way at all: at no time can it be at its
/// destination and hold it, clear of the borders, of the forbidden cells and
/// of the agents on the paths `done`.
pub proof fn lemma_no_route_ever(scene: Scene, done: Seq<Seq<Location>>, t: nat)
    requires
        scene.route_of(done).is_none(),
    ensures
        !scene.arrives(done, t),
    decreases t,
{
    if scene.arrives(done, t) {
        if t <= scene.horizon(done) {
            lemma_no_route(scene, done, t);
        } else {
            lemma_arrive_sooner(scene, done, t);
            let u = choose|u: nat| u < t && scene.arrives(done, u);
            lemma_no_route_ever(scene, done, u);
        }
    }
}

} // verus!
