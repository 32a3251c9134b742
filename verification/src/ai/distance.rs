//! How far every cell of a map is from the nearest goal.

use crate::deps::sparse::{cell, lists_nonzero_cells};
use crate::mapf::action::{neighbor, neighbor_in};
use crate::mapf::definition::MAPFDefinition;
use std::collections::VecDeque;
use vstd::prelude::*;

verus! {

/// There is a walk of exactly `k` steps from a goal cell, of any owner, to
/// `(r, c)`: every step leads to an orthogonal neighbour that is on the map
/// and no obstacle.
pub open spec fn reach(definition: &MAPFDefinition, r: int, c: int, k: nat) -> bool
    decreases k,
{
    if k == 0 {
        cell(definition.goals@, r, c) != 0
    } else {
        definition.passable(r, c) && exists|dir: int|
            0 <= dir < 4 && reach(definition, (#[trigger] neighbor(r, c, dir)).0, neighbor(r, c, dir).1, (k - 1) as nat)
    }
}

/// `k` is the length of a shortest walk from a goal to `(r, c)`.
pub open spec fn is_shortest(definition: &MAPFDefinition, r: int, c: int, k: nat) -> bool {
    reach(definition, r, c, k) && forall|j: nat| j < k ==> !reach(definition, r, c, j)
}

/// The length of a shortest walk from a goal to `(r, c)`, and `-1` where no
/// walk leads there.
pub open spec fn distance(definition: &MAPFDefinition, r: int, c: int) -> int {
    if exists|k: nat| reach(definition, r, c, k) {
        (choose|k: nat| is_shortest(definition, r, c, k)) as int
    } else {
        -1
    }
}

/// A walk that no shorter walk undercuts gives the distance.
pub proof fn shortest_walk_is_distance(definition: &MAPFDefinition, r: int, c: int, k: nat)
    requires
        is_shortest(definition, r, c, k),
    ensures
        distance(definition, r, c) == k,
{
    let chosen = choose|j: nat| is_shortest(definition, r, c, j);
    assert(is_shortest(definition, r, c, chosen));
    if chosen < k {
        assert(!reach(definition, r, c, chosen));
    }
    if k < chosen {
        assert(!reach(definition, r, c, k));
    }
}

/// The cells of a grid of distances, row by row.
pub open spec fn cells_of(grid: Seq<Vec<i64>>) -> Seq<Seq<i64>> {
    grid.map_values(|row: Vec<i64>| row@)
}

/// `field` has `height` rows of `width` cells.
pub open spec fn shaped(field: Seq<Seq<i64>>, height: int, width: int) -> bool {
    &&& field.len() == height
    &&& forall|r: int| 0 <= r < height ==> (#[trigger] field[r]).len() == width
}

/// `field` holds, for every cell of the map, its distance from the nearest
/// goal.
pub open spec fn is_distance_field(definition: &MAPFDefinition, field: Seq<Seq<i64>>) -> bool {
    &&& shaped(field, definition.shape.0 as int, definition.shape.1 as int)
    &&& forall|r: int, c: int|
        0 <= r < definition.shape.0 && 0 <= c < definition.shape.1 ==> #[trigger] field[r][c] == distance(
            definition,
            r,
            c,
        )
}

/// The direction that leads back where `dir` came from.
pub open spec fn opposite(dir: int) -> int {
    if dir < 2 {
        dir + 2
    } else {
        dir - 2
    }
}

/// `(r, c)` waits in the queue.
spec fn queued(queue: Seq<(usize, usize, i64)>, r: int, c: int) -> bool {
    exists|i: int| 0 <= i < queue.len() && (#[trigger] queue[i]).0 == r && queue[i].1 == c
}

/// The neighbour of `(r, c)` in direction `dir`, if a unit can stand there,
/// has its distance, and it is at most one more than that of `(r, c)`.
spec fn settled_toward(definition: &MAPFDefinition, field: Seq<Seq<i64>>, r: int, c: int, dir: int) -> bool {
    let n = neighbor(r, c, dir);
    definition.passable(n.0, n.1) ==> 0 <= field[n.0][n.1] <= field[r][c] + 1
}

/// All four neighbours of `(r, c)` are settled.
spec fn settled(definition: &MAPFDefinition, field: Seq<Seq<i64>>, r: int, c: int) -> bool {
    forall|dir: int| 0 <= dir < 4 ==> #[trigger] settled_toward(definition, field, r, c, dir)
}

/// `(r, c)` is the cell whose neighbours are being looked at.
spec fn in_hand(pending: Option<(int, int, int)>, r: int, c: int) -> bool {
    pending matches Some(p) && p.0 == r && p.1 == c
}

/// What holds throughout the breadth-first search: `field` holds `-1` or a
/// true walk length, `queue` the reached cells whose neighbours are still to
/// be looked at, in the order of their distance, and `pending` the cell in
/// hand with the number of its directions that are done.
spec fn search_inv(
    definition: &MAPFDefinition,
    field: Seq<Seq<i64>>,
    queue: Seq<(usize, usize, i64)>,
    unreached: Set<(int, int)>,
    total: int,
    level: int,
    pending: Option<(int, int, int)>,
) -> bool {
    let h = definition.shape.0 as int;
    let w = definition.shape.1 as int;
    &&& shaped(field, h, w)
    &&& unreached.finite()
    &&& 0 <= level
    &&& total <= i64::MAX
    &&& forall|r: int, c: int| 0 <= r < h && 0 <= c < w ==> #[trigger] field[r][c] >= -1
    &&& forall|r: int, c: int| 0 <= r < h && 0 <= c < w && #[trigger] field[r][c] == -1 ==> unreached.contains((r, c))
    &&& forall|r: int, c: int|
        0 <= r < h && 0 <= c < w && #[trigger] field[r][c] >= 0 ==> {
            &&& field[r][c] + 1 + unreached.len() <= total
            &&& field[r][c] <= level + 1
            &&& reach(definition, r, c, field[r][c] as nat)
            &&& (queued(queue, r, c) || in_hand(pending, r, c) || settled(definition, field, r, c))
        }
    &&& forall|r: int, c: int| #[trigger] cell(definition.goals@, r, c) != 0 ==> 0 <= r < h && 0 <= c < w && field[r][c] == 0
    &&& forall|i: int|
        0 <= i < queue.len() ==> {
            &&& (#[trigger] queue[i]).0 < h
            &&& queue[i].1 < w
            &&& field[queue[i].0 as int][queue[i].1 as int] == queue[i].2
            &&& level <= queue[i].2
        }
    &&& forall|i: int, j: int| 0 <= i < j < queue.len() ==> (#[trigger] queue[i]).2 <= (#[trigger] queue[j]).2
    &&& match pending {
        Some(p) => {
            &&& 0 <= p.0 < h
            &&& 0 <= p.1 < w
            &&& field[p.0][p.1] == level
            &&& 0 <= p.2 <= 4
            &&& forall|dir: int| 0 <= dir < p.2 ==> #[trigger] settled_toward(definition, field, p.0, p.1, dir)
        },
        None => true,
    }
}

proof fn lemma_opposite_leads_back(r: int, c: int, dir: int)
    requires
        0 <= dir < 4,
    ensures
        0 <= opposite(dir) < 4,
        neighbor(neighbor(r, c, dir).0, neighbor(r, c, dir).1, opposite(dir)) == (r, c),
        neighbor(neighbor(r, c, opposite(dir)).0, neighbor(r, c, opposite(dir)).1, dir) == (r, c),
{
}

proof fn lemma_take_front(
    definition: &MAPFDefinition,
    field: Seq<Seq<i64>>,
    queue: Seq<(usize, usize, i64)>,
    unreached: Set<(int, int)>,
    total: int,
    level: int,
)
    requires
        search_inv(definition, field, queue, unreached, total, level, None),
        queue.len() > 0,
    ensures
        search_inv(
            definition,
            field,
            queue.drop_first(),
            unreached,
            total,
            queue[0].2 as int,
            Some((queue[0].0 as int, queue[0].1 as int, 0int)),
        ),
{
    let h = definition.shape.0 as int;
    let w = definition.shape.1 as int;
    let rest = queue.drop_first();
    let front = queue[0];
    let next_level = front.2 as int;
    let pending = Some((front.0 as int, front.1 as int, 0int));
    assert forall|r: int, c: int| 0 <= r < h && 0 <= c < w && #[trigger] field[r][c] >= 0 implies {
        &&& field[r][c] + 1 + unreached.len() <= total
        &&& field[r][c] <= next_level + 1
        &&& reach(definition, r, c, field[r][c] as nat)
        &&& (queued(rest, r, c) || in_hand(pending, r, c) || settled(definition, field, r, c))
    } by {
        if queued(queue, r, c) {
            let i = choose|i: int| 0 <= i < queue.len() && (#[trigger] queue[i]).0 == r && queue[i].1 == c;
            if i > 0 {
                assert(rest[i - 1] == queue[i]);
            }
        }
    }
    assert forall|i: int| 0 <= i < rest.len() implies {
        &&& (#[trigger] rest[i]).0 < h
        &&& rest[i].1 < w
        &&& field[rest[i].0 as int][rest[i].1 as int] == rest[i].2
        &&& next_level <= rest[i].2
    } by {
        assert(rest[i] == queue[i + 1]);
    }
    assert forall|i: int, j: int| 0 <= i < j < rest.len() implies (#[trigger] rest[i]).2 <= (#[trigger] rest[j]).2 by {
        assert(rest[i] == queue[i + 1]);
        assert(rest[j] == queue[j + 1]);
    }
}

proof fn lemma_pass_by(
    definition: &MAPFDefinition,
    field: Seq<Seq<i64>>,
    queue: Seq<(usize, usize, i64)>,
    unreached: Set<(int, int)>,
    total: int,
    level: int,
    r: int,
    c: int,
    dir: int,
)
    requires
        search_inv(definition, field, queue, unreached, total, level, Some((r, c, dir))),
        dir < 4,
        !definition.passable(neighbor(r, c, dir).0, neighbor(r, c, dir).1) || field[neighbor(r, c, dir).0][neighbor(
            r,
            c,
            dir,
        ).1] >= 0,
    ensures
        search_inv(definition, field, queue, unreached, total, level, Some((r, c, dir + 1))),
{
    let n = neighbor(r, c, dir);
    if definition.passable(n.0, n.1) {
        assert(field[n.0][n.1] <= level + 1);
    }
    assert(settled_toward(definition, field, r, c, dir));
    assert forall|r2: int, c2: int|
        0 <= r2 < definition.shape.0 && 0 <= c2 < definition.shape.1 && #[trigger] field[r2][c2] >= 0 implies (queued(
        queue,
        r2,
        c2,
    ) || in_hand(Some((r, c, dir + 1)), r2, c2) || settled(definition, field, r2, c2)) by {
        if in_hand(Some((r, c, dir)), r2, c2) {
            assert(in_hand(Some((r, c, dir + 1)), r2, c2));
        }
    }
}

proof fn lemma_put_down(
    definition: &MAPFDefinition,
    field: Seq<Seq<i64>>,
    queue: Seq<(usize, usize, i64)>,
    unreached: Set<(int, int)>,
    total: int,
    level: int,
    r: int,
    c: int,
)
    requires
        search_inv(definition, field, queue, unreached, total, level, Some((r, c, 4int))),
    ensures
        search_inv(definition, field, queue, unreached, total, level, None),
{
    assert(settled(definition, field, r, c));
    assert forall|r2: int, c2: int|
        0 <= r2 < definition.shape.0 && 0 <= c2 < definition.shape.1 && #[trigger] field[r2][c2] >= 0 implies (queued(
        queue,
        r2,
        c2,
    ) || in_hand(None, r2, c2) || settled(definition, field, r2, c2)) by {
        if in_hand(Some((r, c, 4int)), r2, c2) {
            assert(settled(definition, field, r2, c2));
        }
    }
}

proof fn lemma_reach_next(
    definition: &MAPFDefinition,
    field: Seq<Seq<i64>>,
    queue: Seq<(usize, usize, i64)>,
    unreached: Set<(int, int)>,
    total: int,
    level: int,
    r: int,
    c: int,
    dir: int,
    field2: Seq<Seq<i64>>,
    queue2: Seq<(usize, usize, i64)>,
    unreached2: Set<(int, int)>,
)
    requires
        search_inv(definition, field, queue, unreached, total, level, Some((r, c, dir))),
        0 <= dir < 4,
        definition.passable(neighbor(r, c, dir).0, neighbor(r, c, dir).1),
        field[neighbor(r, c, dir).0][neighbor(r, c, dir).1] == -1,
        field2 == field.update(
            neighbor(r, c, dir).0,
            field[neighbor(r, c, dir).0].update(neighbor(r, c, dir).1, (level + 1) as i64),
        ),
        queue2 == queue.push(
            (neighbor(r, c, dir).0 as usize, neighbor(r, c, dir).1 as usize, (level + 1) as i64),
        ),
        unreached2 == unreached.remove((neighbor(r, c, dir).0, neighbor(r, c, dir).1)),
    ensures
        search_inv(definition, field2, queue2, unreached2, total, level, Some((r, c, dir + 1))),
        unreached2.len() == unreached.len() - 1,
{
    let h = definition.shape.0 as int;
    let w = definition.shape.1 as int;
    let n = neighbor(r, c, dir);
    let pending = Some((r, c, dir));
    let pending2 = Some((r, c, dir + 1));
    assert(field[r][c] == level);
    assert(level + 1 + unreached.len() <= total);
    assert(unreached.contains((n.0, n.1)));
    assert(level + 1 <= i64::MAX);
    assert forall|r2: int, c2: int| 0 <= r2 < h && 0 <= c2 < w implies #[trigger] field2[r2][c2] == if r2 == n.0
        && c2 == n.1 {
        (level + 1) as i64
    } else {
        field[r2][c2]
    } by {}
    assert(shaped(field2, h, w)) by {
        assert forall|r2: int| 0 <= r2 < h implies (#[trigger] field2[r2]).len() == w by {
            assert(field[r2].len() == w);
        }
    }
    assert(reach(definition, n.0, n.1, (level + 1) as nat)) by {
        lemma_opposite_leads_back(r, c, dir);
        let back = opposite(dir);
        assert(neighbor(n.0, n.1, back) == (r, c));
        assert(reach(definition, r, c, level as nat));
        assert(reach(definition, neighbor(n.0, n.1, back).0, neighbor(n.0, n.1, back).1, level as nat));
    }
    assert(queue2[queue.len() as int] == (n.0 as usize, n.1 as usize, (level + 1) as i64));
    assert forall|r2: int, c2: int, d2: int|
        0 <= r2 < h && 0 <= c2 < w && 0 <= d2 < 4 && field[r2][c2] >= 0 && settled_toward(
            definition,
            field,
            r2,
            c2,
            d2,
        ) implies #[trigger] settled_toward(definition, field2, r2, c2, d2) by {
        let m = neighbor(r2, c2, d2);
        if definition.passable(m.0, m.1) {
            assert(field[m.0][m.1] >= 0);
            assert(field2[m.0][m.1] == field[m.0][m.1]);
            assert(field2[r2][c2] == field[r2][c2]);
        }
    }
    assert forall|r2: int, c2: int| 0 <= r2 < h && 0 <= c2 < w && #[trigger] field2[r2][c2] >= 0 implies {
        &&& field2[r2][c2] + 1 + unreached2.len() <= total
        &&& field2[r2][c2] <= level + 1
        &&& reach(definition, r2, c2, field2[r2][c2] as nat)
        &&& (queued(queue2, r2, c2) || in_hand(pending2, r2, c2) || settled(definition, field2, r2, c2))
    } by {
        if r2 == n.0 && c2 == n.1 {
            assert(queued(queue2, r2, c2));
        } else {
            assert(field[r2][c2] >= 0);
            if queued(queue, r2, c2) {
                let i = choose|i: int| 0 <= i < queue.len() && (#[trigger] queue[i]).0 == r2 && queue[i].1 == c2;
                assert(queue2[i] == queue[i]);
            } else if in_hand(pending, r2, c2) {
            } else {
                assert(settled(definition, field, r2, c2));
                assert forall|d2: int| 0 <= d2 < 4 implies #[trigger] settled_toward(
                    definition,
                    field2,
                    r2,
                    c2,
                    d2,
                ) by {
                    assert(settled_toward(definition, field, r2, c2, d2));
                }
            }
        }
    }
    assert forall|i: int| 0 <= i < queue2.len() implies {
        &&& (#[trigger] queue2[i]).0 < h
        &&& queue2[i].1 < w
        &&& field2[queue2[i].0 as int][queue2[i].1 as int] == queue2[i].2
        &&& level <= queue2[i].2
    } by {
        if i < queue.len() {
            assert(queue2[i] == queue[i]);
            assert(field[queue[i].0 as int][queue[i].1 as int] >= 0);
        }
    }
    assert forall|i: int, j: int| 0 <= i < j < queue2.len() implies (#[trigger] queue2[i]).2 <= (
    #[trigger] queue2[j]).2 by {
        assert(queue2[i] == queue[i]);
        assert(field[queue[i].0 as int][queue[i].1 as int] <= level + 1);
        if j < queue.len() {
            assert(queue2[j] == queue[j]);
        }
    }
    assert forall|d2: int| 0 <= d2 < dir + 1 implies #[trigger] settled_toward(definition, field2, r, c, d2) by {
        if d2 < dir {
            assert(settled_toward(definition, field, r, c, d2));
        }
    }
    assert forall|r2: int, c2: int| #[trigger] cell(definition.goals@, r2, c2) != 0 implies 0 <= r2 < h && 0 <= c2
        < w && field2[r2][c2] == 0 by {
        assert(field[r2][c2] == 0);
    }
}

proof fn lemma_search_reaches_all(
    definition: &MAPFDefinition,
    field: Seq<Seq<i64>>,
    unreached: Set<(int, int)>,
    total: int,
    level: int,
    r: int,
    c: int,
    k: nat,
)
    requires
        search_inv(definition, field, Seq::empty(), unreached, total, level, None),
        reach(definition, r, c, k),
    ensures
        0 <= r < definition.shape.0,
        0 <= c < definition.shape.1,
        0 <= field[r][c] <= k,
    decreases k,
{
    if k > 0 {
        let dir = choose|dir: int|
            0 <= dir < 4 && reach(
                definition,
                (#[trigger] neighbor(r, c, dir)).0,
                neighbor(r, c, dir).1,
                (k - 1) as nat,
            );
        let u = neighbor(r, c, dir);
        lemma_search_reaches_all(definition, field, unreached, total, level, u.0, u.1, (k - 1) as nat);
        lemma_opposite_leads_back(r, c, dir);
        assert(field[u.0][u.1] >= 0);
        assert(!queued(Seq::<(usize, usize, i64)>::empty(), u.0, u.1));
        assert(settled(definition, field, u.0, u.1));
        assert(settled_toward(definition, field, u.0, u.1, opposite(dir)));
    }
}

proof fn lemma_search_done(
    definition: &MAPFDefinition,
    field: Seq<Seq<i64>>,
    unreached: Set<(int, int)>,
    total: int,
    level: int,
)
    requires
        search_inv(definition, field, Seq::empty(), unreached, total, level, None),
    ensures
        is_distance_field(definition, field),
{
    assert forall|r: int, c: int| 0 <= r < definition.shape.0 && 0 <= c < definition.shape.1 implies #[trigger] field[r][c]
        == distance(definition, r, c) by {
        if field[r][c] >= 0 {
            let d = field[r][c] as nat;
            assert forall|j: nat| j < d implies !reach(definition, r, c, j) by {
                if reach(definition, r, c, j) {
                    lemma_search_reaches_all(definition, field, unreached, total, level, r, c, j);
                }
            }
            shortest_walk_is_distance(definition, r, c, d);
        } else {
            assert forall|k: nat| !reach(definition, r, c, k) by {
                if reach(definition, r, c, k) {
                    lemma_search_reaches_all(definition, field, unreached, total, level, r, c, k);
                }
            }
        }
    }
}

/// What holds while the goals are put into the queue: the first `seeded`
/// goals of `sources` have distance `0` and wait in the queue, and no other
/// cell is reached yet.
spec fn seed_inv(
    definition: &MAPFDefinition,
    field: Seq<Seq<i64>>,
    queue: Seq<(usize, usize, i64)>,
    unreached: Set<(int, int)>,
    total: int,
    sources: Seq<(int, int)>,
    seeded: int,
) -> bool {
    let h = definition.shape.0 as int;
    let w = definition.shape.1 as int;
    &&& shaped(field, h, w)
    &&& unreached.finite()
    &&& unreached.len() <= total <= i64::MAX
    &&& 0 <= seeded <= sources.len()
    &&& forall|r: int, c: int| 0 <= r < h && 0 <= c < w ==> #[trigger] field[r][c] == -1 || field[r][c] == 0
    &&& forall|r: int, c: int| 0 <= r < h && 0 <= c < w && #[trigger] field[r][c] == -1 ==> unreached.contains((r, c))
    &&& forall|r: int, c: int|
        0 <= r < h && 0 <= c < w && #[trigger] field[r][c] == 0 ==> {
            &&& 1 + unreached.len() <= total
            &&& cell(definition.goals@, r, c) != 0
            &&& queued(queue, r, c)
        }
    &&& forall|k: int|
        0 <= k < seeded ==> 0 <= (#[trigger] sources[k]).0 < h && 0 <= sources[k].1 < w && field[sources[k].0][sources[k].1]
            == 0
    &&& forall|i: int|
        0 <= i < queue.len() ==> {
            &&& (#[trigger] queue[i]).0 < h
            &&& queue[i].1 < w
            &&& field[queue[i].0 as int][queue[i].1 as int] == 0
            &&& queue[i].2 == 0
        }
}

proof fn lemma_seed(
    definition: &MAPFDefinition,
    field: Seq<Seq<i64>>,
    queue: Seq<(usize, usize, i64)>,
    unreached: Set<(int, int)>,
    total: int,
    sources: Seq<(int, int)>,
    seeded: int,
    field2: Seq<Seq<i64>>,
    queue2: Seq<(usize, usize, i64)>,
    unreached2: Set<(int, int)>,
)
    requires
        seed_inv(definition, field, queue, unreached, total, sources, seeded),
        seeded < sources.len(),
        0 <= sources[seeded].0 < definition.shape.0,
        0 <= sources[seeded].1 < definition.shape.1,
        cell(definition.goals@, sources[seeded].0, sources[seeded].1) != 0,
        field2 == field.update(sources[seeded].0, field[sources[seeded].0].update(sources[seeded].1, 0i64)),
        queue2 == queue.push((sources[seeded].0 as usize, sources[seeded].1 as usize, 0i64)),
        unreached2 == unreached.remove(sources[seeded]),
    ensures
        seed_inv(definition, field2, queue2, unreached2, total, sources, seeded + 1),
{
    let h = definition.shape.0 as int;
    let w = definition.shape.1 as int;
    let n = sources[seeded];
    assert forall|r2: int, c2: int| 0 <= r2 < h && 0 <= c2 < w implies #[trigger] field2[r2][c2] == if r2 == n.0
        && c2 == n.1 {
        0i64
    } else {
        field[r2][c2]
    } by {}
    assert(shaped(field2, h, w)) by {
        assert forall|r2: int| 0 <= r2 < h implies (#[trigger] field2[r2]).len() == w by {
            assert(field[r2].len() == w);
        }
    }
    assert(1 + unreached2.len() <= total) by {
        if field[n.0][n.1] == -1 {
            assert(unreached.contains(n));
        } else {
            assert(field[n.0][n.1] == 0);
        }
    }
    assert(queue2[queue.len() as int] == (n.0 as usize, n.1 as usize, 0i64));
    assert forall|r2: int, c2: int| 0 <= r2 < h && 0 <= c2 < w && #[trigger] field2[r2][c2] == 0 implies queued(
        queue2,
        r2,
        c2,
    ) by {
        if r2 == n.0 && c2 == n.1 {
        } else {
            assert(field[r2][c2] == 0);
            let i = choose|i: int| 0 <= i < queue.len() && (#[trigger] queue[i]).0 == r2 && queue[i].1 == c2;
            assert(queue2[i] == queue[i]);
        }
    }
    assert forall|i: int| 0 <= i < queue2.len() implies {
        &&& (#[trigger] queue2[i]).0 < h
        &&& queue2[i].1 < w
        &&& field2[queue2[i].0 as int][queue2[i].1 as int] == 0
        &&& queue2[i].2 == 0
    } by {
        if i < queue.len() {
            assert(queue2[i] == queue[i]);
        }
    }
    assert forall|k: int| 0 <= k < seeded + 1 implies 0 <= (#[trigger] sources[k]).0 < h && 0 <= sources[k].1 < w
        && field2[sources[k].0][sources[k].1] == 0 by {
        if k < seeded {
            assert(field[sources[k].0][sources[k].1] == 0);
        }
    }
}

proof fn lemma_seeded(
    definition: &MAPFDefinition,
    field: Seq<Seq<i64>>,
    queue: Seq<(usize, usize, i64)>,
    unreached: Set<(int, int)>,
    total: int,
    sources: Seq<(int, int)>,
)
    requires
        definition.wf(),
        seed_inv(definition, field, queue, unreached, total, sources, sources.len() as int),
        lists_nonzero_cells(definition.goals@, sources),
    ensures
        search_inv(definition, field, queue, unreached, total, 0, None),
{
    let h = definition.shape.0 as int;
    let w = definition.shape.1 as int;
    assert forall|r: int, c: int| #[trigger] cell(definition.goals@, r, c) != 0 implies 0 <= r < h && 0 <= c < w
        && field[r][c] == 0 by {
        let k = choose|k: int| 0 <= k < sources.len() && #[trigger] sources[k] == (r, c);
        assert(sources[k].0 == r && sources[k].1 == c);
    }
    assert forall|r: int, c: int| 0 <= r < h && 0 <= c < w && #[trigger] field[r][c] >= 0 implies {
        &&& field[r][c] + 1 + unreached.len() <= total
        &&& field[r][c] <= 0 + 1
        &&& reach(definition, r, c, field[r][c] as nat)
        &&& (queued(queue, r, c) || in_hand(None, r, c) || settled(definition, field, r, c))
    } by {
        assert(field[r][c] == 0);
    }
}

/// The distance of every cell of the map from the nearest goal, found by a
/// breadth-first search that starts at all goals at once.
pub fn survey(definition: &MAPFDefinition) -> (distances: Vec<Vec<i64>>)
    requires
        definition.wf(),
        definition.surveyable(),
    ensures
        is_distance_field(definition, cells_of(distances@)),
{
    let height = definition.shape.0;
    let width = definition.shape.1;
    let ghost total = height * width;
    let mut distances: Vec<Vec<i64>> = Vec::new();
    let ghost mut unreached: Set<(int, int)> = Set::empty();
    let mut r: usize = 0;
    assert(0 * width == 0) by (nonlinear_arith);
    while r < height
        invariant
            r <= height,
            distances@.len() == r,
            forall|r2: int| 0 <= r2 < r ==> (#[trigger] distances@[r2])@.len() == width,
            forall|r2: int, c2: int| 0 <= r2 < r && 0 <= c2 < width ==> #[trigger] distances@[r2]@[c2] == -1,
            unreached.finite(),
            unreached.len() <= r * width,
            forall|r2: int, c2: int| 0 <= r2 < r && 0 <= c2 < width ==> unreached.contains((r2, c2)),
        decreases height - r,
    {
        let mut row: Vec<i64> = Vec::new();
        let mut c: usize = 0;
        while c < width
            invariant
                c <= width,
                r < height,
                row@.len() == c,
                forall|c2: int| 0 <= c2 < c ==> #[trigger] row@[c2] == -1,
                unreached.finite(),
                unreached.len() <= r * width + c,
                forall|r2: int, c2: int| 0 <= r2 < r && 0 <= c2 < width ==> unreached.contains((r2, c2)),
                forall|c2: int| 0 <= c2 < c ==> unreached.contains((r as int, c2)),
            decreases width - c,
        {
            row.push(-1);
            proof {
                unreached = unreached.insert((r as int, c as int));
            }
            c = c + 1;
        }
        distances.push(row);
        assert((r + 1) * width == r * width + width) by (nonlinear_arith);
        r = r + 1;
    }
    let mut queue: VecDeque<(usize, usize, i64)> = VecDeque::new();
    let sources = definition.goals.get_nnz_list();
    let ghost coords = sources@.map_values(|p: (u64, u64)| (p.0 as int, p.1 as int));
    let count = sources.len();
    proof {
        assert(shaped(cells_of(distances@), height as int, width as int));
        assert forall|r2: int, c2: int| 0 <= r2 < height && 0 <= c2 < width implies #[trigger] cells_of(
            distances@,
        )[r2][c2] == -1 by {
            assert(distances@[r2]@[c2] == -1);
        }
    }
    let mut k: usize = 0;
    while k < count
        invariant
            k <= count,
            count == sources@.len(),
            definition.wf(),
            height == definition.shape.0,
            width == definition.shape.1,
            coords == sources@.map_values(|p: (u64, u64)| (p.0 as int, p.1 as int)),
            lists_nonzero_cells(definition.goals@, coords),
            seed_inv(definition, cells_of(distances@), queue@, unreached, total, coords, k as int),
        decreases count - k,
    {
        let (i_a0, i_a1) = sources[k];
        proof {
            assert(coords[k as int] == (i_a0 as int, i_a1 as int));
            assert(cell(definition.goals@, coords[k as int].0, coords[k as int].1) != 0);
            assert(definition.goals@[i_a0 as int] is Some);
        }
        let a0 = i_a0 as usize;
        let a1 = i_a1 as usize;
        let ghost before = cells_of(distances@);
        let ghost waiting = queue@;
        let ghost left = unreached;
        proof {
            assert(definition.goals@[i_a0 as int].unwrap().len() == width);
            assert(a0 < height && a1 < width);
            assert(before[a0 as int] == distances@[a0 as int]@);
            assert(before[a0 as int].len() == width);
        }
        distances[a0][a1] = 0;
        queue.push_back((a0, a1, 0));
        proof {
            unreached = unreached.remove((a0 as int, a1 as int));
            assert(cells_of(distances@) =~= before.update(a0 as int, before[a0 as int].update(a1 as int, 0i64)));
            lemma_seed(
                definition,
                before,
                waiting,
                left,
                total,
                coords,
                k as int,
                cells_of(distances@),
                queue@,
                unreached,
            );
        }
        k = k + 1;
    }
    let ghost mut level: int = 0;
    proof {
        lemma_seeded(definition, cells_of(distances@), queue@, unreached, total, coords);
    }
    while queue.len() > 0
        invariant
            definition.wf(),
            height == definition.shape.0,
            width == definition.shape.1,
            search_inv(definition, cells_of(distances@), queue@, unreached, total, level, None),
        decreases 2 * unreached.len() + queue@.len(),
    {
        let ghost waiting = queue@;
        let ghost measure = 2 * unreached.len() + queue@.len();
        let (i_a0, i_a1, distance) = queue.pop_front().unwrap();
        proof {
            lemma_take_front(definition, cells_of(distances@), waiting, unreached, total, level);
            level = distance as int;
            assert(queue@ =~= waiting.drop_first());
        }
        let mut dir: u8 = 0;
        while dir < 4
            invariant
                dir <= 4,
                definition.wf(),
                height == definition.shape.0,
                width == definition.shape.1,
                distance == level,
                search_inv(
                    definition,
                    cells_of(distances@),
                    queue@,
                    unreached,
                    total,
                    level,
                    Some((i_a0 as int, i_a1 as int, dir as int)),
                ),
                2 * unreached.len() + queue@.len() < measure,
            decreases 4 - dir,
        {
            let ghost before = cells_of(distances@);
            let ghost lined = queue@;
            let ghost left = unreached;
            match neighbor_in(i_a0, i_a1, dir, definition.shape) {
                Some((na0, na1)) => {
                    let blocked = definition.obstacles.get(na0, na1).unwrap_or(0) != 0;
                    if blocked {
                        proof {
                            lemma_pass_by(
                                definition,
                                before,
                                lined,
                                left,
                                total,
                                level,
                                i_a0 as int,
                                i_a1 as int,
                                dir as int,
                            );
                        }
                    } else {
                        assert(before[na0 as int] == distances@[na0 as int]@);
                        assert(before[na0 as int].len() == width);
                        if distances[na0][na1] == -1 {
                            proof {
                                assert(before[i_a0 as int][i_a1 as int] == level);
                                assert(level + 1 + left.len() <= total);
                            }
                            distances[na0][na1] = distance + 1;
                            queue.push_back((na0, na1, distance + 1));
                            proof {
                                unreached = unreached.remove((na0 as int, na1 as int));
                                assert(cells_of(distances@) =~= before.update(
                                    na0 as int,
                                    before[na0 as int].update(na1 as int, (level + 1) as i64),
                                ));
                                lemma_reach_next(
                                    definition,
                                    before,
                                    lined,
                                    left,
                                    total,
                                    level,
                                    i_a0 as int,
                                    i_a1 as int,
                                    dir as int,
                                    cells_of(distances@),
                                    queue@,
                                    unreached,
                                );
                            }
                        } else {
                            proof {
                                assert(before[na0 as int][na1 as int] >= -1);
                                lemma_pass_by(
                                    definition,
                                    before,
                                    lined,
                                    left,
                                    total,
                                    level,
                                    i_a0 as int,
                                    i_a1 as int,
                                    dir as int,
                                );
                            }
                        }
                    }
                },
                None => {
                    proof {
                        lemma_pass_by(
                            definition,
                            before,
                            lined,
                            left,
                            total,
                            level,
                            i_a0 as int,
                            i_a1 as int,
                            dir as int,
                        );
                    }
                },
            }
            dir = dir + 1;
        }
        proof {
            lemma_put_down(
                definition,
                cells_of(distances@),
                queue@,
                unreached,
                total,
                level,
                i_a0 as int,
                i_a1 as int,
            );
        }
    }
    proof {
        assert(queue@ =~= Seq::empty());
        lemma_search_done(definition, cells_of(distances@), unreached, total, level);
    }
    distances
}

} // verus!
