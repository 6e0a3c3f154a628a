//! Bombs, and the blast of an exploding bomb: four rays cast from its cell
//! that walls stop, rocks stop unless the bomb penetrates, and redirections
//! turn.
use vstd::prelude::*;
use vstd::string::*;
use crate::can_be_hit::CanBeHit;
use crate::direction::{Direction, all_directions};
use crate::errors::{BombermanError, ErrorView};
use crate::maze_display::MazeDisplay;
use crate::obstacle::{Obstacle, ObstacleType, can_pass, is_redirection_kind, redirect};
use crate::point::{Point, point_text, step};
use crate::text::{chars_of, decimal, parse_u32, parse_u32_range, push_decimal};
use vstd::relations::injective_on;
use vstd::set_lib::{lemma_int_range, lemma_len_subset, lemma_len_union, lemma_map_size, set_int_range};

verus! {

/// How a bomb's blast treats rocks: a normal blast stops at them, a
/// penetrating one goes through.
#[derive(Clone, Copy, Debug, PartialEq, Eq, Structural)]
pub enum BombType {
    Normal,
    Penetrating,
}

/// A bomb's life: waiting, set off and due to explode, or spent.
#[derive(Clone, Copy, Debug, PartialEq, Eq, Structural)]
pub enum BombState {
    Idle,
    Activated,
    Exploded,
}

/// A bomb, its kind, its state, its cell and how many cells its blast reaches.
#[derive(Clone, Copy, Debug, PartialEq, Eq, Structural)]
pub struct Bomb {
    pub bomb_type: BombType,
    pub bomb_state: BombState,
    pub position: Point,
    pub explosion_distance: u32,
}

/// The kind of bomb that the first character of a token names.
pub open spec fn bomb_kind(s: Seq<char>) -> Option<BombType> {
    if s.len() > 0 && s[0] == 'B' {
        Some(BombType::Normal)
    } else if s.len() > 0 && s[0] == 'S' {
        Some(BombType::Penetrating)
    } else {
        None
    }
}

/// What reading `square` at `position` as a bomb gives: `B` or `S`, then a
/// reach greater than zero.
pub open spec fn bomb_from(square: Seq<char>, position: Point) -> Result<Bomb, ErrorView> {
    match bomb_kind(square) {
        None => Err(
            ErrorView::InvalidSquare(
                "invalid bomb "@ + square + " at "@ + point_text(position)
                    + ". It should start with B or S"@,
            ),
        ),
        Some(t) => match parse_u32(square.drop_first()) {
            Some(d) if d > 0 => Ok(
                Bomb {
                    bomb_type: t,
                    bomb_state: BombState::Idle,
                    position,
                    explosion_distance: d,
                },
            ),
            _ => Err(
                ErrorView::InvalidSquare(
                    "invalid bomb distance "@ + square + " at "@ + point_text(position)
                        + " it should be positive number greater than 0"@,
                ),
            ),
        },
    }
}

/// The bomb after a hit: an idle bomb is set off, any other is unchanged.
pub open spec fn hit_bomb(b: Bomb) -> Bomb {
    if b.bomb_state is Idle {
        Bomb { bomb_state: BombState::Activated, ..b }
    } else {
        b
    }
}

/// The token of a bomb: `_` once exploded, else its kind's letter and its reach.
pub open spec fn bomb_token(b: Bomb) -> Seq<char> {
    if b.bomb_state is Exploded {
        seq!['_']
    } else {
        (if b.bomb_type is Normal {
            seq!['B']
        } else {
            seq!['S']
        }) + decimal(b.explosion_distance as nat)
    }
}

/// The first obstacle of `obstacles` that stands on `p`.
pub open spec fn obstacle_at(obstacles: Seq<Obstacle>, p: Point) -> Option<Obstacle>
    decreases obstacles.len(),
{
    if obstacles.len() == 0 {
        None
    } else if obstacles[0].position == p {
        Some(obstacles[0])
    } else {
        obstacle_at(obstacles.drop_first(), p)
    }
}

/// The cells that a ray leaving `p` in direction `d` reaches within `steps`
/// steps, in a `size` by `size` maze, for a bomb of kind `kind`. A ray stops
/// at the edge and before an obstacle it cannot pass; an obstacle it passes is
/// reached, and the ray leaves it in the obstacle's direction.
pub open spec fn ray(
    p: Point,
    d: Direction,
    steps: nat,
    size: u32,
    obstacles: Seq<Obstacle>,
    kind: BombType,
) -> Set<Point>
    decreases steps,
{
    if steps == 0 {
        Set::empty()
    } else {
        match step(p, d, size) {
            None => Set::empty(),
            Some(q) => match obstacle_at(obstacles, q) {
                None => ray(q, d, (steps - 1) as nat, size, obstacles, kind).insert(q),
                Some(o) => if can_pass(o.obstacle_type, kind) {
                    ray(
                        q,
                        redirect(o.obstacle_type, d),
                        (steps - 1) as nat,
                        size,
                        obstacles,
                        kind,
                    ).insert(q)
                } else {
                    Set::empty()
                },
            },
        }
    }
}

/// The cells that the blast of `b` reaches: its own cell and its four rays.
pub open spec fn blast(b: Bomb, size: u32, obstacles: Seq<Obstacle>) -> Set<Point> {
    let d = b.explosion_distance as nat;
    let p = b.position;
    let k = b.bomb_type;
    set![p].union(ray(p, Direction::Up, d, size, obstacles, k)).union(
        ray(p, Direction::Down, d, size, obstacles, k),
    ).union(ray(p, Direction::Left, d, size, obstacles, k)).union(
        ray(p, Direction::Right, d, size, obstacles, k),
    )
}

/// The bomb's cell and the rays cast in the first `n` of the four directions.
spec fn rays_cast(b: Bomb, size: u32, obstacles: Seq<Obstacle>, n: nat) -> Set<Point>
    decreases n,
{
    if n == 0 {
        set![b.position]
    } else {
        rays_cast(b, size, obstacles, (n - 1) as nat).union(
            ray(
                b.position,
                all_directions()[n - 1],
                b.explosion_distance as nat,
                size,
                obstacles,
                b.bomb_type,
            ),
        )
    }
}

/// The cell reached from `p` by `n` steps in direction `d`, if the walk stays
/// inside a `size` by `size` maze.
pub open spec fn advance(p: Point, d: Direction, n: nat, size: u32) -> Option<Point>
    decreases n,
{
    if n == 0 {
        Some(p)
    } else {
        match advance(p, d, (n - 1) as nat, size) {
            Some(q) => step(q, d, size),
            None => None,
        }
    }
}

/// Walking `n + 1` steps is one step, then `n` more from there.
proof fn lemma_advance_first(p: Point, d: Direction, n: nat, size: u32)
    ensures
        advance(p, d, n + 1, size) == match step(p, d, size) {
            Some(q) => advance(q, d, n, size),
            None => None,
        },
    decreases n,
{
    reveal_with_fuel(advance, 2);
    if n > 0 {
        lemma_advance_first(p, d, (n - 1) as nat, size);
        match step(p, d, size) {
            Some(q) => {
                assert(advance(q, d, n, size) == match advance(q, d, (n - 1) as nat, size) {
                    Some(r) => step(r, d, size),
                    None => None,
                });
            },
            None => {},
        }
    }
}

/// A ray ends before the first obstacle on its line that the blast cannot
/// pass: a wall for every bomb, a rock for a normal bomb. When the cells
/// between the ray's start and such an obstacle `j` cells away hold no
/// obstacle, every cell the ray reaches lies strictly between the two.
pub proof fn lemma_ray_stops_at_blocker(
    p: Point,
    d: Direction,
    steps: nat,
    size: u32,
    obstacles: Seq<Obstacle>,
    kind: BombType,
    j: nat,
)
    requires
        j >= 1,
        advance(p, d, j, size) matches Some(w) && obstacle_at(obstacles, w) matches Some(o)
            && !can_pass(o.obstacle_type, kind),
        forall|i: nat|
            1 <= i < j ==> (#[trigger] advance(p, d, i, size) matches Some(q) && obstacle_at(
                obstacles,
                q,
            ) is None),
    ensures
        forall|q: Point| #[trigger]
            ray(p, d, steps, size, obstacles, kind).contains(q) ==> exists|i: nat|
                1 <= i < j && #[trigger] advance(p, d, i, size) == Some(q),
    decreases j,
{
    lemma_advance_first(p, d, 0, size);
    if steps > 0 {
        if let Some(q1) = step(p, d, size) {
            if j > 1 {
                assert(advance(p, d, 1, size) matches Some(q) && obstacle_at(obstacles, q) is None);
                assert forall|i: nat| 1 <= i < (j - 1) as nat implies (#[trigger] advance(q1, d, i, size) matches Some(q)
                    && obstacle_at(obstacles, q) is None) by {
                    lemma_advance_first(p, d, i, size);
                    assert(advance(p, d, i + 1, size) matches Some(q) && obstacle_at(obstacles, q) is None);
                }
                lemma_advance_first(p, d, (j - 1) as nat, size);
                lemma_ray_stops_at_blocker(q1, d, (steps - 1) as nat, size, obstacles, kind, (j - 1) as nat);
                assert forall|q: Point| #[trigger]
                    ray(p, d, steps, size, obstacles, kind).contains(q) implies exists|i: nat|
                        1 <= i < j && #[trigger] advance(p, d, i, size) == Some(q) by {
                    if q == q1 {
                        assert(advance(p, d, 1, size) == Some(q));
                    } else {
                        assert(ray(q1, d, (steps - 1) as nat, size, obstacles, kind).contains(q));
                        let i = choose|i: nat| 1 <= i < (j - 1) as nat && #[trigger] advance(q1, d, i, size) == Some(q);
                        lemma_advance_first(p, d, i, size);
                        assert(advance(p, d, i + 1, size) == Some(q));
                    }
                }
            } else {
                assert(ray(p, d, steps, size, obstacles, kind) =~= Set::empty());
            }
        }
    }
}

/// A penetrating blast goes through a rock: the rock's cell is reached, and
/// the ray goes on past it in the same direction.
pub proof fn lemma_penetrating_ray_passes_rock(
    p: Point,
    d: Direction,
    steps: nat,
    size: u32,
    obstacles: Seq<Obstacle>,
)
    requires
        steps >= 1,
        step(p, d, size) matches Some(q) && obstacle_at(obstacles, q) matches Some(o)
            && o.obstacle_type == ObstacleType::Rock,
    ensures
        step(p, d, size) matches Some(q) && ray(p, d, steps, size, obstacles, BombType::Penetrating)
            == ray(q, d, (steps - 1) as nat, size, obstacles, BombType::Penetrating).insert(q),
{
}

/// A redirection turns the ray for good: the redirection's cell is reached,
/// using one step of the reach, and the rest of the ray leaves it in the
/// redirection's direction, whatever direction it came in.
pub proof fn lemma_redirection_turns_ray(
    p: Point,
    d: Direction,
    steps: nat,
    size: u32,
    obstacles: Seq<Obstacle>,
    kind: BombType,
)
    requires
        steps >= 1,
        step(p, d, size) matches Some(q) && obstacle_at(obstacles, q) matches Some(o)
            && is_redirection_kind(o.obstacle_type),
    ensures
        step(p, d, size) matches Some(q) && obstacle_at(obstacles, q) matches Some(o) && ray(
            p,
            d,
            steps,
            size,
            obstacles,
            kind,
        ) == ray(q, redirect(o.obstacle_type, d), (steps - 1) as nat, size, obstacles, kind).insert(
            q,
        ) && redirect(o.obstacle_type, d) == redirect(o.obstacle_type, Direction::Up),
{
}

/// The cells 1 to `k` along the line from `p` in direction `d` all lie in
/// the maze, and none holds an obstacle that a blast of `kind` cannot pass.
pub open spec fn line_open(
    p: Point,
    d: Direction,
    k: nat,
    size: u32,
    obstacles: Seq<Obstacle>,
    kind: BombType,
) -> bool {
    forall|j: nat|
        1 <= j <= k ==> (#[trigger] advance(p, d, j, size) matches Some(c) && (obstacle_at(
            obstacles,
            c,
        ) matches Some(o) ==> can_pass(o.obstacle_type, kind)))
}

/// The cells `k` steps from `p` in direction `d`, for `k` from 1 to
/// `steps`, as far as the line stays open.
pub open spec fn straight_ray(
    p: Point,
    d: Direction,
    steps: nat,
    size: u32,
    obstacles: Seq<Obstacle>,
    kind: BombType,
) -> Set<Point> {
    Set::new(
        |c: Point|
            exists|k: nat|
                1 <= k <= steps && line_open(p, d, k, size, obstacles, kind) && #[trigger] advance(
                    p,
                    d,
                    k,
                    size,
                ) == Some(c),
    )
}

proof fn lemma_obstacle_at_member(obstacles: Seq<Obstacle>, p: Point)
    ensures
        obstacle_at(obstacles, p) matches Some(o) ==> obstacles.contains(o),
    decreases obstacles.len(),
{
    if obstacles.len() > 0 && obstacles[0].position != p {
        lemma_obstacle_at_member(obstacles.drop_first(), p);
        if let Some(o) = obstacle_at(obstacles.drop_first(), p) {
            let i = choose|i: int| 0 <= i < obstacles.len() - 1 && obstacles.drop_first()[i] == o;
            assert(obstacles[i + 1] == o);
        }
    } else if obstacles.len() > 0 {
        assert(obstacles[0] == obstacles[0]);
    }
}

/// No redirection stands on the cells 1 to `steps` along the line from `p`
/// in direction `d`.
pub open spec fn no_turn_on_line(
    p: Point,
    d: Direction,
    steps: nat,
    size: u32,
    obstacles: Seq<Obstacle>,
) -> bool {
    forall|j: nat|
        1 <= j <= steps ==> (#[trigger] advance(p, d, j, size) matches Some(c) ==> (obstacle_at(
            obstacles,
            c,
        ) matches Some(o) ==> !is_redirection_kind(o.obstacle_type)))
}

/// Without redirections on its line a ray runs straight: it reaches the cells `k` steps
/// away, for `k` up to its reach, as long as the line is open up to them.
/// So a normal blast reaches no cell at or beyond a wall or a rock, and a
/// penetrating blast goes through rocks but reaches no cell at or beyond a
/// wall.
pub proof fn lemma_ray_without_redirections(
    p: Point,
    d: Direction,
    steps: nat,
    size: u32,
    obstacles: Seq<Obstacle>,
    kind: BombType,
)
    requires
        no_turn_on_line(p, d, steps, size, obstacles),
    ensures
        ray(p, d, steps, size, obstacles, kind) == straight_ray(p, d, steps, size, obstacles, kind),
    decreases steps,
{
    let r = ray(p, d, steps, size, obstacles, kind);
    let st = straight_ray(p, d, steps, size, obstacles, kind);
    lemma_advance_first(p, d, 0, size);
    if steps == 0 {
        assert(r =~= st);
    } else {
        match step(p, d, size) {
            None => {
                assert forall|c: Point| !st.contains(c) by {
                    if st.contains(c) {
                        let k = choose|k: nat| 1 <= k <= steps && line_open(p, d, k, size, obstacles, kind)
                            && #[trigger] advance(p, d, k, size) == Some(c);
                        assert(advance(p, d, 1, size) is Some);
                    }
                }
                assert(r =~= st);
            },
            Some(q) => {
                lemma_obstacle_at_member(obstacles, q);
                let open_q = match obstacle_at(obstacles, q) {
                    Some(o) => can_pass(o.obstacle_type, kind),
                    None => true,
                };
                if !open_q {
                    assert forall|c: Point| !st.contains(c) by {
                        if st.contains(c) {
                            let k = choose|k: nat| 1 <= k <= steps && line_open(p, d, k, size, obstacles, kind)
                                && #[trigger] advance(p, d, k, size) == Some(c);
                            assert(advance(p, d, 1, size) matches Some(c) && (obstacle_at(obstacles, c) matches Some(o) ==> can_pass(o.obstacle_type, kind)));
                        }
                    }
                    assert(r =~= st);
                } else {
                    assert(advance(p, d, 1, size) == Some(q));
                    if let Some(o) = obstacle_at(obstacles, q) {
                        assert(!is_redirection_kind(o.obstacle_type));
                        assert(redirect(o.obstacle_type, d) == d);
                    }
                    let rest = (steps - 1) as nat;
                    assert forall|j: nat| 1 <= j <= rest implies (#[trigger] advance(q, d, j, size) matches Some(c) ==> (obstacle_at(
                        obstacles,
                        c,
                    ) matches Some(o) ==> !is_redirection_kind(o.obstacle_type))) by {
                        lemma_advance_first(p, d, j, size);
                        assert(advance(p, d, j + 1, size) matches Some(c) ==> (obstacle_at(
                            obstacles,
                            c,
                        ) matches Some(o) ==> !is_redirection_kind(o.obstacle_type)));
                    }
                    lemma_ray_without_redirections(q, d, rest, size, obstacles, kind);
                    assert(r == ray(q, d, rest, size, obstacles, kind).insert(q));
                    let sq = straight_ray(q, d, rest, size, obstacles, kind);
                    assert forall|c: Point| st.contains(c) implies sq.insert(q).contains(c) by {
                        let k = choose|k: nat| 1 <= k <= steps && line_open(p, d, k, size, obstacles, kind)
                            && #[trigger] advance(p, d, k, size) == Some(c);
                        if k > 1 {
                            let k1 = (k - 1) as nat;
                            lemma_advance_first(p, d, k1, size);
                            assert forall|j: nat| 1 <= j <= k1 implies (#[trigger] advance(q, d, j, size) matches Some(c2)
                                && (obstacle_at(obstacles, c2) matches Some(o) ==> can_pass(o.obstacle_type, kind))) by {
                                lemma_advance_first(p, d, j, size);
                                assert(advance(p, d, j + 1, size) matches Some(c2) && (obstacle_at(obstacles, c2) matches Some(o) ==> can_pass(o.obstacle_type, kind)));
                            }
                            assert(advance(q, d, k1, size) == Some(c));
                        }
                    }
                    assert forall|c: Point| sq.insert(q).contains(c) implies st.contains(c) by {
                        if c == q {
                            assert(advance(p, d, 1, size) == Some(q));
                            assert forall|j: nat| 1 <= j <= 1 implies (#[trigger] advance(p, d, j, size) matches Some(c2)
                                && (obstacle_at(obstacles, c2) matches Some(o) ==> can_pass(o.obstacle_type, kind))) by {}
                            assert(line_open(p, d, 1, size, obstacles, kind));
                        } else {
                            let k1 = choose|k1: nat| 1 <= k1 <= rest && line_open(q, d, k1, size, obstacles, kind)
                                && #[trigger] advance(q, d, k1, size) == Some(c);
                            lemma_advance_first(p, d, k1, size);
                            assert forall|j: nat| 1 <= j <= k1 + 1 implies (#[trigger] advance(p, d, j, size) matches Some(c2)
                                && (obstacle_at(obstacles, c2) matches Some(o) ==> can_pass(o.obstacle_type, kind))) by {
                                if j > 1 {
                                    lemma_advance_first(p, d, (j - 1) as nat, size);
                                    assert(advance(q, d, (j - 1) as nat, size) matches Some(c2) && (obstacle_at(obstacles, c2) matches Some(o) ==> can_pass(o.obstacle_type, kind)));
                                }
                            }
                            assert(line_open(p, d, k1 + 1, size, obstacles, kind));
                            assert(advance(p, d, k1 + 1, size) == Some(c));
                        }
                    }
                    assert(r =~= st);
                }
            },
        }
    }
}

/// The cells 1 to `k - 1` steps from `p` in direction `d`.
pub open spec fn segment(p: Point, d: Direction, k: nat, size: u32) -> Set<Point> {
    Set::new(|c: Point| exists|j: nat| 1 <= j < k && #[trigger] advance(p, d, j, size) == Some(c))
}

/// A ray that meets a redirection `k` steps away, with no obstacle before
/// it, reaches the cells before the redirection and the redirection's cell,
/// and then goes on from there in the redirection's direction for the
/// `steps - k` steps it has left: the turn holds for the rest of the ray,
/// and the redirection's cell uses one step.
pub proof fn lemma_ray_after_redirection(
    p: Point,
    d: Direction,
    steps: nat,
    size: u32,
    obstacles: Seq<Obstacle>,
    kind: BombType,
    k: nat,
)
    requires
        1 <= k <= steps,
        advance(p, d, k, size) matches Some(q) && obstacle_at(obstacles, q) matches Some(o)
            && is_redirection_kind(o.obstacle_type),
        forall|j: nat|
            1 <= j < k ==> (#[trigger] advance(p, d, j, size) matches Some(c) && obstacle_at(
                obstacles,
                c,
            ) is None),
    ensures
        advance(p, d, k, size) matches Some(q) && obstacle_at(obstacles, q) matches Some(o) && ray(
            p,
            d,
            steps,
            size,
            obstacles,
            kind,
        ) == segment(p, d, k, size).union(
            ray(q, redirect(o.obstacle_type, d), (steps - k) as nat, size, obstacles, kind).insert(
                q,
            ),
        ),
    decreases k,
{
    lemma_advance_first(p, d, 0, size);
    let q = advance(p, d, k, size)->Some_0;
    let o = obstacle_at(obstacles, q)->Some_0;
    let tail = ray(q, redirect(o.obstacle_type, d), (steps - k) as nat, size, obstacles, kind).insert(q);
    if k == 1 {
        assert(segment(p, d, 1, size) =~= Set::empty());
        assert(segment(p, d, k, size).union(tail) =~= tail);
    } else {
        assert(advance(p, d, 1, size) matches Some(c) && obstacle_at(obstacles, c) is None);
        let c1 = step(p, d, size)->Some_0;
        let k1 = (k - 1) as nat;
        lemma_advance_first(p, d, k1, size);
        assert forall|j: nat| 1 <= j < k1 implies (#[trigger] advance(c1, d, j, size) matches Some(c)
            && obstacle_at(obstacles, c) is None) by {
            lemma_advance_first(p, d, j, size);
            assert(advance(p, d, j + 1, size) matches Some(c) && obstacle_at(obstacles, c) is None);
        }
        lemma_ray_after_redirection(c1, d, (steps - 1) as nat, size, obstacles, kind, k1);
        assert(ray(p, d, steps, size, obstacles, kind) == ray(c1, d, (steps - 1) as nat, size, obstacles, kind).insert(c1));
        let s1 = segment(c1, d, k1, size);
        let s0 = segment(p, d, k, size);
        assert forall|c: Point| s0.contains(c) implies s1.insert(c1).contains(c) by {
            let j = choose|j: nat| 1 <= j < k && #[trigger] advance(p, d, j, size) == Some(c);
            if j > 1 {
                lemma_advance_first(p, d, (j - 1) as nat, size);
                assert(advance(c1, d, (j - 1) as nat, size) == Some(c));
            }
        }
        assert forall|c: Point| s1.insert(c1).contains(c) implies s0.contains(c) by {
            if c == c1 {
                assert(advance(p, d, 1, size) == Some(c1));
            } else {
                let j = choose|j: nat| 1 <= j < k1 && #[trigger] advance(c1, d, j, size) == Some(c);
                lemma_advance_first(p, d, j, size);
                assert(advance(p, d, j + 1, size) == Some(c));
            }
        }
        assert(s0 =~= s1.insert(c1));
        assert(ray(p, d, steps, size, obstacles, kind) =~= s0.union(tail));
    }
}

/// Where `j` steps from `p` in direction `d` lead, as integer coordinates.
pub open spec fn shifted(p: Point, d: Direction, j: int) -> (int, int) {
    match d {
        Direction::Up => (p.x as int, p.y - j),
        Direction::Down => (p.x as int, p.y + j),
        Direction::Left => (p.x - j, p.y as int),
        Direction::Right => (p.x + j, p.y as int),
    }
}

/// A walk of `j` steps moves `j` cells in its direction, and every shorter
/// walk stays in the maze too.
proof fn lemma_advance_shifted(p: Point, d: Direction, j: nat, size: u32)
    ensures
        advance(p, d, j, size) matches Some(c) ==> (c.x as int, c.y as int) == shifted(p, d, j as int)
            && forall|i: nat| i <= j ==> (#[trigger] advance(p, d, i, size)) is Some,
    decreases j,
{
    if j > 0 {
        lemma_advance_shifted(p, d, (j - 1) as nat, size);
        if advance(p, d, j, size) is Some {
            assert forall|i: nat| i <= j implies (#[trigger] advance(p, d, i, size)) is Some by {
                if i < j {
                    assert(advance(p, d, (j - 1) as nat, size) is Some);
                }
            }
        }
    }
}

/// A ray whose maze holds a single obstacle, a redirection `k` steps away on
/// its line, reaches the cells before it, the redirection's cell, and then
/// the cells 1 to `steps - k` steps from the redirection in its direction,
/// as far as the maze goes: the turn is kept to the end and the
/// redirection's cell uses one step.
pub proof fn lemma_single_redirection_ray(
    p: Point,
    d: Direction,
    steps: nat,
    size: u32,
    o: Obstacle,
    kind: BombType,
    k: nat,
)
    requires
        1 <= k <= steps,
        advance(p, d, k, size) == Some(o.position),
        is_redirection_kind(o.obstacle_type),
    ensures
        ray(p, d, steps, size, seq![o], kind) == segment(p, d, k, size).insert(o.position).union(
            segment(o.position, redirect(o.obstacle_type, d), (steps - k + 1) as nat, size),
        ),
{
    let q = o.position;
    let obs = seq![o];
    let d2 = redirect(o.obstacle_type, d);
    let rest = (steps - k) as nat;
    assert(obstacle_at(obs, q) == Some(o)) by {
        assert(obs[0] == o);
    }
    assert forall|c: Point| c != q implies #[trigger] obstacle_at(obs, c) is None by {
        assert(obs[0] == o);
        assert(obs.drop_first() =~= Seq::<Obstacle>::empty());
        assert(obstacle_at(obs.drop_first(), c) is None);
    }
    lemma_advance_shifted(p, d, k, size);
    assert forall|j: nat| 1 <= j < k implies (#[trigger] advance(p, d, j, size) matches Some(c)
        && obstacle_at(obs, c) is None) by {
        lemma_advance_shifted(p, d, j, size);
        let c = advance(p, d, j, size)->Some_0;
        assert(c != q);
    }
    lemma_ray_after_redirection(p, d, steps, size, obs, kind, k);
    assert forall|j: nat| 1 <= j <= rest implies (#[trigger] advance(q, d2, j, size) matches Some(c)
        ==> (obstacle_at(obs, c) matches Some(o2) ==> !is_redirection_kind(o2.obstacle_type))) by {
        lemma_advance_shifted(q, d2, j, size);
        if let Some(c) = advance(q, d2, j, size) {
            assert(c != q);
        }
    }
    lemma_ray_without_redirections(q, d2, rest, size, obs, kind);
    let st = straight_ray(q, d2, rest, size, obs, kind);
    let sg = segment(q, d2, rest + 1, size);
    assert forall|c: Point| st.contains(c) implies sg.contains(c) by {
        let j = choose|j: nat| 1 <= j <= rest && line_open(q, d2, j, size, obs, kind)
            && #[trigger] advance(q, d2, j, size) == Some(c);
        assert(advance(q, d2, j, size) == Some(c));
    }
    assert forall|c: Point| sg.contains(c) implies st.contains(c) by {
        let j = choose|j: nat| 1 <= j < rest + 1 && #[trigger] advance(q, d2, j, size) == Some(c);
        lemma_advance_shifted(q, d2, j, size);
        assert forall|i: nat| 1 <= i <= j implies (#[trigger] advance(q, d2, i, size) matches Some(c2)
            && (obstacle_at(obs, c2) matches Some(o2) ==> can_pass(o2.obstacle_type, kind))) by {
            lemma_advance_shifted(q, d2, i, size);
            let c2 = advance(q, d2, i, size)->Some_0;
            assert(c2 != q);
        }
        assert(line_open(q, d2, j, size, obs, kind));
    }
    assert(st =~= sg);
    let seg = segment(p, d, k, size);
    assert(seg.union(ray(q, d2, rest, size, obs, kind).insert(q)) =~= seg.insert(q).union(sg));
}

/// Without redirections the blast is the bomb's cell and the four straight
/// rays of its reach.
pub proof fn lemma_blast_without_redirections(b: Bomb, size: u32, obstacles: Seq<Obstacle>)
    requires
        forall|i: int| 0 <= i < obstacles.len() ==> !is_redirection_kind(#[trigger] obstacles[i].obstacle_type),
    ensures
        blast(b, size, obstacles) == set![b.position].union(
            straight_ray(b.position, Direction::Up, b.explosion_distance as nat, size, obstacles, b.bomb_type),
        ).union(
            straight_ray(b.position, Direction::Down, b.explosion_distance as nat, size, obstacles, b.bomb_type),
        ).union(
            straight_ray(b.position, Direction::Left, b.explosion_distance as nat, size, obstacles, b.bomb_type),
        ).union(
            straight_ray(b.position, Direction::Right, b.explosion_distance as nat, size, obstacles, b.bomb_type),
        ),
{
    let n = b.explosion_distance as nat;
    assert forall|c: Point| (#[trigger] obstacle_at(obstacles, c)) is Some implies !is_redirection_kind(obstacle_at(obstacles, c)->Some_0.obstacle_type) by {
        lemma_obstacle_at_member(obstacles, c);
        let o = obstacle_at(obstacles, c)->Some_0;
        let i = choose|i: int| 0 <= i < obstacles.len() && obstacles[i] == o;
        assert(!is_redirection_kind(obstacles[i].obstacle_type));
    }
    lemma_ray_without_redirections(b.position, Direction::Up, n, size, obstacles, b.bomb_type);
    lemma_ray_without_redirections(b.position, Direction::Down, n, size, obstacles, b.bomb_type);
    lemma_ray_without_redirections(b.position, Direction::Left, n, size, obstacles, b.bomb_type);
    lemma_ray_without_redirections(b.position, Direction::Right, n, size, obstacles, b.bomb_type);
}

/// A ray reaches a finite set of cells, no more than its steps, each inside
/// the maze when the ray starts inside it.
proof fn lemma_ray_bounds(
    p: Point,
    d: Direction,
    steps: nat,
    size: u32,
    obstacles: Seq<Obstacle>,
    kind: BombType,
)
    ensures
        ray(p, d, steps, size, obstacles, kind).finite(),
        ray(p, d, steps, size, obstacles, kind).len() <= steps,
        p.x < size && p.y < size ==> forall|c: Point| #[trigger]
            ray(p, d, steps, size, obstacles, kind).contains(c) ==> c.x < size && c.y < size,
    decreases steps,
{
    if steps > 0 {
        if let Some(q) = step(p, d, size) {
            lemma_ray_bounds(q, d, (steps - 1) as nat, size, obstacles, kind);
            if let Some(o) = obstacle_at(obstacles, q) {
                lemma_ray_bounds(
                    q,
                    redirect(o.obstacle_type, d),
                    (steps - 1) as nat,
                    size,
                    obstacles,
                    kind,
                );
            }
        }
    }
}

/// The blast reaches a finite set of cells: at most its own cell and one
/// cell per step of each of its four rays, and, from a cell inside the
/// maze, no more cells than the maze has.
pub proof fn lemma_blast_size(b: Bomb, size: u32, obstacles: Seq<Obstacle>)
    ensures
        blast(b, size, obstacles).finite(),
        blast(b, size, obstacles).len() <= 1 + 4 * b.explosion_distance,
        b.position.x < size && b.position.y < size ==> blast(b, size, obstacles).len() <= size
            * size,
{
    let n = b.explosion_distance as nat;
    let p = b.position;
    let k = b.bomb_type;
    let up = ray(p, Direction::Up, n, size, obstacles, k);
    let down = ray(p, Direction::Down, n, size, obstacles, k);
    let left = ray(p, Direction::Left, n, size, obstacles, k);
    let right = ray(p, Direction::Right, n, size, obstacles, k);
    lemma_ray_bounds(p, Direction::Up, n, size, obstacles, k);
    lemma_ray_bounds(p, Direction::Down, n, size, obstacles, k);
    lemma_ray_bounds(p, Direction::Left, n, size, obstacles, k);
    lemma_ray_bounds(p, Direction::Right, n, size, obstacles, k);
    let s0 = set![p];
    assert(s0.len() == 1);
    let s1 = s0.union(up);
    lemma_len_union(s0, up);
    let s2 = s1.union(down);
    lemma_len_union(s1, down);
    let s3 = s2.union(left);
    lemma_len_union(s2, left);
    let s4 = s3.union(right);
    lemma_len_union(s3, right);
    assert(s4 == blast(b, size, obstacles));
    if p.x < size && p.y < size {
        let w = size as int;
        let f = |c: Point| c.y as int * w + c.x as int;
        assert forall|c: Point| #[trigger] s4.contains(c) implies c.x < size && c.y < size by {}
        assert(injective_on(f, s4)) by {
            assert forall|a: Point, c: Point| s4.contains(a) && s4.contains(c) && #[trigger] f(a)
                == #[trigger] f(c) implies a == c by {
                let (ax, ay, cx, cy) = (a.x as int, a.y as int, c.x as int, c.y as int);
                assert(ax < w && cx < w && 0 <= ax && 0 <= cx && 0 <= ay && 0 <= cy);
                assert(ay * w + ax == cy * w + cx);
                assert(ay == cy && ax == cx) by (nonlinear_arith)
                    requires
                        ay * w + ax == cy * w + cx,
                        0 <= ax < w,
                        0 <= cx < w,
                        0 <= ay,
                        0 <= cy,
                ;
            }
        }
        let image = s4.map(f);
        lemma_map_size(s4, image, f);
        lemma_int_range(0, w * w);
        assert forall|i: int| #[trigger] image.contains(i) implies set_int_range(0, w * w).contains(i) by {
            let c = choose|c: Point| s4.contains(c) && f(c) == i;
            let (cx, cy) = (c.x as int, c.y as int);
            assert(0 <= cy * w + cx < w * w) by (nonlinear_arith)
                requires
                    0 <= cx < w,
                    0 <= cy < w,
            ;
        }
        lemma_len_subset(image, set_int_range(0, w * w));
    }
}

impl BombType {
    /// The kind of bomb that the first character of `bomb_type` names.
    pub fn new(bomb_type: &str) -> (r: Result<Self, String>)
        ensures
            match r {
                Ok(t) => bomb_kind(bomb_type@) == Some(t),
                Err(m) => bomb_kind(bomb_type@) is None && m@ == "Invalid bomb type"@,
            },
    {
        let c = chars_of(bomb_type);
        if c.len() > 0 && c[0] == 'B' {
            Ok(BombType::Normal)
        } else if c.len() > 0 && c[0] == 'S' {
            Ok(BombType::Penetrating)
        } else {
            Err(String::from_str("Invalid bomb type"))
        }
    }
}

/// The first obstacle of `obstacles` that stands on `p`.
fn find_obstacle(obstacles: &[Obstacle], p: Point) -> (r: Option<Obstacle>)
    ensures
        r == obstacle_at(obstacles@, p),
{
    let mut i: usize = 0;
    assert(obstacles@.subrange(0, obstacles@.len() as int) =~= obstacles@);
    while i < obstacles.len()
        invariant
            i <= obstacles@.len(),
            obstacle_at(obstacles@, p) == obstacle_at(obstacles@.subrange(i as int, obstacles@.len() as int), p),
        decreases obstacles@.len() - i,
    {
        let o = obstacles[i];
        assert(obstacles@.subrange(i as int, obstacles@.len() as int)[0] == o);
        if o.is_in_position(p) {
            return Some(o);
        }
        assert(obstacles@.subrange(i + 1, obstacles@.len() as int) =~= obstacles@.subrange(
            i as int,
            obstacles@.len() as int,
        ).drop_first());
        i = i + 1;
    }
    None
}

/// Adds `p` to `v` unless it is there already.
fn insert_point(v: &mut Vec<Point>, p: Point)
    ensures
        final(v)@.to_set() == old(v)@.to_set().insert(p),
        old(v)@.no_duplicates() ==> final(v)@.no_duplicates(),
{
    let mut i: usize = 0;
    while i < v.len()
        invariant
            i <= v@.len(),
            forall|j: int| 0 <= j < i ==> v@[j] != p,
        decreases v@.len() - i,
    {
        if v[i] == p {
            assert(v@.to_set().insert(p) =~= v@.to_set());
            return;
        }
        i = i + 1;
    }
    let ghost before = v@;
    v.push(p);
    assert(v@.to_set() =~= before.to_set().insert(p)) by {
        assert forall|x: Point| #[trigger] v@.to_set().contains(x) implies before.to_set().insert(p).contains(x) by {
            let j = choose|j: int| 0 <= j < v@.len() && v@[j] == x;
            if j < before.len() {
                assert(before[j] == x);
            }
        }
        assert forall|x: Point| #[trigger] before.to_set().insert(p).contains(x) implies v@.to_set().contains(x) by {
            if x == p {
                assert(v@[before.len() as int] == p);
            } else {
                let j = choose|j: int| 0 <= j < before.len() && before[j] == x;
                assert(v@[j] == x);
            }
        }
    }
}

impl Bomb {
    /// Reads the bomb that `square` describes, standing at `position`.
    pub fn new(square: String, position: Point) -> (r: Result<Bomb, BombermanError>)
        ensures
            match r {
                Ok(b) => bomb_from(square@, position) == Ok::<Bomb, ErrorView>(b),
                Err(e) => bomb_from(square@, position) == Err::<Bomb, ErrorView>(e@),
            },
    {
        let bomb_type = match BombType::new(square.as_str()) {
            Ok(bomb_type) => bomb_type,
            Err(_) => {
                let mut m = String::from_str("invalid bomb ");
                m.append(square.as_str());
                m.append(" at ");
                m.append(position.to_string().as_str());
                m.append(". It should start with B or S");
                return Err(BombermanError::InvalidSquare(m));
            },
        };
        let c = chars_of(square.as_str());
        assert(c@.subrange(1, c@.len() as int) =~= square@.drop_first());
        match parse_u32_range(&c, 1, c.len()) {
            Some(explosion_distance) if explosion_distance > 0 => Ok(
                Bomb { bomb_type, bomb_state: BombState::Idle, position, explosion_distance },
            ),
            _ => {
                let mut m = String::from_str("invalid bomb distance ");
                m.append(square.as_str());
                m.append(" at ");
                m.append(position.to_string().as_str());
                m.append(" it should be positive number greater than 0");
                Err(BombermanError::InvalidSquare(m))
            },
        }
    }

    /// Whether the bomb has been set off and is due to explode.
    pub fn is_active(&self) -> (r: bool)
        ensures
            r == (self.bomb_state is Activated),
    {
        self.bomb_state == BombState::Activated
    }

    /// Explodes the bomb in a `maze_size` by `maze_size` maze holding
    /// `obstacles`, and returns each cell that the blast reaches, once.
    pub fn explode(&mut self, maze_size: u32, obstacles: &[Obstacle]) -> (r: Vec<Point>)
        ensures
            *final(self) == (Bomb { bomb_state: BombState::Exploded, ..*old(self) }),
            r@.no_duplicates(),
            r@.to_set() == blast(*old(self), maze_size, obstacles@),
            r@.len() <= 1 + 4 * old(self).explosion_distance,
            old(self).position.x < maze_size && old(self).position.y < maze_size ==> r@.len()
                <= maze_size * maze_size,
    {
        let ghost start = *self;
        self.bomb_state = BombState::Exploded;
        let mut points: Vec<Point> = Vec::new();
        points.push(self.position);
        assert(points@.to_set() =~= set![self.position]) by {
            assert(points@[0] == self.position);
        }
        let dirs = Direction::iter();
        let mut k: usize = 0;
        while k < 4
            invariant
                k <= 4,
                dirs@ == all_directions(),
                *self == (Bomb { bomb_state: BombState::Exploded, ..start }),
                points@.no_duplicates(),
                points@.to_set() == rays_cast(start, maze_size, obstacles@, k as nat),
            decreases 4 - k,
        {
            let ghost before = points@.to_set();
            let ghost target = ray(
                start.position,
                dirs@[k as int],
                start.explosion_distance as nat,
                maze_size,
                obstacles@,
                start.bomb_type,
            );
            let mut move_dir = dirs[k];
            let mut p = self.position;
            let mut i: u32 = 0;
            while i < self.explosion_distance
                invariant
                    i <= self.explosion_distance,
                    *self == (Bomb { bomb_state: BombState::Exploded, ..start }),
                    points@.no_duplicates(),
                    points@.to_set().union(
                        ray(
                            p,
                            move_dir,
                            (self.explosion_distance - i) as nat,
                            maze_size,
                            obstacles@,
                            start.bomb_type,
                        ),
                    ) == before.union(target),
                ensures
                    *self == (Bomb { bomb_state: BombState::Exploded, ..start }),
                    points@.no_duplicates(),
                    points@.to_set() == before.union(target),
                decreases self.explosion_distance - i,
            {
                let ghost left = (self.explosion_distance - i) as nat;
                let q = match p.next_point(move_dir, maze_size) {
                    Ok(q) => q,
                    Err(_) => {
                        assert(ray(p, move_dir, left, maze_size, obstacles@, start.bomb_type)
                            =~= Set::empty());
                        assert(points@.to_set() =~= before.union(target));
                        break;
                    },
                };
                match find_obstacle(obstacles, q) {
                    Some(o) => {
                        if o.explosion_can_pass(self.bomb_type) {
                            let ghost rest = ray(
                                q,
                                redirect(o.obstacle_type, move_dir),
                                (left - 1) as nat,
                                maze_size,
                                obstacles@,
                                start.bomb_type,
                            );
                            assert(ray(p, move_dir, left, maze_size, obstacles@, start.bomb_type)
                                == rest.insert(q));
                            move_dir = o.next_direction(move_dir);
                            insert_point(&mut points, q);
                            assert(points@.to_set().union(rest) =~= before.union(target));
                        } else {
                            assert(ray(p, move_dir, left, maze_size, obstacles@, start.bomb_type)
                                =~= Set::empty());
                            assert(points@.to_set() =~= before.union(target));
                            break;
                        }
                    },
                    None => {
                        let ghost rest = ray(
                            q,
                            move_dir,
                            (left - 1) as nat,
                            maze_size,
                            obstacles@,
                            start.bomb_type,
                        );
                        assert(ray(p, move_dir, left, maze_size, obstacles@, start.bomb_type)
                            == rest.insert(q));
                        insert_point(&mut points, q);
                        assert(points@.to_set().union(rest) =~= before.union(target));
                    },
                }
                p = q;
                i = i + 1;
                proof {
                    if i == self.explosion_distance {
                        assert(points@.to_set() =~= before.union(target));
                    }
                }
            }
            k = k + 1;
        }
        proof {
            reveal_with_fuel(rays_cast, 5);
            points@.unique_seq_to_set();
            lemma_blast_size(start, maze_size, obstacles@);
        }
        points
    }
}

impl CanBeHit for Bomb {
    open spec fn location(&self) -> Point {
        self.position
    }

    open spec fn can_take_hit(&self) -> bool {
        true
    }

    open spec fn after_hit(&self) -> Bomb {
        hit_bomb(*self)
    }

    fn hit(&mut self) {
        if self.bomb_state == BombState::Idle {
            self.bomb_state = BombState::Activated;
        }
    }

    fn in_position(&self, position: Point) -> (r: bool) {
        self.position == position
    }
}

impl MazeDisplay for Bomb {
    open spec fn token(&self) -> Seq<char> {
        bomb_token(*self)
    }

    open spec fn cell(&self) -> Point {
        self.position
    }

    fn display(&self) -> (r: String) {
        proof {
            reveal_strlit("_");
            reveal_strlit("B");
            reveal_strlit("S");
        }
        if self.bomb_state == BombState::Exploded {
            let r = String::from_str("_");
            assert(r@ =~= self.token());
            return r;
        }
        let mut r = match self.bomb_type {
            BombType::Normal => String::from_str("B"),
            BombType::Penetrating => String::from_str("S"),
        };
        push_decimal(&mut r, self.explosion_distance as u64);
        assert(r@ =~= self.token());
        r
    }

    fn get_position(&self) -> (r: Point) {
        self.position
    }
}

} // verus!
