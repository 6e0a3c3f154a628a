//! The maze as a whole: reading it from text, playing one round of chained
//! explosions, and drawing it back as text.
use vstd::prelude::*;
use vstd::string::*;
use crate::bomb::{Bomb, BombState, blast, bomb_from, bomb_token, hit_bomb};
use crate::can_be_hit::CanBeHit;
use crate::maze_display::MazeDisplay;
use crate::enemy::{Enemy, enemy_from, enemy_token, hit_enemy, reset_enemy};
use crate::errors::{BombermanError, ErrorView};
use crate::obstacle::{Obstacle, ObstacleType, names_obstacle, obstacle_from, obstacle_token};
use crate::point::{Point, point_debug, point_text};
use crate::text::{
    chars_of,
    decimal,
    lemma_split_on_len,
    push_decimal,
    split_on,
    split_ranges,
    trim,
    trim_range,
};

verus! {

/// A maze and everything in it, for one round of play.
#[derive(Debug)]
pub struct Bomberman {
    enemies: Vec<Enemy>,
    bombs: Vec<Bomb>,
    obstacles: Vec<Obstacle>,
    size: u32,
}

/// The contents of a maze: its side and its enemies, bombs and obstacles, in
/// the order they were read.
pub struct MazeView {
    pub size: u32,
    pub enemies: Seq<Enemy>,
    pub bombs: Seq<Bomb>,
    pub obstacles: Seq<Obstacle>,
}

impl View for Bomberman {
    type V = MazeView;

    closed spec fn view(&self) -> MazeView {
        MazeView {
            size: self.size,
            enemies: self.enemies@,
            bombs: self.bombs@,
            obstacles: self.obstacles@,
        }
    }
}

pub open spec fn in_maze(p: Point, size: u32) -> bool {
    p.x < size && p.y < size
}

/// An enemy is dead exactly when it has no health left.
pub open spec fn enemy_wf(e: Enemy) -> bool {
    (e.state is Dead) == (e.health == 0)
}

/// What holds of every maze read from text: every occupant lies inside the
/// maze, no two occupants share a cell, and enemies are dead exactly at
/// zero health.
pub open spec fn maze_wf(m: MazeView) -> bool {
    &&& forall|i: int|
        0 <= i < m.enemies.len() ==> in_maze((#[trigger] m.enemies[i]).position, m.size) && enemy_wf(
            m.enemies[i],
        )
    &&& forall|i: int| 0 <= i < m.bombs.len() ==> in_maze(#[trigger] m.bombs[i].position, m.size)
    &&& forall|i: int|
        0 <= i < m.obstacles.len() ==> in_maze(#[trigger] m.obstacles[i].position, m.size)
    &&& forall|i: int, j: int|
        0 <= i < j < m.enemies.len() ==> #[trigger] m.enemies[i].position
            != #[trigger] m.enemies[j].position
    &&& forall|i: int, j: int|
        0 <= i < j < m.bombs.len() ==> #[trigger] m.bombs[i].position
            != #[trigger] m.bombs[j].position
    &&& forall|i: int, j: int|
        0 <= i < j < m.obstacles.len() ==> #[trigger] m.obstacles[i].position
            != #[trigger] m.obstacles[j].position
    &&& forall|i: int, j: int|
        0 <= i < m.enemies.len() && 0 <= j < m.bombs.len() ==> #[trigger] m.enemies[i].position
            != #[trigger] m.bombs[j].position
    &&& forall|i: int, j: int|
        0 <= i < m.enemies.len() && 0 <= j < m.obstacles.len() ==> #[trigger] m.enemies[i].position
            != #[trigger] m.obstacles[j].position
    &&& forall|i: int, j: int|
        0 <= i < m.bombs.len() && 0 <= j < m.obstacles.len() ==> #[trigger] m.bombs[i].position
            != #[trigger] m.obstacles[j].position
}

/// The rows of a maze text: the text without surrounding whitespace, cut at
/// each newline.
pub open spec fn maze_lines(text: Seq<char>) -> Seq<Seq<char>> {
    split_on(trim(text), '\n')
}

/// The squares of a row: the row without surrounding whitespace, cut at each
/// space.
pub open spec fn line_squares(line: Seq<char>) -> Seq<Seq<char>> {
    split_on(trim(line), ' ')
}

/// What reading `square` at `p` adds to `m`: an enemy for `F`, a bomb for `B`
/// or `S`, an obstacle for `W`, `R` or `D`, nothing for `_`; any other square
/// is invalid.
pub open spec fn add_square_to(m: MazeView, square: Seq<char>, p: Point) -> Result<
    MazeView,
    ErrorView,
> {
    if square.len() > 0 && square[0] == 'F' {
        match enemy_from(square, p) {
            Ok(e) => Ok(MazeView { enemies: m.enemies.push(e), ..m }),
            Err(x) => Err(x),
        }
    } else if square.len() > 0 && (square[0] == 'B' || square[0] == 'S') {
        match bomb_from(square, p) {
            Ok(b) => Ok(MazeView { bombs: m.bombs.push(b), ..m }),
            Err(x) => Err(x),
        }
    } else if square.len() > 0 && names_obstacle(seq![square[0]]) {
        match obstacle_from(square, p) {
            Ok(o) => Ok(MazeView { obstacles: m.obstacles.push(o), ..m }),
            Err(x) => Err(x),
        }
    } else if square == seq!['_'] {
        Ok(m)
    } else {
        Err(
            ErrorView::InvalidSquare(
                "The square "@ + square + " at position "@ + point_text(p) + " is invalid"@,
            ),
        )
    }
}

/// Reads the squares of row `y` into `m`, left to right, stopping at the
/// first invalid one.
pub open spec fn add_squares(m: MazeView, squares: Seq<Seq<char>>, y: u32) -> Result<
    MazeView,
    ErrorView,
>
    decreases squares.len(),
{
    if squares.len() == 0 {
        Ok(m)
    } else {
        match add_squares(m, squares.drop_last(), y) {
            Ok(m2) => add_square_to(
                m2,
                squares.last(),
                Point { x: (squares.len() - 1) as u32, y },
            ),
            Err(x) => Err(x),
        }
    }
}

/// The message for a row whose number of squares differs from the number
/// of rows.
pub open spec fn not_square_text(lines: nat, columns: nat) -> Seq<char> {
    "Maze has "@ + decimal(lines) + " lines and "@ + decimal(columns)
        + " columns, it should be equal"@
}

/// Reads `lines` in order into a maze of side `size`, stopping at the first
/// row of the wrong length or the first invalid square.
pub open spec fn add_lines(lines: Seq<Seq<char>>, size: u32) -> Result<MazeView, ErrorView>
    decreases lines.len(),
{
    if lines.len() == 0 {
        Ok(MazeView { size, enemies: seq![], bombs: seq![], obstacles: seq![] })
    } else {
        match add_lines(lines.drop_last(), size) {
            Ok(m) => {
                let squares = line_squares(lines.last());
                if squares.len() != size {
                    Err(ErrorView::MazeNotSquare(not_square_text(size as nat, squares.len())))
                } else {
                    add_squares(m, squares, (lines.len() - 1) as u32)
                }
            },
            Err(x) => Err(x),
        }
    }
}

/// The maze that `text` describes, or why it describes none.
pub open spec fn parse_maze(text: Seq<char>) -> Result<MazeView, ErrorView> {
    add_lines(maze_lines(text), maze_lines(text).len() as u32)
}

pub(crate) proof fn lemma_squares_stop(m: MazeView, squares: Seq<Seq<char>>, y: u32, k: int)
    requires
        0 <= k <= squares.len(),
        add_squares(m, squares.take(k), y) is Err,
    ensures
        add_squares(m, squares, y) == add_squares(m, squares.take(k), y),
    decreases squares.len() - k,
{
    if k < squares.len() {
        assert(squares.take(k + 1).drop_last() =~= squares.take(k));
        lemma_squares_stop(m, squares, y, k + 1);
    } else {
        assert(squares.take(k) =~= squares);
    }
}

pub(crate) proof fn lemma_lines_stop(lines: Seq<Seq<char>>, size: u32, k: int)
    requires
        0 <= k <= lines.len(),
        add_lines(lines.take(k), size) is Err,
    ensures
        add_lines(lines, size) == add_lines(lines.take(k), size),
    decreases lines.len() - k,
{
    if k < lines.len() {
        assert(lines.take(k + 1).drop_last() =~= lines.take(k));
        lemma_lines_stop(lines, size, k + 1);
    } else {
        assert(lines.take(k) =~= lines);
    }
}

/// `p` comes before `q` when the maze is read row by row.
pub open spec fn read_before(p: Point, q: Point) -> bool {
    p.y < q.y || (p.y == q.y && p.x < q.x)
}

/// Every occupant of `m` was read before the cell `p`.
spec fn all_before(m: MazeView, p: Point) -> bool {
    &&& forall|i: int| 0 <= i < m.enemies.len() ==> read_before(#[trigger] m.enemies[i].position, p)
    &&& forall|i: int| 0 <= i < m.bombs.len() ==> read_before(#[trigger] m.bombs[i].position, p)
    &&& forall|i: int|
        0 <= i < m.obstacles.len() ==> read_before(#[trigger] m.obstacles[i].position, p)
}

/// The index of the first bomb of `bombs`, from index `i` on, that is set off.
pub open spec fn first_active(bombs: Seq<Bomb>, i: int) -> Option<int>
    decreases bombs.len() - i,
{
    if i < 0 || i >= bombs.len() {
        None
    } else if bombs[i].bomb_state is Activated {
        Some(i)
    } else {
        first_active(bombs, i + 1)
    }
}

/// The index of the first bomb of `bombs`, from index `i` on, that stands on `p`.
pub open spec fn first_bomb_at(bombs: Seq<Bomb>, p: Point, i: int) -> Option<int>
    decreases bombs.len() - i,
{
    if i < 0 || i >= bombs.len() {
        None
    } else if bombs[i].position == p {
        Some(i)
    } else {
        first_bomb_at(bombs, p, i + 1)
    }
}

/// The index of the first enemy of `enemies`, from index `i` on, that stands on `p`.
pub open spec fn first_enemy_at(enemies: Seq<Enemy>, p: Point, i: int) -> Option<int>
    decreases enemies.len() - i,
{
    if i < 0 || i >= enemies.len() {
        None
    } else if enemies[i].position == p {
        Some(i)
    } else {
        first_enemy_at(enemies, p, i + 1)
    }
}

/// The maze once the bomb on `start` has been hit, which sets it off.
pub open spec fn ignite(m: MazeView, start: Point) -> MazeView {
    match first_bomb_at(m.bombs, start, 0) {
        Some(i) => MazeView { bombs: m.bombs.update(i, hit_bomb(m.bombs[i])), ..m },
        None => m,
    }
}

/// One turn: bomb `i` explodes, every bomb and enemy its blast reaches is hit
/// once, and then the enemies that were hit can be hit again.
pub open spec fn detonate(m: MazeView, i: int) -> MazeView {
    let b = m.bombs[i];
    let reached = blast(b, m.size, m.obstacles);
    let bombs = m.bombs.update(i, Bomb { bomb_state: BombState::Exploded, ..b });
    MazeView {
        bombs: bombs.map_values(
            |c: Bomb|
                if reached.contains(c.position) {
                    hit_bomb(c)
                } else {
                    c
                },
        ),
        enemies: m.enemies.map_values(
            |e: Enemy|
                reset_enemy(
                    if reached.contains(e.position) {
                        hit_enemy(e)
                    } else {
                        e
                    },
                ),
        ),
        ..m
    }
}

/// The maze after at most `turns` turns, each exploding the first bomb that
/// is set off, and no more once none is.
pub open spec fn settle(m: MazeView, turns: nat) -> MazeView
    decreases turns,
{
    if turns == 0 {
        m
    } else {
        match first_active(m.bombs, 0) {
            Some(i) => settle(detonate(m, i), (turns - 1) as nat),
            None => m,
        }
    }
}

/// Once no bomb is set off, playing again from a bomb that has already
/// exploded changes nothing.
pub proof fn lemma_replay_changes_nothing(m: MazeView, start: Point, turns: nat)
    requires
        first_active(m.bombs, 0) is None,
        first_bomb_at(m.bombs, start, 0) matches Some(i) && m.bombs[i].bomb_state is Exploded,
    ensures
        settle(ignite(m, start), turns) == m,
{
    let i = first_bomb_at(m.bombs, start, 0)->Some_0;
    lemma_first_bomb_at(m.bombs, start, 0);
    assert(m.bombs.update(i, hit_bomb(m.bombs[i])) =~= m.bombs);
    assert(ignite(m, start) == m);
}

/// The number of bombs that have not exploded yet.
pub open spec fn unexploded(bombs: Seq<Bomb>) -> nat
    decreases bombs.len(),
{
    if bombs.len() == 0 {
        0
    } else {
        unexploded(bombs.drop_last()) + if bombs.last().bomb_state is Exploded {
            0nat
        } else {
            1nat
        }
    }
}

/// The message for a start cell that holds no bomb.
pub open spec fn no_bomb_text(p: Point) -> Seq<char> {
    "No bomb in starting position: "@ + point_debug(p)
}

proof fn lemma_unexploded_le(bombs: Seq<Bomb>)
    ensures
        unexploded(bombs) <= bombs.len(),
    decreases bombs.len(),
{
    if bombs.len() > 0 {
        lemma_unexploded_le(bombs.drop_last());
    }
}

/// Exploding bomb `i`, and changing no exploded bomb, leaves fewer bombs to explode.
proof fn lemma_unexploded_decreases(a: Seq<Bomb>, b: Seq<Bomb>, i: int)
    requires
        a.len() == b.len(),
        0 <= i < a.len(),
        !(a[i].bomb_state is Exploded),
        b[i].bomb_state is Exploded,
        forall|j: int| 0 <= j < a.len() && (a[j].bomb_state is Exploded) ==> (
        #[trigger] b[j]).bomb_state is Exploded,
    ensures
        unexploded(b) < unexploded(a),
    decreases a.len(),
{
    if i < a.len() - 1 {
        lemma_unexploded_decreases(a.drop_last(), b.drop_last(), i);
    } else {
        lemma_unexploded_monotone(a.drop_last(), b.drop_last());
    }
}

proof fn lemma_unexploded_monotone(a: Seq<Bomb>, b: Seq<Bomb>)
    requires
        a.len() == b.len(),
        forall|j: int| 0 <= j < a.len() && (a[j].bomb_state is Exploded) ==> (
        #[trigger] b[j]).bomb_state is Exploded,
    ensures
        unexploded(b) <= unexploded(a),
    decreases a.len(),
{
    if a.len() > 0 {
        lemma_unexploded_monotone(a.drop_last(), b.drop_last());
    }
}

/// Anything drawn in a cell of the maze.
#[derive(Clone, Copy, Debug, PartialEq, Eq, Structural)]
pub enum Occupant {
    Enemy(Enemy),
    Bomb(Bomb),
    Obstacle(Obstacle),
}

impl MazeDisplay for Occupant {
    open spec fn token(&self) -> Seq<char> {
        match self {
            Occupant::Enemy(e) => enemy_token(*e),
            Occupant::Bomb(b) => bomb_token(*b),
            Occupant::Obstacle(o) => obstacle_token(o.obstacle_type),
        }
    }

    open spec fn cell(&self) -> Point {
        match self {
            Occupant::Enemy(e) => e.position,
            Occupant::Bomb(b) => b.position,
            Occupant::Obstacle(o) => o.position,
        }
    }

    fn display(&self) -> (r: String) {
        match self {
            Occupant::Enemy(e) => e.display(),
            Occupant::Bomb(b) => b.display(),
            Occupant::Obstacle(o) => o.display(),
        }
    }

    fn get_position(&self) -> (r: Point) {
        match self {
            Occupant::Enemy(e) => e.get_position(),
            Occupant::Bomb(b) => b.get_position(),
            Occupant::Obstacle(o) => o.get_position(),
        }
    }
}

/// Everything the maze draws, in drawing order: enemies, then bombs, then
/// obstacles.
pub open spec fn occupants(m: MazeView) -> Seq<Occupant> {
    m.enemies.map_values(|e: Enemy| Occupant::Enemy(e)) + m.bombs.map_values(
        |b: Bomb| Occupant::Bomb(b),
    ) + m.obstacles.map_values(|o: Obstacle| Occupant::Obstacle(o))
}

/// Row `y` after drawing `items` over `row` in order, each in its own cell;
/// a later item drawn in a cell replaces an earlier one.
pub open spec fn paint(row: Seq<Seq<char>>, items: Seq<Occupant>, y: u32) -> Seq<Seq<char>>
    decreases items.len(),
{
    if items.len() == 0 {
        row
    } else {
        let r = paint(row, items.drop_last(), y);
        let o = items.last();
        if o.cell().y == y && o.cell().x < r.len() {
            r.update(o.cell().x as int, o.token())
        } else {
            r
        }
    }
}

/// A row of `n` empty cells.
pub open spec fn blank_row(n: nat) -> Seq<Seq<char>> {
    Seq::new(n, |i: int| seq!['_'])
}

/// The tokens of row `y` of the maze, `_` where nothing is drawn.
pub open spec fn row_tokens(m: MazeView, y: u32) -> Seq<Seq<char>> {
    paint(blank_row(m.size as nat), occupants(m), y)
}

/// The tokens separated by single spaces.
pub open spec fn join_tokens(tokens: Seq<Seq<char>>) -> Seq<char>
    decreases tokens.len(),
{
    if tokens.len() == 0 {
        seq![]
    } else if tokens.len() == 1 {
        tokens[0]
    } else {
        join_tokens(tokens.drop_last()) + seq![' '] + tokens.last()
    }
}

/// The first `n` rows of the maze as text, each ended by a newline.
pub open spec fn render_rows(m: MazeView, n: nat) -> Seq<char>
    decreases n,
{
    if n == 0 {
        seq![]
    } else {
        render_rows(m, (n - 1) as nat) + join_tokens(row_tokens(m, (n - 1) as u32)) + seq!['\n']
    }
}

/// The maze drawn as text: one line per row, tokens separated by spaces.
pub open spec fn render(m: MazeView) -> Seq<char> {
    render_rows(m, m.size as nat)
}

/// The views of a row of strings.
pub open spec fn texts(row: Seq<String>) -> Seq<Seq<char>> {
    row.map_values(|s: String| s@)
}

proof fn lemma_first_bomb_at(bombs: Seq<Bomb>, p: Point, i: int)
    requires
        0 <= i,
    ensures
        match first_bomb_at(bombs, p, i) {
            Some(j) => i <= j < bombs.len() && bombs[j].position == p,
            None => forall|k: int| i <= k < bombs.len() ==> (#[trigger] bombs[k]).position != p,
        },
    decreases bombs.len() - i,
{
    if i < bombs.len() && bombs[i].position != p {
        lemma_first_bomb_at(bombs, p, i + 1);
    }
}

proof fn lemma_first_enemy_at(enemies: Seq<Enemy>, p: Point, i: int)
    requires
        0 <= i,
    ensures
        match first_enemy_at(enemies, p, i) {
            Some(j) => i <= j < enemies.len() && enemies[j].position == p,
            None => forall|k: int| i <= k < enemies.len() ==> (#[trigger] enemies[k]).position != p,
        },
    decreases enemies.len() - i,
{
    if i < enemies.len() && enemies[i].position != p {
        lemma_first_enemy_at(enemies, p, i + 1);
    }
}

/// A maze whose occupants stand where those of a well-formed maze stand,
/// with well-formed enemies, is well formed.
proof fn lemma_wf_same_cells(a: MazeView, b: MazeView)
    requires
        maze_wf(a),
        b.size == a.size,
        b.obstacles == a.obstacles,
        b.enemies.len() == a.enemies.len(),
        b.bombs.len() == a.bombs.len(),
        forall|i: int|
            0 <= i < b.enemies.len() ==> (#[trigger] b.enemies[i]).position == a.enemies[i].position
                && enemy_wf(b.enemies[i]),
        forall|i: int| 0 <= i < b.bombs.len() ==> (#[trigger] b.bombs[i]).position == a.bombs[i].position,
    ensures
        maze_wf(b),
{
    assert forall|i: int, j: int| 0 <= i < j < b.enemies.len() implies #[trigger] b.enemies[i].position
        != #[trigger] b.enemies[j].position by {
        assert(a.enemies[i].position != a.enemies[j].position);
    }
    assert forall|i: int, j: int| 0 <= i < j < b.bombs.len() implies #[trigger] b.bombs[i].position
        != #[trigger] b.bombs[j].position by {
        assert(a.bombs[i].position != a.bombs[j].position);
    }
    assert forall|i: int, j: int|
        0 <= i < b.enemies.len() && 0 <= j < b.bombs.len() implies #[trigger] b.enemies[i].position
        != #[trigger] b.bombs[j].position by {
        assert(a.enemies[i].position != a.bombs[j].position);
    }
    assert forall|i: int, j: int|
        0 <= i < b.enemies.len() && 0 <= j < b.obstacles.len() implies #[trigger] b.enemies[i].position
        != #[trigger] b.obstacles[j].position by {
        assert(a.enemies[i].position != a.obstacles[j].position);
    }
    assert forall|i: int, j: int|
        0 <= i < b.bombs.len() && 0 <= j < b.obstacles.len() implies #[trigger] b.bombs[i].position
        != #[trigger] b.obstacles[j].position by {
        assert(a.bombs[i].position != a.obstacles[j].position);
    }
    assert forall|i: int| 0 <= i < b.enemies.len() implies in_maze((#[trigger] b.enemies[i]).position, b.size)
        && enemy_wf(b.enemies[i]) by {
        assert(in_maze(a.enemies[i].position, a.size));
    }
    assert forall|i: int| 0 <= i < b.bombs.len() implies in_maze(#[trigger] b.bombs[i].position, b.size) by {
        assert(in_maze(a.bombs[i].position, a.size));
    }
}

proof fn lemma_first_active_is_active(bombs: Seq<Bomb>, i: int)
    requires
        0 <= i,
    ensures
        first_active(bombs, i) matches Some(j) ==> i <= j < bombs.len() && bombs[j].bomb_state is Activated,
    decreases bombs.len() - i,
{
    if i < bombs.len() && !(bombs[i].bomb_state is Activated) {
        lemma_first_active_is_active(bombs, i + 1);
    }
}

proof fn lemma_unexploded_positive(bombs: Seq<Bomb>, i: int)
    requires
        0 <= i < bombs.len(),
        !(bombs[i].bomb_state is Exploded),
    ensures
        unexploded(bombs) > 0,
    decreases bombs.len(),
{
    if i < bombs.len() - 1 {
        lemma_unexploded_positive(bombs.drop_last(), i);
    }
}

/// What stands on a cell and can be hit there: the enemy or the bomb with
/// the given index.
#[derive(Clone, Copy, Debug, PartialEq, Eq, Structural)]
pub enum Hittable {
    Enemy(usize),
    Bomb(usize),
}


impl Bomberman {
    /// The maze that `file_string` describes: rows separated by newlines,
    /// squares separated by single spaces, as many squares in each row as
    /// there are rows.
    pub fn new(file_string: String) -> (r: Result<Bomberman, BombermanError>)
        requires
            file_string@.len() < u32::MAX,
        ensures
            match r {
                Ok(game) => parse_maze(file_string@) == Ok::<MazeView, ErrorView>(game@)
                    && maze_wf(game@),
                Err(e) => parse_maze(file_string@) == Err::<MazeView, ErrorView>(e@),
            },
    {
        let text = file_string.as_str();
        let chars = chars_of(text);
        let (lo, hi) = trim_range(&chars, 0, chars.len());
        assert(chars@.subrange(0, chars@.len() as int) =~= file_string@);
        let lines = split_ranges(&chars, lo, hi, '\n');
        let ghost all_lines = maze_lines(file_string@);
        proof {
            lemma_split_on_len(chars@.subrange(lo as int, hi as int), '\n');
        }
        let size = lines.len() as u32;
        let mut game = Bomberman {
            enemies: Vec::new(),
            bombs: Vec::new(),
            obstacles: Vec::new(),
            size,
        };
        let mut y: usize = 0;
        assert(all_lines.take(0) =~= Seq::<Seq<char>>::empty());
        while y < lines.len()
            invariant
                chars@ == file_string@,
                file_string@.len() < u32::MAX,
                text@ == file_string@,
                lines@.len() == all_lines.len(),
                all_lines == maze_lines(file_string@),
                size as nat == all_lines.len(),
                y <= lines@.len(),
                forall|k: int|
                    0 <= k < lines@.len() ==> 0 <= (#[trigger] lines@[k]).0 <= lines@[k].1
                        <= chars@.len() && chars@.subrange(lines@[k].0 as int, lines@[k].1 as int)
                        == all_lines[k],
                add_lines(all_lines.take(y as int), size) == Ok::<MazeView, ErrorView>(game@),
                game.size == size,
                maze_wf(game@),
                all_before(game@, Point { x: 0, y: y as u32 }),
            decreases lines@.len() - y,
        {
            let (ls, le) = lines[y];
            let (a, b) = trim_range(&chars, ls, le);
            let squares = split_ranges(&chars, a, b, ' ');
            let ghost row = line_squares(all_lines[y as int]);
            assert(all_lines.take(y + 1).drop_last() =~= all_lines.take(y as int));
            assert(all_lines.take(y + 1).last() == all_lines[y as int]);
            assert(row == split_on(chars@.subrange(a as int, b as int), ' '));
            if squares.len() != size as usize {
                proof {
                    lemma_split_on_len(chars@.subrange(a as int, b as int), ' ');
                }
                let mut m = String::from_str("Maze has ");
                push_decimal(&mut m, size as u64);
                m.append(" lines and ");
                push_decimal(&mut m, squares.len() as u64);
                m.append(" columns, it should be equal");
                assert(ls <= a <= b <= le <= chars@.len());
                assert(chars@.len() < u32::MAX);
                assert(squares@.len() <= u32::MAX);
                assert(m@ =~= not_square_text(size as nat, row.len()));
                assert(add_lines(all_lines.take(y + 1), size) == Err::<MazeView, ErrorView>(
                    ErrorView::MazeNotSquare(m@),
                ));
                proof {
                    lemma_lines_stop(all_lines, size, y + 1);
                }
                return Err(BombermanError::MazeNotSquare(m));
            }
            let line = text.substring_char(a, b);
            let mut x: usize = 0;
            let ghost row_start = game@;
            assert(add_lines(all_lines.take(y + 1), size) == add_squares(row_start, row, y as u32));
            assert(row.take(0) =~= Seq::<Seq<char>>::empty());
            while x < squares.len()
                invariant
                    chars@ == file_string@,
                    a <= b <= chars@.len(),
                    line@ == chars@.subrange(a as int, b as int),
                    row == split_on(chars@.subrange(a as int, b as int), ' '),
                    squares@.len() == row.len(),
                    squares@.len() == size,
                    forall|k: int|
                        0 <= k < squares@.len() ==> a <= (#[trigger] squares@[k]).0
                            <= squares@[k].1 <= b && chars@.subrange(
                            squares@[k].0 as int,
                            squares@[k].1 as int,
                        ) == row[k],
                    x <= squares@.len(),
                    y < lines@.len(),
                    lines@.len() == all_lines.len(),
                    all_lines == maze_lines(file_string@),
                    size as nat == all_lines.len(),
                    add_lines(all_lines.take(y + 1), size) == add_squares(row_start, row, y as u32),
                    add_squares(row_start, row.take(x as int), y as u32) == Ok::<
                        MazeView,
                        ErrorView,
                    >(game@),
                    game.size == size,
                    maze_wf(game@),
                    all_before(game@, Point { x: x as u32, y: y as u32 }),
                decreases squares@.len() - x,
            {
                let (s, e) = squares[x];
                let square = line.substring_char(s - a, e - a).to_owned();
                assert(square@ =~= row[x as int]);
                let point = Point::new(x as u32, y as u32);
                assert(row.take(x + 1).drop_last() =~= row.take(x as int));
                assert(row.take(x + 1).last() == row[x as int]);
                match game.add_square(square, point) {
                    Ok(()) => {},
                    Err(err) => {
                        proof {
                            lemma_squares_stop(row_start, row, y as u32, x + 1);
                            lemma_lines_stop(all_lines, size, y + 1);
                        }
                        return Err(err);
                    },
                }
                x = x + 1;
            }
            assert(row.take(x as int) =~= row);
            y = y + 1;
        }
        assert(all_lines.take(y as int) =~= all_lines);
        Ok(game)
    }

    /// Reads `square` as the occupant of `point`, and adds it to the maze; on
    /// an invalid square the maze is left as it was. When every occupant so
    /// far stands in a cell read before `point`, as when `new` reads the cells
    /// in order, the maze stays well formed and every occupant stands before
    /// any later cell.
    fn add_square(&mut self, square: String, point: Point) -> (r: Result<(), BombermanError>)
        requires
            maze_wf(old(self)@),
            in_maze(point, old(self).size),
        ensures
            final(self).size == old(self).size,
            match r {
                Ok(()) => add_square_to(old(self)@, square@, point) == Ok::<MazeView, ErrorView>(
                    final(self)@,
                ),
                Err(e) => add_square_to(old(self)@, square@, point) == Err::<MazeView, ErrorView>(
                    e@,
                ) && final(self)@ == old(self)@,
            },
            all_before(old(self)@, point) ==> maze_wf(final(self)@),
            all_before(old(self)@, point) ==> forall|q: Point|
                read_before(point, q) ==> all_before(final(self)@, q),
    {
        let c = chars_of(square.as_str());
        if c.len() > 0 && c[0] == 'F' {
            let enemy = match Enemy::new(square.as_str(), point) {
                Ok(enemy) => enemy,
                Err(e) => return Err(e),
            };
            self.enemies.push(enemy);
        } else if c.len() > 0 && (c[0] == 'B' || c[0] == 'S') {
            let bomb = match Bomb::new(square, point) {
                Ok(bomb) => bomb,
                Err(e) => return Err(e),
            };
            self.bombs.push(bomb);
        } else if c.len() > 0 && ObstacleType::is_obstacle(square.as_str().substring_char(0, 1)) {
            assert(square@.subrange(0, 1) =~= seq![square@[0]]);
            let obstacle = match Obstacle::new(square, point) {
                Ok(obstacle) => obstacle,
                Err(e) => return Err(e),
            };
            self.obstacles.push(obstacle);
        } else if c.len() == 1 && c[0] == '_' {
            assert(square@ =~= seq!['_']);
        } else {
            assert(c.len() > 0 ==> square@.subrange(0, 1) =~= seq![square@[0]]);
            let mut m = String::from_str("The square ");
            m.append(square.as_str());
            m.append(" at position ");
            m.append(point.to_string().as_str());
            m.append(" is invalid");
            return Err(BombermanError::InvalidSquare(m));
        }
        assert(self@.enemies =~= self.enemies@);
        Ok(())
    }
    /// The index of the first bomb that is set off.
    fn active_bomb(&self) -> (r: Option<usize>)
        ensures
            match r {
                Some(i) => first_active(self@.bombs, 0) == Some(i as int),
                None => first_active(self@.bombs, 0) is None,
            },
    {
        let mut i: usize = 0;
        while i < self.bombs.len()
            invariant
                i <= self.bombs@.len(),
                first_active(self@.bombs, 0) == first_active(self@.bombs, i as int),
            decreases self.bombs@.len() - i,
        {
            if self.bombs[i].is_active() {
                return Some(i);
            }
            i = i + 1;
        }
        None
    }

    /// The index of the first bomb that stands on `position`.
    fn bomb_at(&self, position: Point) -> (r: Option<usize>)
        ensures
            match r {
                Some(i) => first_bomb_at(self@.bombs, position, 0) == Some(i as int),
                None => first_bomb_at(self@.bombs, position, 0) is None,
            },
    {
        let mut i: usize = 0;
        while i < self.bombs.len()
            invariant
                i <= self.bombs@.len(),
                first_bomb_at(self@.bombs, position, 0) == first_bomb_at(
                    self@.bombs,
                    position,
                    i as int,
                ),
            decreases self.bombs@.len() - i,
        {
            if self.bombs[i].in_position(position) {
                return Some(i);
            }
            i = i + 1;
        }
        None
    }

    /// The index of the first enemy that stands on `position`.
    fn enemy_at(&self, position: Point) -> (r: Option<usize>)
        ensures
            match r {
                Some(i) => first_enemy_at(self@.enemies, position, 0) == Some(i as int),
                None => first_enemy_at(self@.enemies, position, 0) is None,
            },
    {
        let mut i: usize = 0;
        while i < self.enemies.len()
            invariant
                i <= self.enemies@.len(),
                first_enemy_at(self@.enemies, position, 0) == first_enemy_at(
                    self@.enemies,
                    position,
                    i as int,
                ),
            decreases self.enemies@.len() - i,
        {
            if self.enemies[i].in_position(position) {
                return Some(i);
            }
            i = i + 1;
        }
        None
    }

    /// The occupant that a hit on `position` reaches, if any: the first bomb
    /// standing there, else the first enemy standing there.
    fn get_hittable_in_position(&self, position: Point) -> (r: Option<Hittable>)
        ensures
            match r {
                Some(Hittable::Bomb(j)) => first_bomb_at(self@.bombs, position, 0) == Some(j as int),
                Some(Hittable::Enemy(j)) => first_bomb_at(self@.bombs, position, 0) is None
                    && first_enemy_at(self@.enemies, position, 0) == Some(j as int),
                None => first_bomb_at(self@.bombs, position, 0) is None && first_enemy_at(
                    self@.enemies,
                    position,
                    0,
                ) is None,
            },
    {
        match self.bomb_at(position) {
            Some(j) => Some(Hittable::Bomb(j)),
            None => match self.enemy_at(position) {
                Some(j) => Some(Hittable::Enemy(j)),
                None => None,
            },
        }
    }

    /// Ends a turn: every enemy that was hit can be hit again.
    fn next_turn(&mut self)
        ensures
            final(self)@ == (MazeView {
                enemies: old(self)@.enemies.map_values(|e: Enemy| reset_enemy(e)),
                ..old(self)@
            }),
    {
        let mut i: usize = 0;
        while i < self.enemies.len()
            invariant
                i <= self.enemies@.len(),
                self.enemies@.len() == old(self).enemies@.len(),
                self.bombs == old(self).bombs,
                self.obstacles == old(self).obstacles,
                self.size == old(self).size,
                forall|j: int| 0 <= j < i ==> self.enemies@[j] == reset_enemy(old(self).enemies@[j]),
                forall|j: int| i <= j < self.enemies@.len() ==> self.enemies@[j] == old(self).enemies@[j],
            decreases self.enemies@.len() - i,
        {
            self.enemies[i].reset_state();
            i = i + 1;
        }
        assert(self.enemies@ =~= old(self)@.enemies.map_values(|e: Enemy| reset_enemy(e)));
    }
    /// Explodes bomb `i` and hits, once, every bomb and enemy its blast
    /// reaches; then ends the turn.
    fn detonate_bomb(&mut self, i: usize)
        requires
            maze_wf(old(self)@),
            i < old(self)@.bombs.len(),
        ensures
            final(self)@ == detonate(old(self)@, i as int),
            maze_wf(final(self)@),
    {
        let ghost m = self@;
        let ghost b = m.bombs[i as int];
        let ghost reached = blast(b, m.size, m.obstacles);
        let points = self.bombs[i].explode(self.size, self.obstacles.as_slice());
        let ghost exploded = self.bombs@;
        assert(exploded == m.bombs.update(i as int, Bomb { bomb_state: BombState::Exploded, ..b }));
        let mut k: usize = 0;
        assert(points@.take(0) =~= Seq::<Point>::empty());
        assert(self.bombs@ =~= exploded.map_values(
            |c: Bomb|
                if points@.take(0).contains(c.position) {
                    hit_bomb(c)
                } else {
                    c
                },
        ));
        assert(self.enemies@ =~= m.enemies.map_values(
            |e: Enemy|
                if points@.take(0).contains(e.position) {
                    hit_enemy(e)
                } else {
                    e
                },
        ));
        while k < points.len()
            invariant
                k <= points@.len(),
                points@.no_duplicates(),
                points@.to_set() == reached,
                self.size == m.size,
                self.obstacles@ == m.obstacles,
                maze_wf(m),
                exploded.len() == m.bombs.len(),
                forall|j: int| 0 <= j < exploded.len() ==> (#[trigger] exploded[j]).position == m.bombs[j].position,
                self.bombs@ == exploded.map_values(
                    |c: Bomb|
                        if points@.take(k as int).contains(c.position) {
                            hit_bomb(c)
                        } else {
                            c
                        },
                ),
                self.enemies@ == m.enemies.map_values(
                    |e: Enemy|
                        if points@.take(k as int).contains(e.position) {
                            hit_enemy(e)
                        } else {
                            e
                        },
                ),
            decreases points@.len() - k,
        {
            let p = points[k];
            let ghost before = points@.take(k as int);
            let ghost after = points@.take(k + 1);
            assert(after =~= before.push(p));
            assert(!before.contains(p)) by {
                if before.contains(p) {
                    let j = choose|j: int| 0 <= j < before.len() && before[j] == p;
                    assert(points@[j] == points@[k as int]);
                }
            }
            let ghost bombs_before = self.bombs@;
            let ghost enemies_before = self.enemies@;
            proof {
                lemma_first_bomb_at(self.bombs@, p, 0);
                lemma_first_enemy_at(self.enemies@, p, 0);
            }
            let target = self.get_hittable_in_position(p);
            assert forall|c: int| 0 <= c < exploded.len() implies (#[trigger] bombs_before[c]).position
                == exploded[c].position && (exploded[c].position == p ==> bombs_before[c]
                == exploded[c]) by {
                assert(bombs_before[c] == (if before.contains(exploded[c].position) {
                    hit_bomb(exploded[c])
                } else {
                    exploded[c]
                }));
            }
            assert forall|e: int| 0 <= e < m.enemies.len() implies (#[trigger] enemies_before[e]).position
                == m.enemies[e].position && (m.enemies[e].position == p ==> enemies_before[e]
                == m.enemies[e]) by {
                assert(enemies_before[e] == (if before.contains(m.enemies[e].position) {
                    hit_enemy(m.enemies[e])
                } else {
                    m.enemies[e]
                }));
            }
            match target {
                Some(Hittable::Bomb(j)) => {
                    assert(bombs_before[j as int].position == p);
                    self.bombs[j].hit();
                    assert forall|e: int| 0 <= e < m.enemies.len() implies (#[trigger] m.enemies[e]).position != p by {
                        assert(m.enemies[e].position != m.bombs[j as int].position);
                    }
                    assert forall|c: int| 0 <= c < exploded.len() && c != j implies (#[trigger] exploded[c]).position != p by {
                        if c < j {
                            assert(m.bombs[c].position != m.bombs[j as int].position);
                        } else {
                            assert(m.bombs[j as int].position != m.bombs[c].position);
                        }
                    }
                },
                Some(Hittable::Enemy(j)) => {
                    assert(enemies_before[j as int].position == p);
                    assert(enemy_wf(m.enemies[j as int]));
                    self.enemies[j].hit();
                    assert forall|e: int| 0 <= e < m.enemies.len() && e != j implies (#[trigger] m.enemies[e]).position != p by {
                        if e < j {
                            assert(m.enemies[e].position != m.enemies[j as int].position);
                        } else {
                            assert(m.enemies[j as int].position != m.enemies[e].position);
                        }
                    }
                    assert forall|c: int| 0 <= c < exploded.len() implies (#[trigger] exploded[c]).position != p by {
                        assert(bombs_before[c].position != p);
                    }
                },
                None => {
                    assert forall|c: int| 0 <= c < exploded.len() implies (#[trigger] exploded[c]).position != p by {
                        assert(bombs_before[c].position != p);
                    }
                    assert forall|e: int| 0 <= e < m.enemies.len() implies (#[trigger] m.enemies[e]).position != p by {
                        assert(enemies_before[e].position != p);
                    }
                },
            }
            assert forall|x: Point| #[trigger] after.contains(x) == (before.contains(x) || x == p) by {
                if after.contains(x) {
                    let j = choose|j: int| 0 <= j < after.len() && after[j] == x;
                    if j < before.len() {
                        assert(before[j] == x);
                    }
                }
                if before.contains(x) {
                    let j = choose|j: int| 0 <= j < before.len() && before[j] == x;
                    assert(after[j] == x);
                }
                if x == p {
                    assert(after[before.len() as int] == p);
                }
            }
            k = k + 1;
        }
        assert(points@.take(k as int) =~= points@);
        self.next_turn();
        assert(self@.bombs =~= detonate(m, i as int).bombs);
        assert(self@.enemies =~= detonate(m, i as int).enemies);
        proof {
            lemma_wf_same_cells(m, self@);
        }
    }

    /// Plays one round from the bomb on `start_bomb`: that bomb is set off,
    /// then, while any bomb is set off, the first such bomb explodes and hits
    /// whatever its blast reaches. Returns the maze as drawn at the end.
    pub fn play(&mut self, start_bomb: Point) -> (r: Result<String, BombermanError>)
        requires
            maze_wf(old(self)@),
        ensures
            maze_wf(final(self)@),
            match r {
                Ok(s) => first_bomb_at(old(self)@.bombs, start_bomb, 0) is Some && final(self)@
                    == settle(ignite(old(self)@, start_bomb), old(self)@.bombs.len())
                    && first_active(final(self)@.bombs, 0) is None && s@ == render(final(self)@),
                Err(e) => first_bomb_at(old(self)@.bombs, start_bomb, 0) is None && e@
                    == ErrorView::NoBombInStartingPosition(no_bomb_text(start_bomb))
                    && final(self)@ == old(self)@,
            },
    {
        proof {
            lemma_first_bomb_at(self@.bombs, start_bomb, 0);
        }
        match self.bomb_at(start_bomb) {
            Some(i) => self.bombs[i].hit(),
            None => {
                let mut m = String::from_str("No bomb in starting position: ");
                m.append(start_bomb.debug_text().as_str());
                return Err(BombermanError::NoBombInStartingPosition(m));
            },
        }
        let ghost init = self@;
        assert(init.bombs =~= ignite(old(self)@, start_bomb).bombs);
        assert(init.enemies == old(self)@.enemies);
        assert(forall|e: int| 0 <= e < init.enemies.len() ==> enemy_wf(#[trigger] init.enemies[e]));
        proof {
            lemma_wf_same_cells(old(self)@, init);
        }
        let ghost mut turns: nat = init.bombs.len();
        proof {
            lemma_unexploded_le(init.bombs);
        }
        loop
            invariant
                maze_wf(self@),
                self@.bombs.len() == init.bombs.len(),
                settle(self@, turns) == settle(init, init.bombs.len()),
                unexploded(self@.bombs) <= turns,
            ensures
                maze_wf(self@),
                self@ == settle(init, init.bombs.len()),
                first_active(self@.bombs, 0) is None,
            decreases turns,
        {
            let i = match self.active_bomb() {
                Some(i) => i,
                None => break,
            };
            let ghost before = self@;
            proof {
                lemma_first_active_is_active(before.bombs, 0);
                lemma_unexploded_positive(before.bombs, i as int);
            }
            self.detonate_bomb(i);
            proof {
                lemma_unexploded_decreases(before.bombs, self@.bombs, i as int);
                turns = (turns - 1) as nat;
            }
        }
        Ok(self.to_string())
    }
    /// Everything the maze draws, in drawing order.
    fn get_all_displayable(&self) -> (r: Vec<Occupant>)
        ensures
            r@ == occupants(self@),
    {
        let mut r: Vec<Occupant> = Vec::new();
        let mut i: usize = 0;
        while i < self.enemies.len()
            invariant
                i <= self.enemies@.len(),
                r@ == self@.enemies.take(i as int).map_values(|e: Enemy| Occupant::Enemy(e)),
            decreases self.enemies@.len() - i,
        {
            r.push(Occupant::Enemy(self.enemies[i]));
            assert(self@.enemies.take(i + 1) =~= self@.enemies.take(i as int).push(self.enemies@[i as int]));
            assert(r@ =~= self@.enemies.take(i + 1).map_values(|e: Enemy| Occupant::Enemy(e)));
            i = i + 1;
        }
        assert(self@.enemies.take(i as int) =~= self@.enemies);
        let ghost first = r@;
        let mut i: usize = 0;
        while i < self.bombs.len()
            invariant
                i <= self.bombs@.len(),
                r@ == first + self@.bombs.take(i as int).map_values(|b: Bomb| Occupant::Bomb(b)),
            decreases self.bombs@.len() - i,
        {
            r.push(Occupant::Bomb(self.bombs[i]));
            assert(self@.bombs.take(i + 1) =~= self@.bombs.take(i as int).push(self.bombs@[i as int]));
            assert(r@ =~= first + self@.bombs.take(i + 1).map_values(|b: Bomb| Occupant::Bomb(b)));
            i = i + 1;
        }
        assert(self@.bombs.take(i as int) =~= self@.bombs);
        let ghost second = r@;
        let mut i: usize = 0;
        while i < self.obstacles.len()
            invariant
                i <= self.obstacles@.len(),
                r@ == second + self@.obstacles.take(i as int).map_values(
                    |o: Obstacle| Occupant::Obstacle(o),
                ),
            decreases self.obstacles@.len() - i,
        {
            r.push(Occupant::Obstacle(self.obstacles[i]));
            assert(self@.obstacles.take(i + 1) =~= self@.obstacles.take(i as int).push(
                self.obstacles@[i as int],
            ));
            assert(r@ =~= second + self@.obstacles.take(i + 1).map_values(
                |o: Obstacle| Occupant::Obstacle(o),
            ));
            i = i + 1;
        }
        assert(self@.obstacles.take(i as int) =~= self@.obstacles);
        r
    }

    /// The tokens of every row, top to bottom.
    fn to_matrix(&self) -> (r: Vec<Vec<String>>)
        ensures
            r@.len() == self.size,
            forall|y: int| 0 <= y < self.size ==> texts(#[trigger] r@[y]@) == row_tokens(self@, y as u32),
    {
        let displayable = self.get_all_displayable();
        let mut matrix: Vec<Vec<String>> = Vec::new();
        let mut y: u32 = 0;
        while y < self.size
            invariant
                y <= self.size,
                displayable@ == occupants(self@),
                matrix@.len() == y,
                forall|k: int| 0 <= k < y ==> texts(#[trigger] matrix@[k]@) == row_tokens(self@, k as u32),
            decreases self.size - y,
        {
            let mut row: Vec<String> = Vec::new();
            let mut x: u32 = 0;
            while x < self.size
                invariant
                    x <= self.size,
                    row@.len() == x,
                    texts(row@) == blank_row(x as nat),
                decreases self.size - x,
            {
                proof {
                    reveal_strlit("_");
                }
                let blank = String::from_str("_");
                assert(blank@ =~= seq!['_']);
                let ghost old_row = row@;
                row.push(blank);
                assert forall|k: int| 0 <= k < x + 1 implies #[trigger] texts(row@)[k] == blank_row((x + 1) as nat)[k] by {
                    if k < x {
                        assert(row@[k] == old_row[k]);
                        assert(texts(old_row)[k] == blank_row(x as nat)[k]);
                    }
                }
                assert(texts(row@) =~= blank_row((x + 1) as nat));
                x = x + 1;
            }
            let mut i: usize = 0;
            assert(displayable@.take(0) =~= Seq::<Occupant>::empty());
            while i < displayable.len()
                invariant
                    i <= displayable@.len(),
                    texts(row@) == paint(blank_row(self.size as nat), displayable@.take(i as int), y),
                decreases displayable@.len() - i,
            {
                let o = displayable[i];
                let position = o.get_position();
                assert(displayable@.take(i + 1).drop_last() =~= displayable@.take(i as int));
                if position.y == y && (position.x as usize) < row.len() {
                    row[position.x as usize] = o.display();
                    assert(texts(row@) =~= paint(blank_row(self.size as nat), displayable@.take(i + 1), y));
                }
                i = i + 1;
            }
            assert(displayable@.take(i as int) =~= displayable@);
            matrix.push(row);
            y = y + 1;
        }
        matrix
    }

    /// The maze drawn as text: one line per row, tokens separated by single
    /// spaces; dead enemies and exploded bombs are drawn as `_`.
    pub fn to_string(&self) -> (r: String)
        ensures
            r@ == render(self@),
    {
        let matrix = self.to_matrix();
        let mut display = String::new();
        let mut y: usize = 0;
        while y < matrix.len()
            invariant
                y <= matrix@.len(),
                matrix@.len() == self.size,
                forall|k: int| 0 <= k < self.size ==> texts(#[trigger] matrix@[k]@) == row_tokens(self@, k as u32),
                display@ == render_rows(self@, y as nat),
            decreases matrix@.len() - y,
        {
            let row = &matrix[y];
            let ghost tokens = texts(row@);
            let ghost start = display@;
            let mut x: usize = 0;
            while x < row.len()
                invariant
                    x <= row@.len(),
                    tokens == texts(row@),
                    display@ == start + join_tokens(tokens.take(x as int)),
                decreases row@.len() - x,
            {
                proof {
                    reveal_strlit(" ");
                }
                assert(tokens.take(x + 1).drop_last() =~= tokens.take(x as int));
                if x > 0 {
                    display.append(" ");
                }
                display.append(row[x].as_str());
                assert(x == 0 ==> tokens.take(x as int) =~= Seq::<Seq<char>>::empty());
                assert(display@ =~= start + join_tokens(tokens.take(x + 1)));
                x = x + 1;
            }
            assert(tokens.take(x as int) =~= tokens);
            proof {
                reveal_strlit("\n");
            }
            display.append("\n");
            assert(display@ =~= render_rows(self@, (y + 1) as nat));
            y = y + 1;
        }
        display
    }
}

} // verus!
