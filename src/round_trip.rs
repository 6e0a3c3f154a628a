//! Drawing a maze and reading the drawing back gives the same maze.
use vstd::prelude::*;
use crate::bomb::bomb_token;
use crate::enemy::{MAX_HEALTH, enemy_token};
use crate::errors::ErrorView;
use crate::point::Point;
use crate::bomberman::{
    MazeView,
    Occupant,
    add_lines,
    add_square_to,
    add_squares,
    in_maze,
    maze_wf,
    lemma_lines_stop,
    lemma_squares_stop,
    parse_maze,
    read_before,
    blank_row,
    join_tokens,
    line_squares,
    maze_lines,
    occupants,
    paint,
    render,
    render_rows,
    row_tokens,
};
use crate::maze_display::MazeDisplay;
use crate::obstacle::{ObstacleType, obstacle_kind, obstacle_token};
use crate::text::{
    decimal,
    is_digit,
    is_space,
    lemma_decimal_digits,
    lemma_parse_decimal,
    lemma_split_on_len,
    parse_u32,
    lemma_split_on_concat,
    lemma_split_on_none,
    split_on,
    trim,
    trim_end,
    trim_start,
};

verus! {

/// A token that is not empty and holds no whitespace.
pub open spec fn solid(t: Seq<char>) -> bool {
    t.len() > 0 && forall|i: int| 0 <= i < t.len() ==> !is_space(#[trigger] t[i])
}

proof fn lemma_decimal_solid(n: nat)
    ensures
        solid(decimal(n)),
{
    lemma_decimal_digits(n);
    assert forall|i: int| 0 <= i < decimal(n).len() implies !is_space(#[trigger] decimal(n)[i]) by {
        assert(is_digit(decimal(n)[i]));
    }
}

proof fn lemma_tagged_solid(c: char, n: nat)
    requires
        !is_space(c),
    ensures
        solid(seq![c] + decimal(n)),
{
    lemma_decimal_solid(n);
    let t = seq![c] + decimal(n);
    assert forall|i: int| 0 <= i < t.len() implies !is_space(#[trigger] t[i]) by {
        if i > 0 {
            assert(t[i] == decimal(n)[i - 1]);
        }
    }
}

proof fn lemma_token_solid(o: Occupant)
    ensures
        solid(o.token()),
{
    match o {
        Occupant::Enemy(e) => {
            if !(e.state is Dead) {
                lemma_tagged_solid('F', e.health as nat);
            }
        },
        Occupant::Bomb(b) => {
            if !(b.bomb_state is Exploded) {
                if b.bomb_type is Normal {
                    lemma_tagged_solid('B', b.explosion_distance as nat);
                } else {
                    lemma_tagged_solid('S', b.explosion_distance as nat);
                }
            }
        },
        Occupant::Obstacle(ob) => {
            let t = o.token();
            assert forall|i: int| 0 <= i < t.len() implies !is_space(#[trigger] t[i]) by {
                match ob.obstacle_type {
                    ObstacleType::Wall | ObstacleType::Rock => {},
                    _ => {
                        if i == 1 {
                        }
                    },
                }
            }
        },
    }
}

proof fn lemma_paint_solid(row: Seq<Seq<char>>, items: Seq<Occupant>, y: u32)
    requires
        forall|x: int| 0 <= x < row.len() ==> solid(#[trigger] row[x]),
    ensures
        paint(row, items, y).len() == row.len(),
        forall|x: int| 0 <= x < row.len() ==> solid(#[trigger] paint(row, items, y)[x]),
    decreases items.len(),
{
    if items.len() > 0 {
        lemma_paint_solid(row, items.drop_last(), y);
        lemma_token_solid(items.last());
    }
}

proof fn lemma_row_tokens_solid(m: MazeView, y: u32)
    ensures
        row_tokens(m, y).len() == m.size,
        forall|x: int| 0 <= x < m.size ==> solid(#[trigger] row_tokens(m, y)[x]),
{
    let blank = blank_row(m.size as nat);
    assert forall|x: int| 0 <= x < blank.len() implies solid(#[trigger] blank[x]) by {
        assert(blank[x] == seq!['_']);
    }
    lemma_paint_solid(blank, occupants(m), y);
}

/// Solid tokens joined by spaces start and end with a solid character, hold
/// no newline, and cut at the spaces give the tokens back.
proof fn lemma_join_solid(ts: Seq<Seq<char>>)
    requires
        ts.len() >= 1,
        forall|i: int| 0 <= i < ts.len() ==> solid(#[trigger] ts[i]),
    ensures
        join_tokens(ts).len() > 0,
        !is_space(join_tokens(ts)[0]),
        !is_space(join_tokens(ts).last()),
        forall|i: int| 0 <= i < join_tokens(ts).len() ==> #[trigger] join_tokens(ts)[i] != '\n',
        split_on(join_tokens(ts), ' ') == ts,
    decreases ts.len(),
{
    let last = ts.last();
    assert(solid(last));
    assert forall|i: int| 0 <= i < last.len() implies last[i] != ' ' by {
        assert(!is_space(last[i]));
    }
    lemma_split_on_none(last, ' ');
    if ts.len() == 1 {
        assert(ts =~= seq![last]);
        assert(forall|i: int| 0 <= i < last.len() ==> !is_space(#[trigger] last[i]));
    } else {
        let init = ts.drop_last();
        lemma_join_solid(init);
        let j = join_tokens(ts);
        let a = join_tokens(init);
        assert(j == a + seq![' '] + last);
        lemma_split_on_concat(a, last, ' ');
        assert(split_on(j, ' ') =~= ts);
        assert(j[0] == a[0]);
        assert(j.last() == last.last());
        assert forall|i: int| 0 <= i < j.len() implies #[trigger] j[i] != '\n' by {
            if i < a.len() {
                assert(j[i] == a[i]);
            } else if i > a.len() {
                assert(j[i] == last[i - a.len() - 1]);
                assert(!is_space(last[i - a.len() - 1]));
            }
        }
    }
}

/// Text that starts and ends with a solid character is its own trim.
proof fn lemma_trim_solid_ends(s: Seq<char>)
    requires
        s.len() > 0,
        !is_space(s[0]),
        !is_space(s.last()),
    ensures
        trim(s) == s,
{
    assert(trim_start(s) == s);
    assert(trim_end(s) == s);
}

/// Row `y` of the maze as drawn, without its newline.
pub open spec fn drawn_row(m: MazeView, y: int) -> Seq<char> {
    join_tokens(row_tokens(m, y as u32))
}

/// The first `n` drawn rows, separated by newlines.
spec fn drawn_rows(m: MazeView, n: nat) -> Seq<char>
    decreases n,
{
    if n <= 1 {
        drawn_row(m, 0)
    } else {
        drawn_rows(m, (n - 1) as nat) + seq!['\n'] + drawn_row(m, n - 1)
    }
}

proof fn lemma_drawn_rows(m: MazeView, n: nat)
    requires
        1 <= n <= m.size,
    ensures
        render_rows(m, n) == drawn_rows(m, n) + seq!['\n'],
        drawn_rows(m, n).len() > 0,
        !is_space(drawn_rows(m, n)[0]),
        !is_space(drawn_rows(m, n).last()),
        split_on(drawn_rows(m, n), '\n') == Seq::new(n, |y: int| drawn_row(m, y)),
    decreases n,
{
    let y = (n - 1) as int;
    lemma_row_tokens_solid(m, y as u32);
    lemma_join_solid(row_tokens(m, y as u32));
    let r = drawn_row(m, y);
    lemma_split_on_none(r, '\n');
    if n == 1 {
        assert(render_rows(m, 0) =~= Seq::<char>::empty());
        assert(render_rows(m, 1) =~= drawn_rows(m, 1) + seq!['\n']);
        assert(split_on(drawn_rows(m, n), '\n') =~= Seq::new(n, |y: int| drawn_row(m, y)));
    } else {
        lemma_drawn_rows(m, (n - 1) as nat);
        let a = drawn_rows(m, (n - 1) as nat);
        lemma_split_on_concat(a, r, '\n');
        assert(render_rows(m, n) =~= drawn_rows(m, n) + seq!['\n']);
        assert(drawn_rows(m, n)[0] == a[0]);
        assert(drawn_rows(m, n).last() == r.last());
        assert(split_on(drawn_rows(m, n), '\n') =~= Seq::new(n, |y: int| drawn_row(m, y)));
    }
}

/// The drawing of a maze reads as one line per row, and each line as the
/// row's tokens.
proof fn lemma_drawing_lines(m: MazeView)
    requires
        m.size >= 1,
    ensures
        maze_lines(render(m)) == Seq::new(m.size as nat, |y: int| drawn_row(m, y)),
        forall|y: int| 0 <= y < m.size ==> line_squares(#[trigger] drawn_row(m, y)) == row_tokens(m, y as u32),
{
    let n = m.size as nat;
    lemma_drawn_rows(m, n);
    let d = drawn_rows(m, n);
    let t = render(m);
    assert(t == d + seq!['\n']);
    assert(trim_start(t) == t) by {
        assert(t[0] == d[0]);
    }
    assert(t.drop_last() =~= d);
    assert(is_space(t.last()));
    assert(trim_end(t) == trim_end(d));
    lemma_trim_solid_ends(d);
    assert(trim_end(d) == d) by {
        assert(trim_start(d) == d);
    }
    assert forall|y: int| 0 <= y < m.size implies line_squares(#[trigger] drawn_row(m, y)) == row_tokens(m, y as u32) by {
        lemma_row_tokens_solid(m, y as u32);
        lemma_join_solid(row_tokens(m, y as u32));
        lemma_trim_solid_ends(drawn_row(m, y));
    }
}


/// The last of `items` drawn in cell `p`.
pub open spec fn occupant_at(items: Seq<Occupant>, p: Point) -> Option<Occupant>
    decreases items.len(),
{
    if items.len() == 0 {
        None
    } else if items.last().cell() == p {
        Some(items.last())
    } else {
        occupant_at(items.drop_last(), p)
    }
}

/// After drawing, a cell shows the last item drawn in it, or what was there.
proof fn lemma_paint_cell(row: Seq<Seq<char>>, items: Seq<Occupant>, y: u32, x: int)
    requires
        0 <= x < row.len() <= u32::MAX,
    ensures
        paint(row, items, y)[x] == match occupant_at(items, Point { x: x as u32, y }) {
            Some(o) => o.token(),
            None => row[x],
        },
    decreases items.len(),
{
    if items.len() > 0 {
        lemma_paint_solid_len(row, items.drop_last(), y);
        lemma_paint_cell(row, items.drop_last(), y, x);
    }
}

/// Cell `(x, y)` of the drawing shows the token of the last occupant drawn
/// there (enemies first, then bombs, then obstacles), or `_` when there is
/// none.
pub proof fn lemma_drawn_cell(m: MazeView, x: u32, y: u32)
    requires
        x < m.size,
    ensures
        row_tokens(m, y)[x as int] == match occupant_at(occupants(m), Point { x, y }) {
            Some(o) => o.token(),
            None => seq!['_'],
        },
{
    lemma_paint_cell(blank_row(m.size as nat), occupants(m), y, x as int);
}

proof fn lemma_paint_solid_len(row: Seq<Seq<char>>, items: Seq<Occupant>, y: u32)
    ensures
        paint(row, items, y).len() == row.len(),
    decreases items.len(),
{
    if items.len() > 0 {
        lemma_paint_solid_len(row, items.drop_last(), y);
    }
}

proof fn lemma_occupant_at_unique(items: Seq<Occupant>, p: Point, k: int)
    requires
        0 <= k < items.len(),
        items[k].cell() == p,
        forall|j: int| 0 <= j < items.len() && j != k ==> (#[trigger] items[j]).cell() != p,
    ensures
        occupant_at(items, p) == Some(items[k]),
    decreases items.len(),
{
    if k < items.len() - 1 {
        lemma_occupant_at_unique(items.drop_last(), p, k);
    }
}

proof fn lemma_occupant_at_none(items: Seq<Occupant>, p: Point)
    requires
        forall|j: int| 0 <= j < items.len() ==> (#[trigger] items[j]).cell() != p,
    ensures
        occupant_at(items, p) is None,
    decreases items.len(),
{
    if items.len() > 0 {
        lemma_occupant_at_none(items.drop_last(), p);
    }
}

/// The items of `s` read before cell `p`.
pub open spec fn before<A: MazeDisplay>(s: Seq<A>, p: Point) -> Seq<A> {
    s.filter(|a: A| read_before(a.cell(), p))
}

/// The items of `s` stand in the order their cells are read.
pub open spec fn in_read_order<A: MazeDisplay>(s: Seq<A>) -> bool {
    forall|i: int, j: int| 0 <= i < j < s.len() ==> read_before(#[trigger] s[i].cell(), #[trigger] s[j].cell())
}

/// Cell `q` is read right after cell `p`.
pub open spec fn next_cell(p: Point, q: Point) -> bool {
    forall|r: Point| #[trigger] read_before(r, q) == (read_before(r, p) || r == p)
}

proof fn lemma_before_unfold<A: MazeDisplay>(s: Seq<A>, p: Point)
    ensures
        s.len() == 0 ==> before(s, p) == s,
        s.len() > 0 ==> before(s, p) == if read_before(s.last().cell(), p) {
            before(s.drop_last(), p).push(s.last())
        } else {
            before(s.drop_last(), p)
        },
{
    reveal(Seq::filter);
    let f = |a: A| read_before(a.cell(), p);
    assert(before(s, p) == s.filter(f));
    assert(before(s.drop_last(), p) == s.drop_last().filter(f));
    if s.len() > 0 {
        assert(f(s.last()) == read_before(s.last().cell(), p));
        assert(s.filter(f) == (if f(s.last()) {
            s.drop_last().filter(f).push(s.last())
        } else {
            s.drop_last().filter(f)
        }));
    }
}

proof fn lemma_before_same<A: MazeDisplay>(s: Seq<A>, p: Point, q: Point)
    requires
        forall|k: int| 0 <= k < s.len() ==> read_before((#[trigger] s[k]).cell(), p) == read_before(s[k].cell(), q),
    ensures
        before(s, p) == before(s, q),
    decreases s.len(),
{
    lemma_before_unfold(s, p);
    lemma_before_unfold(s, q);
    if s.len() > 0 {
        lemma_before_same(s.drop_last(), p, q);
    }
}

proof fn lemma_before_all<A: MazeDisplay>(s: Seq<A>, p: Point)
    requires
        forall|k: int| 0 <= k < s.len() ==> read_before((#[trigger] s[k]).cell(), p),
    ensures
        before(s, p) == s,
    decreases s.len(),
{
    lemma_before_unfold(s, p);
    if s.len() > 0 {
        lemma_before_all(s.drop_last(), p);
        assert(s.drop_last().push(s.last()) =~= s);
    }
}

proof fn lemma_before_step_miss<A: MazeDisplay>(s: Seq<A>, p: Point, q: Point)
    requires
        next_cell(p, q),
        forall|k: int| 0 <= k < s.len() ==> (#[trigger] s[k]).cell() != p,
    ensures
        before(s, q) == before(s, p),
{
    assert forall|k: int| 0 <= k < s.len() implies read_before((#[trigger] s[k]).cell(), q) == read_before(s[k].cell(), p) by {
        assert(read_before(s[k].cell(), q) == (read_before(s[k].cell(), p) || s[k].cell() == p));
    }
    lemma_before_same(s, q, p);
}

proof fn lemma_before_step_hit<A: MazeDisplay>(s: Seq<A>, p: Point, q: Point, k: int)
    requires
        next_cell(p, q),
        in_read_order(s),
        0 <= k < s.len(),
        s[k].cell() == p,
    ensures
        before(s, q) == before(s, p).push(s[k]),
    decreases s.len(),
{
    let init = s.drop_last();
    let l = s.last();
    lemma_before_unfold(s, p);
    lemma_before_unfold(s, q);
    assert(read_before(l.cell(), q) == (read_before(l.cell(), p) || l.cell() == p));
    if k == s.len() - 1 {
        assert forall|j: int| 0 <= j < init.len() implies (#[trigger] init[j]).cell() != p by {
            assert(read_before(s[j].cell(), s[k].cell()));
        }
        lemma_before_step_miss(init, p, q);
    } else {
        assert(read_before(s[k].cell(), s[s.len() - 1].cell()));
        assert forall|i: int, j: int| 0 <= i < j < init.len() implies read_before(#[trigger] init[i].cell(), #[trigger] init[j].cell()) by {
            assert(read_before(s[i].cell(), s[j].cell()));
        }
        lemma_before_step_hit(init, p, q, k);
    }
}

/// The part of `m` read before cell `p`.
pub open spec fn read_part(m: MazeView, p: Point) -> MazeView {
    MazeView {
        size: m.size,
        enemies: before(m.enemies, p),
        bombs: before(m.bombs, p),
        obstacles: before(m.obstacles, p),
    }
}

/// What holds of a maze read up to cell `p`: it is well formed, its
/// occupants stand in reading order before `p`, and nothing in it has been
/// hit yet.
pub open spec fn read_up_to(m: MazeView, p: Point) -> bool {
    &&& maze_wf(m)
    &&& in_read_order(m.enemies)
    &&& in_read_order(m.bombs)
    &&& in_read_order(m.obstacles)
    &&& forall|i: int| 0 <= i < m.enemies.len() ==> read_before((#[trigger] m.enemies[i]).position, p)
        && m.enemies[i].state is Idle && 0 < m.enemies[i].health <= MAX_HEALTH
    &&& forall|i: int| 0 <= i < m.bombs.len() ==> read_before((#[trigger] m.bombs[i]).position, p)
        && m.bombs[i].bomb_state is Idle && m.bombs[i].explosion_distance > 0
    &&& forall|i: int| 0 <= i < m.obstacles.len() ==> read_before((#[trigger] m.obstacles[i]).position, p)
}


proof fn lemma_add_square_read(m: MazeView, square: Seq<char>, p: Point, q: Point)
    requires
        read_up_to(m, p),
        in_maze(p, m.size),
        next_cell(p, q),
    ensures
        add_square_to(m, square, p) matches Ok(m2) ==> read_up_to(m2, q) && m2.size == m.size,
{
    match add_square_to(m, square, p) {
        Ok(m2) => {
            assert(m2.size == m.size);
            assert forall|r: Point| read_before(r, p) implies read_before(r, q) && r != p by {
                assert(read_before(r, q) == (read_before(r, p) || r == p));
            }
            assert(read_before(p, q));
            if m2.enemies.len() > m.enemies.len() {
                assert(m2.enemies == m.enemies.push(m2.enemies.last()));
                assert(m2.bombs == m.bombs && m2.obstacles == m.obstacles);
            } else if m2.bombs.len() > m.bombs.len() {
                assert(m2.bombs == m.bombs.push(m2.bombs.last()));
                assert(m2.enemies == m.enemies && m2.obstacles == m.obstacles);
            } else if m2.obstacles.len() > m.obstacles.len() {
                assert(m2.obstacles == m.obstacles.push(m2.obstacles.last()));
                assert(m2.enemies == m.enemies && m2.bombs == m.bombs);
            } else {
                assert(m2 == m);
            }
        },
        Err(_) => {},
    }
}

proof fn lemma_add_squares_read(m: MazeView, squares: Seq<Seq<char>>, y: u32)
    requires
        read_up_to(m, Point { x: 0, y }),
        y < m.size,
        squares.len() <= m.size,
    ensures
        add_squares(m, squares, y) matches Ok(m2) ==> read_up_to(
            m2,
            Point { x: squares.len() as u32, y },
        ) && m2.size == m.size,
    decreases squares.len(),
{
    if squares.len() > 0 {
        let n = squares.len() - 1;
        lemma_add_squares_read(m, squares.drop_last(), y);
        let p = Point { x: n as u32, y };
        let q = Point { x: squares.len() as u32, y };
        assert forall|r: Point| #[trigger] read_before(r, q) == (read_before(r, p) || r == p) by {}
        match add_squares(m, squares.drop_last(), y) {
            Ok(m1) => {
                lemma_add_square_read(m1, squares.last(), p, q);
            },
            Err(_) => {},
        }
    }
}

proof fn lemma_add_lines_read(lines: Seq<Seq<char>>, size: u32)
    requires
        lines.len() <= size,
    ensures
        add_lines(lines, size) matches Ok(m) ==> read_up_to(
            m,
            Point { x: 0, y: lines.len() as u32 },
        ) && m.size == size,
    decreases lines.len(),
{
    if lines.len() > 0 {
        let y = (lines.len() - 1) as u32;
        lemma_add_lines_read(lines.drop_last(), size);
        match add_lines(lines.drop_last(), size) {
            Ok(m) => {
                let squares = line_squares(lines.last());
                if squares.len() == size {
                    lemma_add_squares_read(m, squares, y);
                    match add_squares(m, squares, y) {
                        Ok(m2) => {
                            let end = Point { x: squares.len() as u32, y };
                            let next = Point { x: 0, y: lines.len() as u32 };
                            assert forall|r: Point| read_before(r, end) implies read_before(r, next) by {}
                        },
                        Err(_) => {},
                    }
                }
            },
            Err(_) => {},
        }
    } else {
        assert(forall|r: Point| !read_before(r, Point { x: 0, y: 0 }));
    }
}

proof fn lemma_trim_len(s: Seq<char>)
    ensures
        trim(s).len() <= s.len(),
{
    lemma_trim_start_len(s);
    lemma_trim_end_len(trim_start(s));
}

proof fn lemma_trim_start_len(s: Seq<char>)
    ensures
        trim_start(s).len() <= s.len(),
    decreases s.len(),
{
    if s.len() > 0 {
        lemma_trim_start_len(s.drop_first());
    }
}

proof fn lemma_trim_end_len(s: Seq<char>)
    ensures
        trim_end(s).len() <= s.len(),
    decreases s.len(),
{
    if s.len() > 0 {
        lemma_trim_end_len(s.drop_last());
    }
}

/// A maze read from text is well formed, its occupants stand in reading
/// order, and nothing in it has been hit yet.
proof fn lemma_parse_read(text: Seq<char>)
    requires
        text.len() < u32::MAX,
        parse_maze(text) is Ok,
    ensures
        parse_maze(text) matches Ok(m) && m.size >= 1 && m.size == maze_lines(text).len()
            && read_up_to(m, Point { x: 0, y: m.size }),
{
    let lines = maze_lines(text);
    lemma_trim_len(text);
    lemma_split_on_len(trim(text), '\n');
    lemma_add_lines_read(lines, lines.len() as u32);
}


proof fn lemma_before_none<A: MazeDisplay>(s: Seq<A>, p: Point)
    requires
        forall|k: int| 0 <= k < s.len() ==> !read_before((#[trigger] s[k]).cell(), p),
    ensures
        before(s, p) == Seq::<A>::empty(),
    decreases s.len(),
{
    lemma_before_unfold(s, p);
    if s.len() > 0 {
        lemma_before_none(s.drop_last(), p);
    }
}

proof fn lemma_occupants_index(m: MazeView, j: int)
    requires
        0 <= j < occupants(m).len(),
    ensures
        occupants(m).len() == m.enemies.len() + m.bombs.len() + m.obstacles.len(),
        occupants(m)[j] == if j < m.enemies.len() {
            Occupant::Enemy(m.enemies[j])
        } else if j < m.enemies.len() + m.bombs.len() {
            Occupant::Bomb(m.bombs[j - m.enemies.len()])
        } else {
            Occupant::Obstacle(m.obstacles[j - m.enemies.len() - m.bombs.len()])
        },
{
}

/// Each cell of the drawing of a freshly read maze reads back as what the
/// maze holds in that cell.
proof fn lemma_cell_reads_back(m: MazeView, x: u32, y: u32)
    requires
        read_up_to(m, Point { x: 0, y: m.size }),
        x < m.size,
        y < m.size,
    ensures
        add_square_to(read_part(m, Point { x, y }), row_tokens(m, y)[x as int], Point { x, y })
            == Ok::<MazeView, ErrorView>(read_part(m, Point { x: (x + 1) as u32, y })),
{
    let p = Point { x, y };
    let q = Point { x: (x + 1) as u32, y };
    let items = occupants(m);
    let ne = m.enemies.len();
    let nb = m.bombs.len();
    assert forall|r: Point| #[trigger] read_before(r, q) == (read_before(r, p) || r == p) by {}
    lemma_paint_cell(blank_row(m.size as nat), items, y, x as int);
    let token = row_tokens(m, y)[x as int];
    let part = read_part(m, p);
    if exists|i: int| 0 <= i < ne && m.enemies[i].position == p {
        let i = choose|i: int| 0 <= i < ne && m.enemies[i].position == p;
        let e = m.enemies[i];
        assert forall|j: int| 0 <= j < items.len() && j != i implies (#[trigger] items[j]).cell() != p by {
            lemma_occupants_index(m, j);
            if j < ne {
                if j < i {
                    assert(m.enemies[j].position != m.enemies[i].position);
                } else {
                    assert(m.enemies[i].position != m.enemies[j].position);
                }
            } else if j < ne + nb {
                assert(m.enemies[i].position != m.bombs[j - ne].position);
            } else {
                assert(m.enemies[i].position != m.obstacles[j - ne - nb].position);
            }
        }
        lemma_occupants_index(m, i);
        lemma_occupant_at_unique(items, p, i);
        assert(token == enemy_token(e));
        lemma_parse_decimal(e.health);
        assert(token.drop_first() =~= decimal(e.health as nat));
        assert forall|k: int| 0 <= k < nb implies (#[trigger] m.bombs[k]).cell() != p by {
            assert(m.enemies[i].position != m.bombs[k].position);
        }
        assert forall|k: int| 0 <= k < m.obstacles.len() implies (#[trigger] m.obstacles[k]).cell() != p by {
            assert(m.enemies[i].position != m.obstacles[k].position);
        }
        assert(m.enemies[i].cell() == p);
        lemma_before_step_hit(m.enemies, p, q, i);
        lemma_before_step_miss(m.bombs, p, q);
        lemma_before_step_miss(m.obstacles, p, q);
    } else if exists|i: int| 0 <= i < nb && m.bombs[i].position == p {
        let i = choose|i: int| 0 <= i < nb && m.bombs[i].position == p;
        let b = m.bombs[i];
        assert forall|j: int| 0 <= j < items.len() && j != ne + i implies (#[trigger] items[j]).cell() != p by {
            lemma_occupants_index(m, j);
            if j < ne {
            } else if j < ne + nb {
                if j - ne < i {
                    assert(m.bombs[j - ne].position != m.bombs[i].position);
                } else {
                    assert(m.bombs[i].position != m.bombs[j - ne].position);
                }
            } else {
                assert(m.bombs[i].position != m.obstacles[j - ne - nb].position);
            }
        }
        lemma_occupants_index(m, ne + i);
        lemma_occupant_at_unique(items, p, ne + i);
        assert(token == bomb_token(b));
        lemma_parse_decimal(b.explosion_distance);
        assert(token.drop_first() =~= decimal(b.explosion_distance as nat));
        assert forall|k: int| 0 <= k < ne implies (#[trigger] m.enemies[k]).cell() != p by {}
        assert forall|k: int| 0 <= k < m.obstacles.len() implies (#[trigger] m.obstacles[k]).cell() != p by {
            assert(m.bombs[i].position != m.obstacles[k].position);
        }
        assert(m.bombs[i].cell() == p);
        lemma_before_step_hit(m.bombs, p, q, i);
        lemma_before_step_miss(m.enemies, p, q);
        lemma_before_step_miss(m.obstacles, p, q);
    } else if exists|i: int| 0 <= i < m.obstacles.len() && m.obstacles[i].position == p {
        let i = choose|i: int| 0 <= i < m.obstacles.len() && m.obstacles[i].position == p;
        let o = m.obstacles[i];
        assert forall|j: int| 0 <= j < items.len() && j != ne + nb + i implies (#[trigger] items[j]).cell() != p by {
            lemma_occupants_index(m, j);
            if j < ne + nb {
            } else {
                let k = j - ne - nb;
                if k < i {
                    assert(m.obstacles[k].position != m.obstacles[i].position);
                } else {
                    assert(m.obstacles[i].position != m.obstacles[k].position);
                }
            }
        }
        lemma_occupants_index(m, ne + nb + i);
        lemma_occupant_at_unique(items, p, ne + nb + i);
        assert(token == obstacle_token(o.obstacle_type));
        assert forall|k: int| 0 <= k < ne implies (#[trigger] m.enemies[k]).cell() != p by {}
        assert forall|k: int| 0 <= k < nb implies (#[trigger] m.bombs[k]).cell() != p by {}
        assert(m.obstacles[i].cell() == p);
        lemma_before_step_hit(m.obstacles, p, q, i);
        lemma_before_step_miss(m.enemies, p, q);
        lemma_before_step_miss(m.bombs, p, q);
    } else {
        assert forall|j: int| 0 <= j < items.len() implies (#[trigger] items[j]).cell() != p by {
            lemma_occupants_index(m, j);
        }
        lemma_occupant_at_none(items, p);
        assert(token == seq!['_']);
        assert forall|k: int| 0 <= k < ne implies (#[trigger] m.enemies[k]).cell() != p by {}
        assert forall|k: int| 0 <= k < nb implies (#[trigger] m.bombs[k]).cell() != p by {}
        assert forall|k: int| 0 <= k < m.obstacles.len() implies (#[trigger] m.obstacles[k]).cell() != p by {}
        lemma_before_step_miss(m.enemies, p, q);
        lemma_before_step_miss(m.bombs, p, q);
        lemma_before_step_miss(m.obstacles, p, q);
    }
}


proof fn lemma_row_reads_back(m: MazeView, y: u32, x: nat)
    requires
        read_up_to(m, Point { x: 0, y: m.size }),
        y < m.size,
        x <= m.size,
    ensures
        add_squares(read_part(m, Point { x: 0, y }), row_tokens(m, y).take(x as int), y) == Ok::<
            MazeView,
            ErrorView,
        >(read_part(m, Point { x: x as u32, y })),
    decreases x,
{
    let row = row_tokens(m, y);
    lemma_row_tokens_solid(m, y);
    if x == 0 {
        assert(row.take(0) =~= Seq::<Seq<char>>::empty());
    } else {
        lemma_row_reads_back(m, y, (x - 1) as nat);
        assert(row.take(x as int).drop_last() =~= row.take(x - 1));
        assert(row.take(x as int).last() == row[x - 1]);
        lemma_cell_reads_back(m, (x - 1) as u32, y);
    }
}

proof fn lemma_lines_read_back(m: MazeView, n: nat)
    requires
        read_up_to(m, Point { x: 0, y: m.size }),
        n <= m.size,
    ensures
        add_lines(Seq::new(m.size as nat, |y: int| drawn_row(m, y)).take(n as int), m.size)
            == Ok::<MazeView, ErrorView>(read_part(m, Point { x: 0, y: n as u32 })),
    decreases n,
{
    let lines = Seq::new(m.size as nat, |y: int| drawn_row(m, y));
    let p0 = Point { x: 0, y: n as u32 };
    if n == 0 {
        assert(lines.take(0) =~= Seq::<Seq<char>>::empty());
        assert forall|r: Point| !read_before(r, p0) by {}
        lemma_before_none(m.enemies, p0);
        lemma_before_none(m.bombs, p0);
        lemma_before_none(m.obstacles, p0);
    } else {
        let y = (n - 1) as u32;
        lemma_lines_read_back(m, (n - 1) as nat);
        assert(lines.take(n as int).drop_last() =~= lines.take(n - 1));
        assert(lines.take(n as int).last() == drawn_row(m, y as int));
        lemma_drawing_lines_row(m, y);
        lemma_row_tokens_solid(m, y);
        lemma_row_reads_back(m, y, m.size as nat);
        assert(row_tokens(m, y).take(m.size as int) =~= row_tokens(m, y));
        let end = Point { x: m.size, y };
        assert forall|k: int| 0 <= k < m.enemies.len() implies read_before((#[trigger] m.enemies[k]).cell(), end)
            == read_before(m.enemies[k].cell(), p0) by {
            assert(in_maze(m.enemies[k].position, m.size));
        }
        assert forall|k: int| 0 <= k < m.bombs.len() implies read_before((#[trigger] m.bombs[k]).cell(), end)
            == read_before(m.bombs[k].cell(), p0) by {
            assert(in_maze(m.bombs[k].position, m.size));
        }
        assert forall|k: int| 0 <= k < m.obstacles.len() implies read_before((#[trigger] m.obstacles[k]).cell(), end)
            == read_before(m.obstacles[k].cell(), p0) by {
            assert(in_maze(m.obstacles[k].position, m.size));
        }
        lemma_before_same(m.enemies, end, p0);
        lemma_before_same(m.bombs, end, p0);
        lemma_before_same(m.obstacles, end, p0);
    }
}

proof fn lemma_drawing_lines_row(m: MazeView, y: u32)
    requires
        y < m.size,
    ensures
        line_squares(drawn_row(m, y as int)) == row_tokens(m, y),
{
    lemma_row_tokens_solid(m, y);
    lemma_join_solid(row_tokens(m, y));
    lemma_trim_solid_ends(drawn_row(m, y as int));
}

/// Reading a maze, drawing it, and reading the drawing gives the same maze:
/// the same side, and the same enemies, bombs and obstacles in the same
/// cells and order. Tokens come back in their plain form (`F03` as `F3`).
pub proof fn lemma_read_draw_read(text: Seq<char>)
    requires
        text.len() < u32::MAX,
        parse_maze(text) is Ok,
    ensures
        parse_maze(text) matches Ok(m) && parse_maze(render(m)) == Ok::<
            MazeView,
            ErrorView,
        >(m),
{
    lemma_parse_read(text);
    let m = parse_maze(text)->Ok_0;
    let n = m.size;
    lemma_drawing_lines(m);
    let lines = Seq::new(n as nat, |y: int| drawn_row(m, y));
    assert(maze_lines(render(m)) == lines);
    assert(lines.take(n as int) =~= lines);
    lemma_lines_read_back(m, n as nat);
    let end = Point { x: 0, y: n };
    assert forall|k: int| 0 <= k < m.enemies.len() implies read_before((#[trigger] m.enemies[k]).cell(), end) by {}
    assert forall|k: int| 0 <= k < m.bombs.len() implies read_before((#[trigger] m.bombs[k]).cell(), end) by {}
    assert forall|k: int| 0 <= k < m.obstacles.len() implies read_before((#[trigger] m.obstacles[k]).cell(), end) by {}
    lemma_before_all(m.enemies, end);
    lemma_before_all(m.bombs, end);
    lemma_before_all(m.obstacles, end);
}


/// `m` is `s` with occupants added after it, none of them in a cell read
/// before `p`.
spec fn grows_from(s: MazeView, m: MazeView, p: Point) -> bool {
    &&& m.size == s.size
    &&& s.enemies.len() <= m.enemies.len()
    &&& m.enemies.take(s.enemies.len() as int) == s.enemies
    &&& forall|i: int|
        s.enemies.len() <= i < m.enemies.len() ==> !read_before((#[trigger] m.enemies[i]).position, p)
    &&& s.bombs.len() <= m.bombs.len()
    &&& m.bombs.take(s.bombs.len() as int) == s.bombs
    &&& forall|i: int|
        s.bombs.len() <= i < m.bombs.len() ==> !read_before((#[trigger] m.bombs[i]).position, p)
    &&& s.obstacles.len() <= m.obstacles.len()
    &&& m.obstacles.take(s.obstacles.len() as int) == s.obstacles
    &&& forall|i: int|
        s.obstacles.len() <= i < m.obstacles.len() ==> !read_before(
            (#[trigger] m.obstacles[i]).position,
            p,
        )
}

proof fn lemma_grows_refl(s: MazeView, p: Point)
    ensures
        grows_from(s, s, p),
{
    assert(s.enemies.take(s.enemies.len() as int) =~= s.enemies);
    assert(s.bombs.take(s.bombs.len() as int) =~= s.bombs);
    assert(s.obstacles.take(s.obstacles.len() as int) =~= s.obstacles);
}

proof fn lemma_grows_trans(a: MazeView, b: MazeView, c: MazeView, p: Point, q: Point)
    requires
        grows_from(a, b, p),
        grows_from(b, c, q),
        forall|r: Point| read_before(r, p) ==> read_before(r, q),
    ensures
        grows_from(a, c, p),
{
    assert(c.enemies.take(a.enemies.len() as int) =~= b.enemies.take(a.enemies.len() as int));
    assert(c.bombs.take(a.bombs.len() as int) =~= b.bombs.take(a.bombs.len() as int));
    assert(c.obstacles.take(a.obstacles.len() as int) =~= b.obstacles.take(a.obstacles.len() as int));
    assert forall|i: int| a.enemies.len() <= i < c.enemies.len() implies !read_before((#[trigger] c.enemies[i]).position, p) by {
        if i < b.enemies.len() {
            assert(c.enemies[i] == c.enemies.take(b.enemies.len() as int)[i]);
        }
    }
    assert forall|i: int| a.bombs.len() <= i < c.bombs.len() implies !read_before((#[trigger] c.bombs[i]).position, p) by {
        if i < b.bombs.len() {
            assert(c.bombs[i] == c.bombs.take(b.bombs.len() as int)[i]);
        }
    }
    assert forall|i: int| a.obstacles.len() <= i < c.obstacles.len() implies !read_before((#[trigger] c.obstacles[i]).position, p) by {
        if i < b.obstacles.len() {
            assert(c.obstacles[i] == c.obstacles.take(b.obstacles.len() as int)[i]);
        }
    }
}

/// Adding a square at `p` only adds occupants in cell `p`.
proof fn lemma_add_square_grows(s: MazeView, square: Seq<char>, p: Point, q: Point)
    requires
        add_square_to(s, square, p) is Ok,
        !read_before(p, q),
    ensures
        grows_from(s, add_square_to(s, square, p)->Ok_0, q),
{
    let m = add_square_to(s, square, p)->Ok_0;
    lemma_grows_refl(s, q);
    assert(m.enemies.take(s.enemies.len() as int) =~= s.enemies);
    assert(m.bombs.take(s.bombs.len() as int) =~= s.bombs);
    assert(m.obstacles.take(s.obstacles.len() as int) =~= s.obstacles);
}

proof fn lemma_squares_grow(m0: MazeView, squares: Seq<Seq<char>>, y: u32, k: int)
    requires
        0 <= k <= squares.len() <= u32::MAX,
        add_squares(m0, squares, y) is Ok,
        add_squares(m0, squares.take(k), y) is Ok,
    ensures
        grows_from(
            add_squares(m0, squares.take(k), y)->Ok_0,
            add_squares(m0, squares, y)->Ok_0,
            Point { x: k as u32, y },
        ),
    decreases squares.len(),
{
    if k == squares.len() {
        assert(squares.take(k) =~= squares);
        lemma_grows_refl(add_squares(m0, squares, y)->Ok_0, Point { x: k as u32, y });
    } else {
        let init = squares.drop_last();
        assert(init.take(k) =~= squares.take(k));
        lemma_squares_grow(m0, init, y, k);
        let s1 = add_squares(m0, init, y)->Ok_0;
        let p = Point { x: (squares.len() - 1) as u32, y };
        lemma_add_square_grows(s1, squares.last(), p, Point { x: k as u32, y });
        lemma_grows_trans(
            add_squares(m0, squares.take(k), y)->Ok_0,
            s1,
            add_squares(m0, squares, y)->Ok_0,
            Point { x: k as u32, y },
            Point { x: k as u32, y },
        );
    }
}

proof fn lemma_lines_grow(lines: Seq<Seq<char>>, size: u32, k: int)
    requires
        0 <= k <= lines.len() <= u32::MAX,
        add_lines(lines, size) is Ok,
        add_lines(lines.take(k), size) is Ok,
    ensures
        grows_from(
            add_lines(lines.take(k), size)->Ok_0,
            add_lines(lines, size)->Ok_0,
            Point { x: 0, y: k as u32 },
        ),
    decreases lines.len(),
{
    let p = Point { x: 0, y: k as u32 };
    if k == lines.len() {
        assert(lines.take(k) =~= lines);
        lemma_grows_refl(add_lines(lines, size)->Ok_0, p);
    } else {
        let init = lines.drop_last();
        assert(init.take(k) =~= lines.take(k));
        lemma_lines_grow(init, size, k);
        let s1 = add_lines(init, size)->Ok_0;
        let y = (lines.len() - 1) as u32;
        let squares = line_squares(lines.last());
        lemma_row_start(s1, squares, y);
        let row_start = Point { x: 0, y };
        lemma_squares_grow(s1, squares, y, 0);
        assert(squares.take(0) =~= Seq::<Seq<char>>::empty());
        lemma_grows_trans(add_lines(lines.take(k), size)->Ok_0, s1, add_lines(lines, size)->Ok_0, p, row_start);
    }
}

proof fn lemma_row_start(s: MazeView, squares: Seq<Seq<char>>, y: u32)
    ensures
        add_squares(s, squares.take(0), y) == Ok::<MazeView, ErrorView>(s),
{
    assert(squares.take(0) =~= Seq::<Seq<char>>::empty());
}

/// A maze that grew from `s` after cell `p` holds `s` as its part read
/// before `p`.
proof fn lemma_read_part_of_growth(s: MazeView, m: MazeView, p: Point)
    requires
        grows_from(s, m, p),
        read_up_to(s, p),
    ensures
        read_part(m, p) == s,
{
    let ne = s.enemies.len() as int;
    let nb = s.bombs.len() as int;
    let no = s.obstacles.len() as int;
    assert(m.enemies =~= s.enemies + m.enemies.skip(ne));
    assert(m.bombs =~= s.bombs + m.bombs.skip(nb));
    assert(m.obstacles =~= s.obstacles + m.obstacles.skip(no));
    lemma_before_concat(s.enemies, m.enemies.skip(ne), p);
    lemma_before_concat(s.bombs, m.bombs.skip(nb), p);
    lemma_before_concat(s.obstacles, m.obstacles.skip(no), p);
    lemma_before_all(s.enemies, p);
    lemma_before_all(s.bombs, p);
    lemma_before_all(s.obstacles, p);
    assert forall|k: int| 0 <= k < m.enemies.skip(ne).len() implies !read_before((#[trigger] m.enemies.skip(ne)[k]).cell(), p) by {
        assert(m.enemies.skip(ne)[k] == m.enemies[k + ne]);
    }
    assert forall|k: int| 0 <= k < m.bombs.skip(nb).len() implies !read_before((#[trigger] m.bombs.skip(nb)[k]).cell(), p) by {
        assert(m.bombs.skip(nb)[k] == m.bombs[k + nb]);
    }
    assert forall|k: int| 0 <= k < m.obstacles.skip(no).len() implies !read_before((#[trigger] m.obstacles.skip(no)[k]).cell(), p) by {
        assert(m.obstacles.skip(no)[k] == m.obstacles[k + no]);
    }
    lemma_before_none(m.enemies.skip(ne), p);
    lemma_before_none(m.bombs.skip(nb), p);
    lemma_before_none(m.obstacles.skip(no), p);
    assert(read_part(m, p).enemies =~= s.enemies);
    assert(read_part(m, p).bombs =~= s.bombs);
    assert(read_part(m, p).obstacles =~= s.obstacles);
}

proof fn lemma_before_concat<A: MazeDisplay>(a: Seq<A>, b: Seq<A>, p: Point)
    ensures
        before(a + b, p) == before(a, p) + before(b, p),
{
    let f = |x: A| read_before(x.cell(), p);
    Seq::filter_distributes_over_add(a, b, f);
}


/// A square in plain form: a number after `F`, `B` or `S` is written without
/// sign or leading zeros; any other square is unchanged.
pub open spec fn plain_square(a: Seq<char>) -> Seq<char> {
    if a.len() > 0 && (a[0] == 'F' || a[0] == 'B' || a[0] == 'S') {
        match parse_u32(a.drop_first()) {
            Some(n) => seq![a[0]] + decimal(n as nat),
            None => a,
        }
    } else {
        a
    }
}

/// Whatever square was read in a cell of a freshly read maze, the drawing
/// shows that square in plain form.
proof fn lemma_drawn_is_plain(m: MazeView, x: u32, y: u32, a: Seq<char>)
    requires
        read_up_to(m, Point { x: 0, y: m.size }),
        x < m.size,
        y < m.size,
        add_square_to(read_part(m, Point { x, y }), a, Point { x, y }) == Ok::<
            MazeView,
            ErrorView,
        >(read_part(m, Point { x: (x + 1) as u32, y })),
    ensures
        row_tokens(m, y)[x as int] == plain_square(a),
{
    let p = Point { x, y };
    let q = Point { x: (x + 1) as u32, y };
    let items = occupants(m);
    let ne = m.enemies.len();
    let nb = m.bombs.len();
    assert forall|r: Point| #[trigger] read_before(r, q) == (read_before(r, p) || r == p) by {}
    lemma_paint_cell(blank_row(m.size as nat), items, y, x as int);
    let token = row_tokens(m, y)[x as int];
    let part = read_part(m, p);
    let next = read_part(m, q);
    if exists|i: int| 0 <= i < ne && m.enemies[i].position == p {
        let i = choose|i: int| 0 <= i < ne && m.enemies[i].position == p;
        let e = m.enemies[i];
        assert forall|j: int| 0 <= j < items.len() && j != i implies (#[trigger] items[j]).cell() != p by {
            lemma_occupants_index(m, j);
            if j < ne {
                if j < i {
                    assert(m.enemies[j].position != m.enemies[i].position);
                } else {
                    assert(m.enemies[i].position != m.enemies[j].position);
                }
            } else if j < ne + nb {
                assert(m.enemies[i].position != m.bombs[j - ne].position);
            } else {
                assert(m.enemies[i].position != m.obstacles[j - ne - nb].position);
            }
        }
        lemma_occupants_index(m, i);
        lemma_occupant_at_unique(items, p, i);
        assert forall|k: int| 0 <= k < nb implies (#[trigger] m.bombs[k]).cell() != p by {
            assert(m.enemies[i].position != m.bombs[k].position);
        }
        assert forall|k: int| 0 <= k < m.obstacles.len() implies (#[trigger] m.obstacles[k]).cell() != p by {
            assert(m.enemies[i].position != m.obstacles[k].position);
        }
        assert(m.enemies[i].cell() == p);
        lemma_before_step_hit(m.enemies, p, q, i);
        lemma_before_step_miss(m.bombs, p, q);
        lemma_before_step_miss(m.obstacles, p, q);
        assert(next.enemies.len() == part.enemies.len() + 1);
        assert(a.len() > 0 && a[0] == 'F');
        assert(next.enemies.last() == e);
        assert(token =~= plain_square(a));
    } else if exists|i: int| 0 <= i < nb && m.bombs[i].position == p {
        let i = choose|i: int| 0 <= i < nb && m.bombs[i].position == p;
        let b = m.bombs[i];
        assert forall|j: int| 0 <= j < items.len() && j != ne + i implies (#[trigger] items[j]).cell() != p by {
            lemma_occupants_index(m, j);
            if j < ne {
            } else if j < ne + nb {
                if j - ne < i {
                    assert(m.bombs[j - ne].position != m.bombs[i].position);
                } else {
                    assert(m.bombs[i].position != m.bombs[j - ne].position);
                }
            } else {
                assert(m.bombs[i].position != m.obstacles[j - ne - nb].position);
            }
        }
        lemma_occupants_index(m, ne + i);
        lemma_occupant_at_unique(items, p, ne + i);
        assert forall|k: int| 0 <= k < ne implies (#[trigger] m.enemies[k]).cell() != p by {}
        assert forall|k: int| 0 <= k < m.obstacles.len() implies (#[trigger] m.obstacles[k]).cell() != p by {
            assert(m.bombs[i].position != m.obstacles[k].position);
        }
        assert(m.bombs[i].cell() == p);
        lemma_before_step_hit(m.bombs, p, q, i);
        lemma_before_step_miss(m.enemies, p, q);
        lemma_before_step_miss(m.obstacles, p, q);
        assert(next.bombs.len() == part.bombs.len() + 1);
        assert(a.len() > 0 && (a[0] == 'B' || a[0] == 'S'));
        assert(next.bombs.last() == b);
        assert(token =~= plain_square(a));
    } else if exists|i: int| 0 <= i < m.obstacles.len() && m.obstacles[i].position == p {
        let i = choose|i: int| 0 <= i < m.obstacles.len() && m.obstacles[i].position == p;
        let o = m.obstacles[i];
        assert forall|j: int| 0 <= j < items.len() && j != ne + nb + i implies (#[trigger] items[j]).cell() != p by {
            lemma_occupants_index(m, j);
            if j < ne + nb {
            } else {
                let k = j - ne - nb;
                if k < i {
                    assert(m.obstacles[k].position != m.obstacles[i].position);
                } else {
                    assert(m.obstacles[i].position != m.obstacles[k].position);
                }
            }
        }
        lemma_occupants_index(m, ne + nb + i);
        lemma_occupant_at_unique(items, p, ne + nb + i);
        assert forall|k: int| 0 <= k < ne implies (#[trigger] m.enemies[k]).cell() != p by {}
        assert forall|k: int| 0 <= k < nb implies (#[trigger] m.bombs[k]).cell() != p by {}
        assert(m.obstacles[i].cell() == p);
        lemma_before_step_hit(m.obstacles, p, q, i);
        lemma_before_step_miss(m.enemies, p, q);
        lemma_before_step_miss(m.bombs, p, q);
        assert(next.obstacles.len() == part.obstacles.len() + 1);
        assert(next.obstacles.last() == o);
        assert(token == obstacle_token(o.obstacle_type));
        assert(token =~= plain_square(a));
    } else {
        assert forall|j: int| 0 <= j < items.len() implies (#[trigger] items[j]).cell() != p by {
            lemma_occupants_index(m, j);
        }
        lemma_occupant_at_none(items, p);
        assert forall|k: int| 0 <= k < ne implies (#[trigger] m.enemies[k]).cell() != p by {}
        assert forall|k: int| 0 <= k < nb implies (#[trigger] m.bombs[k]).cell() != p by {}
        assert forall|k: int| 0 <= k < m.obstacles.len() implies (#[trigger] m.obstacles[k]).cell() != p by {}
        lemma_before_step_miss(m.enemies, p, q);
        lemma_before_step_miss(m.bombs, p, q);
        lemma_before_step_miss(m.obstacles, p, q);
        assert(next == part);
        assert(a == seq!['_']);
        assert(token =~= plain_square(a));
    }
}


/// In a maze read from `text`, reading the square of cell `(x, y)` turns
/// the part read before that cell into the part read before the next one.
proof fn lemma_text_cell_step(text: Seq<char>, x: u32, y: u32)
    requires
        text.len() < u32::MAX,
        parse_maze(text) is Ok,
        x < parse_maze(text)->Ok_0.size,
        y < parse_maze(text)->Ok_0.size,
    ensures
        add_square_to(
            read_part(parse_maze(text)->Ok_0, Point { x, y }),
            line_squares(maze_lines(text)[y as int])[x as int],
            Point { x, y },
        ) == Ok::<MazeView, ErrorView>(
            read_part(parse_maze(text)->Ok_0, Point { x: (x + 1) as u32, y }),
        ),
{
    lemma_parse_read(text);
    let m = parse_maze(text)->Ok_0;
    let n = m.size;
    let lines = maze_lines(text);
    let yi = y as int;
    let squares = line_squares(lines[yi]);
    let p = Point { x, y };
    let q = Point { x: (x + 1) as u32, y };
    if add_lines(lines.take(yi), n) is Err {
        lemma_lines_stop(lines, n, yi);
    }
    if add_lines(lines.take(yi + 1), n) is Err {
        lemma_lines_stop(lines, n, yi + 1);
    }
    let row_start = add_lines(lines.take(yi), n)->Ok_0;
    let row_end = add_lines(lines.take(yi + 1), n)->Ok_0;
    assert(lines.take(yi + 1).drop_last() =~= lines.take(yi));
    assert(lines.take(yi + 1).last() == lines[yi]);
    assert(squares.len() == n);
    assert(row_end == add_squares(row_start, squares, y)->Ok_0);
    let xi = x as int;
    if add_squares(row_start, squares.take(xi), y) is Err {
        lemma_squares_stop(row_start, squares, y, xi);
    }
    if add_squares(row_start, squares.take(xi + 1), y) is Err {
        lemma_squares_stop(row_start, squares, y, xi + 1);
    }
    let here = add_squares(row_start, squares.take(xi), y)->Ok_0;
    let after = add_squares(row_start, squares.take(xi + 1), y)->Ok_0;
    assert(squares.take(xi + 1).drop_last() =~= squares.take(xi));
    assert(squares.take(xi + 1).last() == squares[xi]);
    lemma_add_lines_read(lines.take(yi), n);
    lemma_add_squares_read(row_start, squares.take(xi), y);
    lemma_add_squares_read(row_start, squares.take(xi + 1), y);
    lemma_squares_grow(row_start, squares, y, xi);
    lemma_squares_grow(row_start, squares, y, xi + 1);
    lemma_lines_grow(lines, n, yi + 1);
    let next_row = Point { x: 0, y: (y + 1) as u32 };
    lemma_grows_trans(here, row_end, m, p, next_row);
    lemma_grows_trans(after, row_end, m, q, next_row);
    lemma_read_part_of_growth(here, m, p);
    lemma_read_part_of_growth(after, m, q);
}

/// Reading a maze and drawing it writes each square in its plain form: the
/// token drawn in cell `(x, y)` is the square read there, with the number
/// of an enemy or a bomb written without sign or leading zeros.
pub proof fn lemma_drawing_shows_plain_squares(text: Seq<char>)
    requires
        text.len() < u32::MAX,
        parse_maze(text) is Ok,
    ensures
        parse_maze(text) matches Ok(m) && forall|x: u32, y: u32|
            x < m.size && y < m.size ==> #[trigger] row_tokens(m, y)[x as int] == plain_square(
                line_squares(maze_lines(text)[y as int])[x as int],
            ),
{
    lemma_parse_read(text);
    let m = parse_maze(text)->Ok_0;
    assert forall|x: u32, y: u32| x < m.size && y < m.size implies #[trigger] row_tokens(m, y)[x as int]
        == plain_square(line_squares(maze_lines(text)[y as int])[x as int]) by {
        lemma_text_cell_step(text, x, y);
        lemma_drawn_is_plain(m, x, y, line_squares(maze_lines(text)[y as int])[x as int]);
    }
}

/// Rows of tokens written as text: tokens separated by single spaces, each
/// row ended by a newline.
pub open spec fn rows_text(rows: Seq<Seq<Seq<char>>>) -> Seq<char>
    decreases rows.len(),
{
    if rows.len() == 0 {
        seq![]
    } else {
        rows_text(rows.drop_last()) + join_tokens(rows.last()) + seq!['\n']
    }
}

/// The squares of a maze text, row by row.
pub open spec fn text_squares(text: Seq<char>) -> Seq<Seq<Seq<char>>> {
    maze_lines(text).map_values(|line: Seq<char>| line_squares(line))
}

proof fn lemma_render_rows_text(m: MazeView, n: nat)
    requires
        n <= m.size,
    ensures
        render_rows(m, n) == rows_text(Seq::new(n, |y: int| row_tokens(m, y as u32))),
    decreases n,
{
    if n > 0 {
        lemma_render_rows_text(m, (n - 1) as nat);
        assert(Seq::new(n, |y: int| row_tokens(m, y as u32)).drop_last() =~= Seq::new(
            (n - 1) as nat,
            |y: int| row_tokens(m, y as u32),
        ));
    }
}

/// A maze text already written as the maze is drawn, plain squares
/// separated by single spaces and every row ended by a newline, is drawn
/// back as itself.
pub proof fn lemma_drawing_of_plain_text(text: Seq<char>)
    requires
        text.len() < u32::MAX,
        parse_maze(text) is Ok,
        text == rows_text(text_squares(text)),
        forall|y: int, x: int|
            0 <= y < text_squares(text).len() && 0 <= x < text_squares(text)[y].len() ==> plain_square(
                #[trigger] text_squares(text)[y][x],
            ) == text_squares(text)[y][x],
    ensures
        parse_maze(text) matches Ok(m) && render(m) == text,
{
    lemma_drawing_shows_plain_squares(text);
    lemma_parse_read(text);
    let m = parse_maze(text)->Ok_0;
    let n = m.size as nat;
    let squares = text_squares(text);
    lemma_render_rows_text(m, n);
    let drawn = Seq::new(n, |y: int| row_tokens(m, y as u32));
    assert forall|y: int| 0 <= y < n implies #[trigger] drawn[y] == squares[y] by {
        lemma_row_tokens_solid(m, y as u32);
        if add_lines(maze_lines(text).take(y + 1), m.size) is Err {
            lemma_lines_stop(maze_lines(text), m.size, y + 1);
        }
        assert(maze_lines(text).take(y + 1).drop_last() =~= maze_lines(text).take(y));
        assert(maze_lines(text).take(y + 1).last() == maze_lines(text)[y]);
        if add_lines(maze_lines(text).take(y), m.size) is Err {
            lemma_lines_stop(maze_lines(text), m.size, y);
        }
        assert(squares[y].len() == m.size);
        assert forall|x: int| 0 <= x < n implies drawn[y][x] == squares[y][x] by {
            assert(row_tokens(m, y as u32)[(x as u32) as int] == plain_square(
                line_squares(maze_lines(text)[(y as u32) as int])[(x as u32) as int],
            ));
        }
        assert(drawn[y] =~= squares[y]);
    }
    assert(drawn =~= squares);
}


/// A square that reading accepts and drawing writes back unchanged: `_`,
/// `F` with a health from 1 to 3, `B` or `S` with a reach above zero, each
/// number written without sign or leading zeros, or an obstacle.
pub open spec fn plain_valid_square(t: Seq<char>) -> bool {
    ||| t == seq!['_']
    ||| (t.len() > 0 && (t[0] == 'F' || t[0] == 'B' || t[0] == 'S') && (parse_u32(t.drop_first())
        matches Some(n) && t.drop_first() == decimal(n as nat) && n > 0 && (t[0] == 'F' ==> n
        <= MAX_HEALTH)))
    ||| obstacle_kind(t) is Some
}

proof fn lemma_plain_valid_square(m: MazeView, t: Seq<char>, p: Point)
    requires
        plain_valid_square(t),
    ensures
        add_square_to(m, t, p) is Ok,
        plain_square(t) == t,
        solid(t),
{
    if t.len() > 0 && (t[0] == 'F' || t[0] == 'B' || t[0] == 'S') && parse_u32(t.drop_first()) is Some
        && t.drop_first() == decimal(parse_u32(t.drop_first())->Some_0 as nat) {
        let n = parse_u32(t.drop_first())->Some_0;
        assert(t =~= seq![t[0]] + decimal(n as nat));
        lemma_tagged_solid(t[0], n as nat);
    } else if obstacle_kind(t) is Some {
        assert(solid(t));
    } else {
        assert(t == seq!['_']);
        assert(solid(t));
    }
}

proof fn lemma_plain_squares_read(m: MazeView, squares: Seq<Seq<char>>, y: u32)
    requires
        forall|x: int| 0 <= x < squares.len() ==> plain_valid_square(#[trigger] squares[x]),
    ensures
        add_squares(m, squares, y) is Ok,
    decreases squares.len(),
{
    if squares.len() > 0 {
        lemma_plain_squares_read(m, squares.drop_last(), y);
        let m1 = add_squares(m, squares.drop_last(), y)->Ok_0;
        lemma_plain_valid_square(m1, squares.last(), Point { x: (squares.len() - 1) as u32, y });
    }
}

/// Rows of tokens separated by newlines, without a final newline.
spec fn rows_body(rows: Seq<Seq<Seq<char>>>) -> Seq<char>
    decreases rows.len(),
{
    if rows.len() <= 1 {
        join_tokens(rows[0])
    } else {
        rows_body(rows.drop_last()) + seq!['\n'] + join_tokens(rows.last())
    }
}

proof fn lemma_rows_body(rows: Seq<Seq<Seq<char>>>)
    requires
        rows.len() >= 1,
        forall|y: int| 0 <= y < rows.len() ==> (#[trigger] rows[y]).len() >= 1,
        forall|y: int, x: int| 0 <= y < rows.len() && 0 <= x < rows[y].len() ==> solid(#[trigger] rows[y][x]),
    ensures
        rows_text(rows) == rows_body(rows) + seq!['\n'],
        rows_body(rows).len() > 0,
        !is_space(rows_body(rows)[0]),
        !is_space(rows_body(rows).last()),
        split_on(rows_body(rows), '\n') == rows.map_values(|r: Seq<Seq<char>>| join_tokens(r)),
        rows_text(rows).len() >= rows.len(),
    decreases rows.len(),
{
    let last = rows.last();
    assert forall|x: int| 0 <= x < last.len() implies solid(#[trigger] last[x]) by {
        assert(solid(rows[rows.len() - 1][x]));
    }
    lemma_join_solid(last);
    lemma_split_on_none(join_tokens(last), '\n');
    if rows.len() == 1 {
        assert(rows.drop_last() =~= Seq::<Seq<Seq<char>>>::empty());
        assert(rows_text(rows.drop_last()) =~= Seq::<char>::empty());
        assert(rows_text(rows) =~= rows_body(rows) + seq!['\n']);
        assert(split_on(rows_body(rows), '\n') =~= rows.map_values(|r: Seq<Seq<char>>| join_tokens(r)));
    } else {
        let init = rows.drop_last();
        assert forall|y: int, x: int| 0 <= y < init.len() && 0 <= x < init[y].len() implies solid(#[trigger] init[y][x]) by {
            assert(solid(rows[y][x]));
        }
        lemma_rows_body(init);
        let a = rows_body(init);
        lemma_split_on_concat(a, join_tokens(last), '\n');
        assert(rows_text(rows) =~= rows_body(rows) + seq!['\n']);
        assert(rows_body(rows)[0] == a[0]);
        assert(rows_body(rows).last() == join_tokens(last).last());
        assert(split_on(rows_body(rows), '\n') =~= rows.map_values(|r: Seq<Seq<char>>| join_tokens(r)));
    }
}

/// A maze written as `N` rows of `N` plain valid squares, separated by
/// single spaces, each row ended by a newline, is read as a maze, and that
/// maze is drawn back as the same text.
pub proof fn lemma_plain_maze_text(rows: Seq<Seq<Seq<char>>>)
    requires
        rows.len() >= 1,
        rows_text(rows).len() < u32::MAX,
        forall|y: int| 0 <= y < rows.len() ==> (#[trigger] rows[y]).len() == rows.len(),
        forall|y: int, x: int|
            0 <= y < rows.len() && 0 <= x < rows[y].len() ==> plain_valid_square(#[trigger] rows[y][x]),
    ensures
        parse_maze(rows_text(rows)) matches Ok(m) && render(m) == rows_text(rows),
{
    let text = rows_text(rows);
    let n = rows.len();
    assert forall|y: int, x: int| 0 <= y < n && 0 <= x < rows[y].len() implies solid(#[trigger] rows[y][x]) by {
        lemma_plain_valid_square(MazeView { size: 0, enemies: seq![], bombs: seq![], obstacles: seq![] }, rows[y][x], Point { x: 0, y: 0 });
    }
    lemma_rows_body(rows);
    let body = rows_body(rows);
    assert(text.drop_last() =~= body);
    assert(trim_start(text) == text) by {
        assert(text[0] == body[0]);
    }
    assert(trim_end(text) == trim_end(body));
    lemma_trim_solid_ends(body);
    assert(trim_end(body) == body) by {
        assert(trim_start(body) == body);
    }
    let lines = maze_lines(text);
    assert(lines == rows.map_values(|r: Seq<Seq<char>>| join_tokens(r)));
    assert forall|y: int| 0 <= y < n implies line_squares(#[trigger] lines[y]) == rows[y] by {
        assert forall|x: int| 0 <= x < rows[y].len() implies solid(#[trigger] rows[y][x]) by {}
        lemma_join_solid(rows[y]);
        lemma_trim_solid_ends(join_tokens(rows[y]));
    }
    assert(text_squares(text) =~= rows);
    lemma_plain_lines_read(lines, rows, n as u32, n as int);
    assert(lines.take(n as int) =~= lines);
    assert forall|y: int, x: int|
        0 <= y < text_squares(text).len() && 0 <= x < text_squares(text)[y].len() implies plain_square(
            #[trigger] text_squares(text)[y][x],
        ) == text_squares(text)[y][x] by {
        lemma_plain_valid_square(MazeView { size: 0, enemies: seq![], bombs: seq![], obstacles: seq![] }, rows[y][x], Point { x: 0, y: 0 });
    }
    lemma_drawing_of_plain_text(text);
}

proof fn lemma_plain_lines_read(
    lines: Seq<Seq<char>>,
    rows: Seq<Seq<Seq<char>>>,
    size: u32,
    k: int,
)
    requires
        0 <= k <= lines.len(),
        lines.len() == rows.len(),
        forall|y: int| 0 <= y < lines.len() ==> line_squares(#[trigger] lines[y]) == rows[y],
        forall|y: int| 0 <= y < rows.len() ==> (#[trigger] rows[y]).len() == size,
        forall|y: int, x: int|
            0 <= y < rows.len() && 0 <= x < rows[y].len() ==> plain_valid_square(#[trigger] rows[y][x]),
    ensures
        add_lines(lines.take(k), size) is Ok,
    decreases k,
{
    if k > 0 {
        lemma_plain_lines_read(lines, rows, size, k - 1);
        assert(lines.take(k).drop_last() =~= lines.take(k - 1));
        assert(lines.take(k).last() == lines[k - 1]);
        let m = add_lines(lines.take(k - 1), size)->Ok_0;
        assert forall|x: int| 0 <= x < rows[k - 1].len() implies plain_valid_square(#[trigger] rows[k - 1][x]) by {}
        lemma_plain_squares_read(m, rows[k - 1], (k - 1) as u32);
    } else {
        assert(lines.take(0) =~= Seq::<Seq<char>>::empty());
    }
}

} // verus!
