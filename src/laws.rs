use vstd::prelude::*;

use crate::counting::{hazard_pred, lemma_grid_count_all};
use crate::game_model::{lemma_reveal_wf, set_cell, Board, State};
use crate::grid::{
    all_hazards_flagged, all_safe_open, around_visible, inside, shaped, touching, won, zero_chain,
    zero_link, zero_reached, zero_spread, Cell,
};
use crate::cascade::{chain, link};

verus! {

/// Opening a hidden hazard loses the round and reveals nothing.
pub proof fn lemma_open_hazard_loses(b: Board, r: int, c: int)
    requires
        b.wf(),
        b.touchable(r, c),
        !b.cells[r][c].is_safe,
    ensures
        b.after_open(r, c).state == State::Lose,
        forall|i: int, j: int|
            inside(b.rows as int, b.cols as int, i, j) ==> (#[trigger] b.after_open(r, c).cells[i][j]).is_visible
                == b.cells[i][j].is_visible,
{
}

/// Along a chain of safe cells with no hazard around them, a board on which
/// revealed empty cells have their neighbours revealed shows the chain's end
/// once it shows its start.
proof fn lemma_zero_chain_visible(
    g0: Seq<Seq<Cell>>,
    g: Seq<Seq<Cell>>,
    rows: int,
    cols: int,
    sr: int,
    sc: int,
    path: Seq<(int, int)>,
)
    requires
        zero_chain(g0, rows, cols, sr, sc, path),
        g[sr][sc].is_visible,
        zero_spread(g, rows, cols),
        forall|i: int, j: int|
            inside(rows, cols, i, j) ==> (#[trigger] g[i][j]).mines_count == g0[i][j].mines_count,
    ensures
        g[path.last().0][path.last().1].is_visible,
    decreases path.len(),
{
    if path.len() > 1 {
        let prev = path.drop_last();
        assert forall|i: int| 0 <= i < prev.len() - 1 implies #[trigger] zero_link(
            g0,
            rows,
            cols,
            prev,
            i,
        ) by {
            assert(zero_link(g0, rows, cols, path, i));
        }
        lemma_zero_chain_visible(g0, g, rows, cols, sr, sc, prev);
        let n = path.len() - 2;
        assert(zero_link(g0, rows, cols, path, n));
        let (qr, qc) = path[n];
        let (pr, pc) = path[n + 1];
        assert(around_visible(g, rows, cols, qr, qc));
        assert(touching(qr, qc, pr, pc));
    }
}

/// Opening a hidden safe cell reveals exactly the cells reached from it
/// through a chain of safe cells with no hazard around them, numbered
/// border included, besides those revealed before; no hazard is ever
/// revealed.
pub proof fn lemma_open_reveals_region(b: Board, r: int, c: int)
    requires
        b.wf(),
        b.touchable(r, c),
        b.cells[r][c].is_safe,
    ensures
        b.after_open(r, c).wf(),
        forall|i: int, j: int|
            inside(b.rows as int, b.cols as int, i, j) ==> ((#[trigger] b.after_open(
                r,
                c,
            ).cells[i][j]).is_visible <==> b.cells[i][j].is_visible || zero_reached(
                b.cells,
                b.rows as int,
                b.cols as int,
                r,
                c,
                i,
                j,
            )),
        forall|i: int, j: int|
            inside(b.rows as int, b.cols as int, i, j) && (#[trigger] b.after_open(
                r,
                c,
            ).cells[i][j]).is_visible ==> b.cells[i][j].is_safe,
{
    let rows = b.rows as int;
    let cols = b.cols as int;
    lemma_reveal_wf(b, r, c);
    let a = b.after_open(r, c);
    let start = seq![(r, c)];
    assert(chain(b.cells, rows, cols, r, c, start) && start.last() == (r, c));
    assert(b.cells[r].len() == cols);
    assert(a.cells[r][c].is_visible);
    assert forall|i: int, j: int| inside(rows, cols, i, j) implies (#[trigger] a.cells[i][j]).mines_count
        == b.cells[i][j].mines_count by {
        assert(b.cells[i].len() == cols);
    }
    assert forall|i: int, j: int| inside(rows, cols, i, j) implies ((#[trigger] a.cells[i][j]).is_visible
        <==> b.cells[i][j].is_visible || zero_reached(b.cells, rows, cols, r, c, i, j)) by {
        assert(b.cells[i].len() == cols);
        if zero_reached(b.cells, rows, cols, r, c, i, j) {
            let path = choose|path: Seq<(int, int)>|
                #[trigger] zero_chain(b.cells, rows, cols, r, c, path) && path.last() == (i, j);
            lemma_zero_chain_visible(b.cells, a.cells, rows, cols, r, c, path);
        }
        if a.cells[i][j].is_visible && !b.cells[i][j].is_visible {
            let path = choose|path: Seq<(int, int)>|
                #[trigger] chain(b.cells, rows, cols, r, c, path) && path.last() == (i, j);
            assert forall|k: int| 0 <= k < path.len() - 1 implies #[trigger] zero_link(
                b.cells,
                rows,
                cols,
                path,
                k,
            ) by {
                assert(link(b.cells, rows, cols, path, k));
            }
            assert(zero_chain(b.cells, rows, cols, r, c, path));
        }
    }
    assert forall|i: int, j: int|
        inside(rows, cols, i, j) && (#[trigger] a.cells[i][j]).is_visible implies b.cells[i][j].is_safe by {
        assert(b.cells[i].len() == cols);
    }
}

/// A flag that leaves every hazard flagged wins the round.
pub proof fn lemma_flag_all_hazards_wins(b: Board, r: int, c: int)
    requires
        b.wf(),
        b.touchable(r, c),
        all_hazards_flagged(b.after_flag(r, c).cells, b.rows as int, b.cols as int),
    ensures
        b.after_flag(r, c).state == State::Win,
{
}

/// An opening that leaves every safe cell revealed and unflagged wins the
/// round, whatever flags stand on the hazards.
pub proof fn lemma_open_all_safe_wins(b: Board, r: int, c: int)
    requires
        b.wf(),
        b.touchable(r, c),
        b.cells[r][c].is_safe,
        all_safe_open(b.after_open(r, c).cells, b.rows as int, b.cols as int),
    ensures
        b.after_open(r, c).state == State::Win,
{
}

/// Once a round is won or lost, opening and flagging change nothing.
pub proof fn lemma_finished_round_is_frozen(b: Board, r: int, c: int)
    requires
        b.state != State::InProgress,
    ensures
        b.after_open(r, c) == b,
        b.after_flag(r, c) == b,
{
}

/// The game after flagging each listed position in turn.
pub open spec fn after_flags(b: Board, moves: Seq<(int, int)>) -> Board
    decreases moves.len(),
{
    if moves.len() == 0 {
        b
    } else {
        after_flags(b, moves.drop_last()).after_flag(moves.last().0, moves.last().1)
    }
}

/// The moves name distinct hazards of the board, and every hazard is named.
pub open spec fn names_every_hazard(b: Board, moves: Seq<(int, int)>) -> bool {
    &&& moves.no_duplicates()
    &&& forall|k: int|
        0 <= k < moves.len() ==> inside(b.rows as int, b.cols as int, #[trigger] moves[k].0, moves[k].1)
            && !b.cells[moves[k].0][moves[k].1].is_safe
    &&& forall|i: int, j: int|
        inside(b.rows as int, b.cols as int, i, j) && !(#[trigger] b.cells[i][j]).is_safe
            ==> moves.contains((i, j))
}

/// Flagging the hazards one by one, and no other cell, on a fresh round
/// with a safe cell: the round goes on until the last hazard is flagged,
/// and that flag wins it.
pub proof fn lemma_flagging_every_hazard_wins(b: Board, moves: Seq<(int, int)>, k: int)
    requires
        b.is_fresh(b.rows, b.cols, b.mines),
        b.mines < b.rows * b.cols,
        names_every_hazard(b, moves),
        moves.len() > 0,
        0 <= k <= moves.len(),
    ensures
        k < moves.len() ==> after_flags(b, moves.take(k)).state == State::InProgress,
        k == moves.len() ==> after_flags(b, moves).state == State::Win,
{
    let rows = b.rows as int;
    let cols = b.cols as int;
    if forall|i: int, j: int| inside(rows, cols, i, j) ==> !(#[trigger] b.cells[i][j]).is_safe {
        assert forall|i: int, j: int| inside(rows, cols, i, j) implies hazard_pred()(
            #[trigger] b.cells[i][j],
        ) by {}
        lemma_grid_count_all(b.cells, rows, cols, hazard_pred());
    }
    let (si, sj) = choose|i: int, j: int| inside(rows, cols, i, j) && (#[trigger] b.cells[i][j]).is_safe;
    lemma_flags_prefix(b, moves, k, si, sj);
    assert(moves.take(moves.len() as int) =~= moves);
}

/// `a` is `b` with flags on exactly the positions of `p`.
spec fn flagged_at(b: Board, a: Board, p: Seq<(int, int)>) -> bool {
    &&& a.rows == b.rows
    &&& a.cols == b.cols
    &&& shaped(a.cells, b.rows as int, b.cols as int)
    &&& forall|i: int, j: int|
        inside(b.rows as int, b.cols as int, i, j) ==> #[trigger] a.cells[i][j] == (Cell {
            is_flagged: p.contains((i, j)),
            ..b.cells[i][j]
        })
}

/// After the first `k` flags, exactly those cells carry a flag, and the
/// round is won just when every hazard is flagged.
proof fn lemma_flags_prefix(b: Board, moves: Seq<(int, int)>, k: int, si: int, sj: int)
    requires
        b.is_fresh(b.rows, b.cols, b.mines),
        names_every_hazard(b, moves),
        moves.len() > 0,
        0 <= k <= moves.len(),
        inside(b.rows as int, b.cols as int, si, sj),
        b.cells[si][sj].is_safe,
    ensures
        flagged_at(b, after_flags(b, moves.take(k)), moves.take(k)),
        after_flags(b, moves.take(k)).state == if k == moves.len() {
            State::Win
        } else {
            State::InProgress
        },
    decreases k,
{
    if k == 0 {
        lemma_flags_none(b, moves, si, sj);
    } else {
        lemma_flags_prefix(b, moves, k - 1, si, sj);
        lemma_flags_step(b, moves, k, si, sj);
    }
}

proof fn lemma_flags_none(b: Board, moves: Seq<(int, int)>, si: int, sj: int)
    requires
        b.is_fresh(b.rows, b.cols, b.mines),
        names_every_hazard(b, moves),
        moves.len() > 0,
        inside(b.rows as int, b.cols as int, si, sj),
        b.cells[si][sj].is_safe,
    ensures
        flagged_at(b, after_flags(b, moves.take(0)), moves.take(0)),
        after_flags(b, moves.take(0)).state == if 0 == moves.len() {
            State::Win
        } else {
            State::InProgress
        },
{
    let rows = b.rows as int;
    let cols = b.cols as int;
    let e = moves.take(0);
    assert(e =~= Seq::<(int, int)>::empty());
    assert(after_flags(b, e) == b);
    assert forall|i: int, j: int| inside(rows, cols, i, j) implies #[trigger] b.cells[i][j] == (Cell {
        is_flagged: e.contains((i, j)),
        ..b.cells[i][j]
    }) by {
        assert(!e.contains((i, j)));
    }
}

/// Flagging one more position `(r, c)`, not yet flagged, flags exactly `q`.
proof fn lemma_flag_one_more(
    b: Board,
    a: Board,
    p: Seq<(int, int)>,
    q: Seq<(int, int)>,
    r: int,
    c: int,
)
    requires
        flagged_at(b, a, p),
        q == p.push((r, c)),
        inside(b.rows as int, b.cols as int, r, c),
        !p.contains((r, c)),
    ensures
        ({
            let cell = a.cells[r][c];
            let g = set_cell(a.cells, r, c, Cell { is_flagged: !cell.is_flagged, ..cell });
            &&& shaped(g, b.rows as int, b.cols as int)
            &&& forall|i: int, j: int|
                inside(b.rows as int, b.cols as int, i, j) ==> #[trigger] g[i][j] == (Cell {
                    is_flagged: q.contains((i, j)),
                    ..b.cells[i][j]
                })
        }),
{
    let rows = b.rows as int;
    let cols = b.cols as int;
    let cell = a.cells[r][c];
    let g = set_cell(a.cells, r, c, Cell { is_flagged: !cell.is_flagged, ..cell });
    assert forall|i: int| 0 <= i < rows implies #[trigger] g[i].len() == cols by {
        assert(a.cells[i].len() == cols);
    }
    assert forall|i: int, j: int| inside(rows, cols, i, j) implies #[trigger] g[i][j] == (Cell {
        is_flagged: q.contains((i, j)),
        ..b.cells[i][j]
    }) by {
        assert(a.cells[i].len() == cols);
        assert(a.cells[i][j] == (Cell { is_flagged: p.contains((i, j)), ..b.cells[i][j] }));
        if q.contains((i, j)) && (i, j) != (r, c) {
            let t = choose|t: int| 0 <= t < q.len() && q[t] == (i, j);
            assert(p[t] == (i, j));
        }
        if p.contains((i, j)) {
            let t = choose|t: int| 0 <= t < p.len() && p[t] == (i, j);
            assert(q[t] == (i, j));
        }
        if (i, j) == (r, c) {
            assert(q[p.len() as int] == (i, j));
        }
    }
}

proof fn lemma_flags_step(b: Board, moves: Seq<(int, int)>, k: int, si: int, sj: int)
    requires
        b.is_fresh(b.rows, b.cols, b.mines),
        names_every_hazard(b, moves),
        moves.len() > 0,
        0 < k <= moves.len(),
        inside(b.rows as int, b.cols as int, si, sj),
        b.cells[si][sj].is_safe,
        flagged_at(b, after_flags(b, moves.take(k - 1)), moves.take(k - 1)),
        after_flags(b, moves.take(k - 1)).state == State::InProgress,
    ensures
        flagged_at(b, after_flags(b, moves.take(k)), moves.take(k)),
        after_flags(b, moves.take(k)).state == if k == moves.len() {
            State::Win
        } else {
            State::InProgress
        },
{
    let rows = b.rows as int;
    let cols = b.cols as int;
    let p = moves.take(k - 1);
    let q = moves.take(k);
    assert(q.drop_last() =~= p);
    assert(q =~= p.push(moves[k - 1]));
    assert(q.last() == moves[k - 1]);
    let a = after_flags(b, p);
    let (r, c) = moves[k - 1];
    assert(inside(rows, cols, r, c));
    assert(!p.contains((r, c))) by {
        if p.contains((r, c)) {
            let i = choose|i: int| 0 <= i < p.len() && p[i] == (r, c);
            assert(moves[i] == moves[k - 1]);
        }
    }
    assert(a.cells[r][c] == (Cell { is_flagged: false, ..b.cells[r][c] }));
    assert(a.touchable(r, c));
    let n = after_flags(b, q);
    let cell = a.cells[r][c];
    let g = set_cell(a.cells, r, c, Cell { is_flagged: !cell.is_flagged, ..cell });
    assert(n == a.judged(g));
    lemma_flag_one_more(b, a, p, q, r, c);
    lemma_flags_state(b, moves, k, g, si, sj);
}

/// With flags on exactly the first `k` moves, the board shows a won round
/// just when all moves are made.
proof fn lemma_flags_state(
    b: Board,
    moves: Seq<(int, int)>,
    k: int,
    g: Seq<Seq<Cell>>,
    si: int,
    sj: int,
)
    requires
        names_every_hazard(b, moves),
        0 < k <= moves.len(),
        inside(b.rows as int, b.cols as int, si, sj),
        b.cells[si][sj].is_safe,
        !b.cells[si][sj].is_visible,
        forall|i: int, j: int|
            inside(b.rows as int, b.cols as int, i, j) ==> #[trigger] g[i][j] == (Cell {
                is_flagged: moves.take(k).contains((i, j)),
                ..b.cells[i][j]
            }),
    ensures
        won(g, b.rows as int, b.cols as int) == (k == moves.len()),
{
    let rows = b.rows as int;
    let cols = b.cols as int;
    let q = moves.take(k);
    assert(g[si][sj] == (Cell { is_flagged: q.contains((si, sj)), ..b.cells[si][sj] }));
    assert(!all_safe_open(g, rows, cols));
    if k == moves.len() {
        assert(q =~= moves);
        assert forall|i: int, j: int|
            inside(rows, cols, i, j) && !(#[trigger] g[i][j]).is_safe implies g[i][j].is_flagged by {
            assert(!b.cells[i][j].is_safe);
            assert(moves.contains((i, j)));
        }
        assert(all_hazards_flagged(g, rows, cols));
    } else {
        let (hr, hc) = moves[moves.len() - 1];
        assert(!q.contains((hr, hc))) by {
            if q.contains((hr, hc)) {
                let t = choose|t: int| 0 <= t < q.len() && q[t] == (hr, hc);
                assert(moves[t] == moves[moves.len() - 1]);
            }
        }
        assert(inside(rows, cols, hr, hc));
        assert(g[hr][hc] == (Cell { is_flagged: q.contains((hr, hc)), ..b.cells[hr][hc] }));
        assert(!all_hazards_flagged(g, rows, cols));
    }
}


/// The game after opening each listed position in turn.
pub open spec fn after_opens(b: Board, moves: Seq<(int, int)>) -> Board
    decreases moves.len(),
{
    if moves.len() == 0 {
        b
    } else {
        after_opens(b, moves.drop_last()).after_open(moves.last().0, moves.last().1)
    }
}

/// The moves name safe cells only, and every safe cell is named.
pub open spec fn names_every_safe_cell(b: Board, moves: Seq<(int, int)>) -> bool {
    &&& forall|k: int|
        0 <= k < moves.len() ==> inside(b.rows as int, b.cols as int, #[trigger] moves[k].0, moves[k].1)
            && b.cells[moves[k].0][moves[k].1].is_safe
    &&& forall|i: int, j: int|
        inside(b.rows as int, b.cols as int, i, j) && (#[trigger] b.cells[i][j]).is_safe
            ==> moves.contains((i, j))
}

/// No safe cell carries a flag.
pub open spec fn no_stray_flags(g: Seq<Seq<Cell>>, rows: int, cols: int) -> bool {
    forall|i: int, j: int|
        inside(rows, cols, i, j) && (#[trigger] g[i][j]).is_safe ==> !g[i][j].is_flagged
}

/// Opening every safe cell in turn, with no flag on a safe cell, wins a
/// round in which a safe cell was still hidden, whatever flags stand on the
/// hazards.
pub proof fn lemma_opening_every_safe_cell_wins(b: Board, moves: Seq<(int, int)>)
    requires
        b.wf(),
        b.state == State::InProgress,
        !all_safe_open(b.cells, b.rows as int, b.cols as int),
        no_stray_flags(b.cells, b.rows as int, b.cols as int),
        names_every_safe_cell(b, moves),
    ensures
        after_opens(b, moves).state == State::Win,
{
    lemma_opens_prefix(b, moves, moves.len() as int);
    assert(moves.take(moves.len() as int) =~= moves);
    let a = after_opens(b, moves);
    let rows = b.rows as int;
    let cols = b.cols as int;
    if a.state != State::Win {
        assert forall|i: int, j: int|
            inside(rows, cols, i, j) && (#[trigger] a.cells[i][j]).is_safe implies a.cells[i][j].is_visible
            && !a.cells[i][j].is_flagged by {
            assert(moves.contains((i, j)));
            let t = choose|t: int| 0 <= t < moves.len() && moves[t] == (i, j);
            assert(moves[t] == (i, j));
        }
        assert(all_safe_open(a.cells, rows, cols));
    }
}

/// What holds after the first `k` openings.
spec fn opens_so_far(b: Board, moves: Seq<(int, int)>, k: int, a: Board) -> bool {
    &&& a.wf()
    &&& a.rows == b.rows
    &&& a.cols == b.cols
    &&& forall|i: int, j: int|
        inside(b.rows as int, b.cols as int, i, j) ==> (#[trigger] a.cells[i][j]).is_safe
            == b.cells[i][j].is_safe
    &&& no_stray_flags(a.cells, b.rows as int, b.cols as int)
    &&& (a.state == State::Win || (a.state == State::InProgress && !all_safe_open(
        a.cells,
        b.rows as int,
        b.cols as int,
    ) && forall|t: int| 0 <= t < k ==> a.cells[#[trigger] moves[t].0][moves[t].1].is_visible))
}

proof fn lemma_opens_prefix(b: Board, moves: Seq<(int, int)>, k: int)
    requires
        b.wf(),
        b.state == State::InProgress,
        !all_safe_open(b.cells, b.rows as int, b.cols as int),
        no_stray_flags(b.cells, b.rows as int, b.cols as int),
        names_every_safe_cell(b, moves),
        0 <= k <= moves.len(),
    ensures
        opens_so_far(b, moves, k, after_opens(b, moves.take(k))),
    decreases k,
{
    if k == 0 {
        assert(moves.take(0) =~= Seq::<(int, int)>::empty());
        assert(after_opens(b, moves.take(0)) == b);
    } else {
        lemma_opens_prefix(b, moves, k - 1);
        let p = moves.take(k - 1);
        let q = moves.take(k);
        assert(q.drop_last() =~= p);
        assert(q.last() == moves[k - 1]);
        let a = after_opens(b, p);
        let (r, c) = moves[k - 1];
        lemma_open_step(b, moves, k, a, r, c);
    }
}

proof fn lemma_open_step(b: Board, moves: Seq<(int, int)>, k: int, a: Board, r: int, c: int)
    requires
        names_every_safe_cell(b, moves),
        0 < k <= moves.len(),
        (r, c) == moves[k - 1],
        opens_so_far(b, moves, k - 1, a),
    ensures
        opens_so_far(b, moves, k, a.after_open(r, c)),
{
    let rows = b.rows as int;
    let cols = b.cols as int;
    let n = a.after_open(r, c);
    assert(moves[k - 1].0 == r && moves[k - 1].1 == c);
    assert(inside(rows, cols, r, c) && b.cells[r][c].is_safe);
    if a.state == State::InProgress && !a.cells[r][c].is_visible {
        lemma_open_reveals_region(a, r, c);
        let start = seq![(r, c)];
        assert(zero_chain(a.cells, rows, cols, r, c, start) && start.last() == (r, c));
        assert forall|i: int, j: int| inside(rows, cols, i, j) implies (#[trigger] n.cells[i][j]).is_safe
            == a.cells[i][j].is_safe && (a.cells[i][j].is_visible ==> n.cells[i][j].is_visible) && (
        !n.cells[i][j].is_visible ==> n.cells[i][j] == a.cells[i][j]) by {
            assert(a.cells[i].len() == cols);
        }
        assert forall|t: int| 0 <= t < k implies n.cells[#[trigger] moves[t].0][moves[t].1].is_visible by {
            if t < k - 1 {
                assert(a.cells[moves[t].0][moves[t].1].is_visible);
            }
        }
    }
}

} // verus!
