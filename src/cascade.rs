use vstd::prelude::*;

use crate::grid::{
    Cell, adjacent_cells, all_neighbours, grid_of, inside, put, revealed, shaped, touching,
};
use crate::counting::{hidden_pred, hidden_total, lemma_grid_count_diff};

verus! {

/// A cell through which a reveal spreads on: on the board, safe, hidden, and
/// with no hazard around it.
pub open spec fn expandable(g: Seq<Seq<Cell>>, rows: int, cols: int, r: int, c: int) -> bool {
    &&& inside(rows, cols, r, c)
    &&& g[r][c].is_safe
    &&& !g[r][c].is_visible
    &&& g[r][c].mines_count == 0
}

/// Step `i` of the path goes from an expandable cell to a safe cell next to it.
pub open spec fn link(g: Seq<Seq<Cell>>, rows: int, cols: int, path: Seq<(int, int)>, i: int) -> bool {
    &&& expandable(g, rows, cols, path[i].0, path[i].1)
    &&& touching(path[i].0, path[i].1, path[i + 1].0, path[i + 1].1)
    &&& inside(rows, cols, path[i + 1].0, path[i + 1].1)
    &&& g[path[i + 1].0][path[i + 1].1].is_safe
}

/// A path from (sr, sc) along which a reveal spreads.
pub open spec fn chain(g: Seq<Seq<Cell>>, rows: int, cols: int, sr: int, sc: int, path: Seq<(int, int)>) -> bool {
    &&& path.len() > 0
    &&& path[0] == (sr, sc)
    &&& forall|i: int| 0 <= i < path.len() - 1 ==> #[trigger] link(g, rows, cols, path, i)
}

/// Opening (sr, sc) reveals (r, c): the region of hidden empty cells around
/// the start, with the numbered cells that border it.
pub open spec fn opened(g: Seq<Seq<Cell>>, rows: int, cols: int, sr: int, sc: int, r: int, c: int) -> bool {
    exists|path: Seq<(int, int)>| #[trigger] chain(g, rows, cols, sr, sc, path) && path.last() == (r, c)
}

/// The board once a reveal from (sr, sc) has run its course.
pub open spec fn after_reveal(g: Seq<Seq<Cell>>, rows: int, cols: int, sr: int, sc: int) -> Seq<
    Seq<Cell>,
> {
    g.map(
        |r: int, row: Seq<Cell>|
            row.map(
                |c: int, cell: Cell|
                    if opened(g, rows, cols, sr, sc, r, c) && !cell.is_visible {
                        revealed(cell)
                    } else {
                        cell
                    },
            ),
    )
}

/// Every safe neighbour of (qr, qc) is visible or waits on the work list.
spec fn covered(
    g: Seq<Seq<Cell>>,
    st: Seq<(usize, usize)>,
    rows: int,
    cols: int,
    qr: int,
    qc: int,
) -> bool {
    forall|pr: int, pc: int|
        #[trigger] touching(qr, qc, pr, pc) && inside(rows, cols, pr, pc) && g[pr][pc].is_safe
            ==> g[pr][pc].is_visible || st.contains((pr as usize, pc as usize))
}

/// Pushing keeps what the list held and adds the new position.
proof fn lemma_push_contains(s: Seq<(usize, usize)>, y: (usize, usize))
    ensures
        s.push(y).contains(y),
        forall|x: (usize, usize)| s.contains(x) ==> #[trigger] s.push(y).contains(x),
{
    assert(s.push(y)[s.len() as int] == y);
    assert forall|x: (usize, usize)| s.contains(x) implies #[trigger] s.push(y).contains(x) by {
        let i = choose|i: int| 0 <= i < s.len() && s[i] == x;
        assert(s.push(y)[i] == x);
    }
}

/// What the list held before a pop it still holds, or it was the last.
proof fn lemma_pop_contains(s: Seq<(usize, usize)>)
    requires
        s.len() > 0,
    ensures
        forall|x: (usize, usize)|
            #[trigger] s.contains(x) ==> s.drop_last().contains(x) || x == s.last(),
{
    assert forall|x: (usize, usize)| #[trigger] s.contains(x) implies s.drop_last().contains(x)
        || x == s.last() by {
        let i = choose|i: int| 0 <= i < s.len() && s[i] == x;
        if i < s.len() - 1 {
            assert(s.drop_last()[i] == x);
        }
    }
}

/// Coverage survives more cells becoming visible and the work list changing,
/// so long as what left the list is now visible.
proof fn lemma_covered_keep(
    g1: Seq<Seq<Cell>>,
    g2: Seq<Seq<Cell>>,
    st1: Seq<(usize, usize)>,
    st2: Seq<(usize, usize)>,
    rows: int,
    cols: int,
    qr: int,
    qc: int,
    gone: (usize, usize),
)
    requires
        0 <= rows <= usize::MAX,
        0 <= cols <= usize::MAX,
        covered(g1, st1, rows, cols, qr, qc),
        forall|r: int, c: int|
            inside(rows, cols, r, c) ==> (#[trigger] g2[r][c]).is_safe == g1[r][c].is_safe && (
            g1[r][c].is_visible ==> g2[r][c].is_visible),
        forall|x: (usize, usize)| #[trigger] st1.contains(x) ==> st2.contains(x) || x == gone,
        g2[gone.0 as int][gone.1 as int].is_visible,
    ensures
        covered(g2, st2, rows, cols, qr, qc),
{
    assert forall|pr: int, pc: int|
        #[trigger] touching(qr, qc, pr, pc) && inside(rows, cols, pr, pc)
            && g2[pr][pc].is_safe implies g2[pr][pc].is_visible || st2.contains(
        (pr as usize, pc as usize),
    ) by {
        if st1.contains((pr as usize, pc as usize)) && (pr as usize, pc as usize) == gone {
            assert(pr == gone.0 as int && pc == gone.1 as int);
        }
    }
}

/// A path that ends at an expandable cell goes on to the safe cells next to it.
pub proof fn lemma_chain_step(
    g: Seq<Seq<Cell>>,
    rows: int,
    cols: int,
    sr: int,
    sc: int,
    path: Seq<(int, int)>,
    pr: int,
    pc: int,
)
    requires
        chain(g, rows, cols, sr, sc, path),
        expandable(g, rows, cols, path.last().0, path.last().1),
        touching(path.last().0, path.last().1, pr, pc),
        inside(rows, cols, pr, pc),
        g[pr][pc].is_safe,
    ensures
        chain(g, rows, cols, sr, sc, path.push((pr, pc))),
        opened(g, rows, cols, sr, sc, pr, pc),
{
    let q = path.push((pr, pc));
    assert forall|i: int| 0 <= i < q.len() - 1 implies #[trigger] link(g, rows, cols, q, i) by {
        if i < path.len() - 1 {
            assert(link(g, rows, cols, path, i));
        }
    }
    assert(q.last() == (pr, pc));
    assert(chain(g, rows, cols, sr, sc, q) && q.last() == (pr, pc));
}

/// Once nothing waits on the work list, the end of every path is visible.
proof fn lemma_chain_visible(
    g0: Seq<Seq<Cell>>,
    g: Seq<Seq<Cell>>,
    rows: int,
    cols: int,
    sr: int,
    sc: int,
    path: Seq<(int, int)>,
)
    requires
        0 <= rows <= usize::MAX,
        0 <= cols <= usize::MAX,
        chain(g0, rows, cols, sr, sc, path),
        inside(rows, cols, sr, sc),
        g[sr][sc].is_visible,
        forall|r: int, c: int|
            inside(rows, cols, r, c) ==> (#[trigger] g[r][c]).is_safe == g0[r][c].is_safe,
        forall|r: int, c: int|
            #[trigger] expandable(g0, rows, cols, r, c) && g[r][c].is_visible ==> covered(
                g,
                Seq::empty(),
                rows,
                cols,
                r,
                c,
            ),
    ensures
        inside(rows, cols, path.last().0, path.last().1),
        g[path.last().0][path.last().1].is_visible,
    decreases path.len(),
{
    if path.len() > 1 {
        let prev = path.drop_last();
        assert forall|i: int| 0 <= i < prev.len() - 1 implies #[trigger] link(
            g0,
            rows,
            cols,
            prev,
            i,
        ) by {
            assert(link(g0, rows, cols, path, i));
        }
        lemma_chain_visible(g0, g, rows, cols, sr, sc, prev);
        let n = path.len() - 2;
        assert(link(g0, rows, cols, path, n));
        let (qr, qc) = path[n];
        let (pr, pc) = path[n + 1];
        assert(covered(g, Seq::empty(), rows, cols, qr, qc));
        assert(touching(qr, qc, pr, pc));
        assert(!Seq::<(usize, usize)>::empty().contains((pr as usize, pc as usize)));
    }
}

/// Every changed cell was opened while hidden, and now stands revealed.
pub open spec fn only_opened_changed(
    g0: Seq<Seq<Cell>>,
    g: Seq<Seq<Cell>>,
    rows: int,
    cols: int,
    sr: int,
    sc: int,
) -> bool {
    forall|r: int, c: int|
        inside(rows, cols, r, c) ==> #[trigger] g[r][c] == g0[r][c] || (opened(
            g0,
            rows,
            cols,
            sr,
            sc,
            r,
            c,
        ) && !g0[r][c].is_visible && g[r][c] == revealed(g0[r][c]))
}

/// Each position on the work list is a safe cell that the reveal opens.
spec fn pending_opened(
    g0: Seq<Seq<Cell>>,
    st: Seq<(usize, usize)>,
    rows: int,
    cols: int,
    sr: int,
    sc: int,
) -> bool {
    forall|i: int|
        0 <= i < st.len() ==> inside(rows, cols, #[trigger] st[i].0 as int, st[i].1 as int)
            && g0[st[i].0 as int][st[i].1 as int].is_safe && opened(
            g0,
            rows,
            cols,
            sr,
            sc,
            st[i].0 as int,
            st[i].1 as int,
        )
}

/// Reveals (row, col) and, where no hazard is around it, the whole region
/// that it opens.
pub(crate) fn reveal_from(
    board: &mut Vec<Vec<Cell>>,
    rows: usize,
    cols: usize,
    row: usize,
    col: usize,
)
    requires
        shaped(grid_of(old(board)@), rows as int, cols as int),
        row < rows,
        col < cols,
        grid_of(old(board)@)[row as int][col as int].is_safe,
    ensures
        grid_of(final(board)@) == after_reveal(
            grid_of(old(board)@),
            rows as int,
            cols as int,
            row as int,
            col as int,
        ),
{
    let ghost g0 = grid_of(board@);
    let ghost sr = row as int;
    let ghost sc = col as int;
    let mut st: Vec<(usize, usize)> = Vec::new();
    st.push((row, col));
    assert(st@[0] == (row, col));
    proof {
        let path = seq![(sr, sc)];
        assert(chain(g0, rows as int, cols as int, sr, sc, path) && path.last() == (sr, sc));
    }
    while st.len() > 0
        invariant
            g0 == grid_of(old(board)@),
            sr == row,
            sc == col,
            shaped(g0, rows as int, cols as int),
            row < rows,
            col < cols,
            g0[sr][sc].is_safe,
            shaped(grid_of(board@), rows as int, cols as int),
            only_opened_changed(g0, grid_of(board@), rows as int, cols as int, sr, sc),
            pending_opened(g0, st@, rows as int, cols as int, sr, sc),
            st@.contains((row, col)) || grid_of(board@)[sr][sc].is_visible,
            forall|r: int, c: int|
                #[trigger] expandable(g0, rows as int, cols as int, r, c) && grid_of(
                    board@,
                )[r][c].is_visible ==> covered(
                    grid_of(board@),
                    st@,
                    rows as int,
                    cols as int,
                    r,
                    c,
                ),
        decreases hidden_total(grid_of(board@)), st@.len(),
    {
        let ghost g1 = grid_of(board@);
        let ghost st1 = st@;
        let (r, c) = st.pop().unwrap();
        proof {
            lemma_pop_contains(st1);
            assert(st1[st1.len() - 1] == (r, c));
        }
        assert(grid_of(board@)[r as int] == board@[r as int]@);
        let cell = board[r][c];
        if !cell.is_visible {
            put(board, r, c, Cell { is_visible: true, is_flagged: false, ..cell });
            let ghost g2 = grid_of(board@);
            proof {
                lemma_grid_count_diff(g1, g2, r as int, c as int, hidden_pred());
                assert forall|qr: int, qc: int|
                    #[trigger] expandable(g0, rows as int, cols as int, qr, qc)
                        && g2[qr][qc].is_visible && (qr != r || qc != c) implies covered(
                    g2,
                    st@,
                    rows as int,
                    cols as int,
                    qr,
                    qc,
                ) by {
                    lemma_covered_keep(
                        g1,
                        g2,
                        st1,
                        st@,
                        rows as int,
                        cols as int,
                        qr,
                        qc,
                        (r, c),
                    );
                }
            }
            if cell.mines_count == 0 {
                let ghost path = choose|path: Seq<(int, int)>|
                    #[trigger] chain(g0, rows as int, cols as int, sr, sc, path) && path.last() == (
                        r as int,
                        c as int,
                    );
                let ghost h0 = hidden_total(g1);
                let adj = adjacent_cells(rows, cols, r, c);
                let mut i: usize = 0;
                while i < adj.len()
                    invariant
                        g0 == grid_of(old(board)@),
                        sr == row,
                        sc == col,
                        shaped(g0, rows as int, cols as int),
                        row < rows,
                        col < cols,
                        r < rows,
                        c < cols,
                        i <= adj@.len(),
                        g0[sr][sc].is_safe,
                        shaped(grid_of(board@), rows as int, cols as int),
                        only_opened_changed(g0, grid_of(board@), rows as int, cols as int, sr, sc),
                        pending_opened(g0, st@, rows as int, cols as int, sr, sc),
                        st@.contains((row, col)) || grid_of(board@)[sr][sc].is_visible,
                        grid_of(board@)[r as int][c as int].is_visible,
                        expandable(g0, rows as int, cols as int, r as int, c as int),
                        chain(g0, rows as int, cols as int, sr, sc, path),
                        path.last() == (r as int, c as int),
                        hidden_total(grid_of(board@)) < h0,
                        all_neighbours(adj@, rows as int, cols as int, r as int, c as int),
                        forall|pr: int, pc: int|
                            inside(rows as int, cols as int, pr, pc) && touching(
                                r as int,
                                c as int,
                                pr,
                                pc,
                            ) ==> adj@.contains((pr as usize, pc as usize)),
                        forall|j: int|
                            0 <= j < i ==> grid_of(board@)[#[trigger] adj@[j].0 as int][adj@[j].1 as int].is_safe
                                ==> grid_of(board@)[adj@[j].0 as int][adj@[j].1 as int].is_visible
                                || st@.contains(adj@[j]),
                        forall|qr: int, qc: int|
                            #[trigger] expandable(g0, rows as int, cols as int, qr, qc) && grid_of(
                                board@,
                            )[qr][qc].is_visible && (qr != r || qc != c) ==> covered(
                                grid_of(board@),
                                st@,
                                rows as int,
                                cols as int,
                                qr,
                                qc,
                            ),
                    decreases adj@.len() - i,
                {
                    let (pr, pc) = adj[i];
                    let ghost g3 = grid_of(board@);
                    let ghost st3 = st@;
                    assert(grid_of(board@)[pr as int] == board@[pr as int]@);
                    let n = board[pr][pc];
                    if n.is_safe && !n.is_visible {
                        proof {
                            lemma_chain_step(
                                g0,
                                rows as int,
                                cols as int,
                                sr,
                                sc,
                                path,
                                pr as int,
                                pc as int,
                            );
                        }
                        if n.mines_count == 0 {
                            st.push((pr, pc));
                            proof {
                                lemma_push_contains(st3, (pr, pc));
                            }
                        } else {
                            put(board, pr, pc, Cell { is_visible: true, is_flagged: false, ..n });
                            proof {
                                lemma_grid_count_diff(
                                    g3,
                                    grid_of(board@),
                                    pr as int,
                                    pc as int,
                                    hidden_pred(),
                                );
                            }
                        }
                    }
                    proof {
                        let g4 = grid_of(board@);
                        assert forall|x: (usize, usize)| #[trigger]
                            st3.contains(x) implies st@.contains(x) || x == (r, c) by {
                            if st@ != st3 {
                                lemma_push_contains(st3, (pr, pc));
                            }
                        }
                        assert forall|qr: int, qc: int|
                            #[trigger] expandable(g0, rows as int, cols as int, qr, qc)
                                && g4[qr][qc].is_visible && (qr != r || qc != c) implies covered(
                            g4,
                            st@,
                            rows as int,
                            cols as int,
                            qr,
                            qc,
                        ) by {
                            lemma_covered_keep(
                                g3,
                                g4,
                                st3,
                                st@,
                                rows as int,
                                cols as int,
                                qr,
                                qc,
                                (r, c),
                            );
                        }
                    }
                    i = i + 1;
                }
                proof {
                    let g5 = grid_of(board@);
                    assert forall|pr: int, pc: int|
                        #[trigger] touching(r as int, c as int, pr, pc) && inside(
                            rows as int,
                            cols as int,
                            pr,
                            pc,
                        ) && g5[pr][pc].is_safe implies g5[pr][pc].is_visible || st@.contains(
                        (pr as usize, pc as usize),
                    ) by {
                        assert(adj@.contains((pr as usize, pc as usize)));
                        let j = choose|j: int|
                            0 <= j < adj@.len() && adj@[j] == (pr as usize, pc as usize);
                        assert(adj@[j] == (pr as usize, pc as usize));
                        assert(adj@[j].0 as int == pr && adj@[j].1 as int == pc);
                        assert(g5[adj@[j].0 as int][adj@[j].1 as int].is_safe ==> g5[adj@[j].0 as int][adj@[j].1 as int].is_visible
                                || st@.contains(adj@[j]));
                    }
                    assert(covered(g5, st@, rows as int, cols as int, r as int, c as int));
                }
            }
        } else {
            proof {
                assert forall|qr: int, qc: int|
                    #[trigger] expandable(g0, rows as int, cols as int, qr, qc)
                        && g1[qr][qc].is_visible implies covered(
                    g1,
                    st@,
                    rows as int,
                    cols as int,
                    qr,
                    qc,
                ) by {
                    lemma_covered_keep(
                        g1,
                        g1,
                        st1,
                        st@,
                        rows as int,
                        cols as int,
                        qr,
                        qc,
                        (r, c),
                    );
                }
            }
        }
    }
    proof {
        let g = grid_of(board@);
        assert forall|r: int, c: int| inside(rows as int, cols as int, r, c) implies #[trigger] g[r][c]
            == after_reveal(g0, rows as int, cols as int, sr, sc)[r][c] by {
            if opened(g0, rows as int, cols as int, sr, sc, r, c) && !g0[r][c].is_visible {
                let path = choose|path: Seq<(int, int)>|
                    #[trigger] chain(g0, rows as int, cols as int, sr, sc, path) && path.last() == (
                        r,
                        c,
                    );
                lemma_chain_visible(g0, g, rows as int, cols as int, sr, sc, path);
            }
        }
        assert(g =~~= after_reveal(g0, rows as int, cols as int, sr, sc));
    }
}

} // verus!
