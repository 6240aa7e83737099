use vstd::prelude::*;

use crate::shape::{max_col, min_col, spawned, Shape, ShapeView};

verus! {

/// The grid index of cell `c` of a piece's mask, on a board `rows` cells wide:
/// column `c % dx` and row `c / dx` of the box, offset by the piece's position.
pub open spec fn cell(s: ShapeView, rows: int, c: int) -> int {
    (s.x + c % (s.dx as int)) + (s.y + c / (s.dx as int)) * rows
}

/// One of the first `n` mask cells of the piece is occupied and lands on index `k`.
pub open spec fn covers_upto(s: ShapeView, rows: int, k: int, n: int) -> bool {
    exists|c: int| 0 <= c < n && s.canvas[c] && #[trigger] cell(s, rows, c) == k
}

/// The piece occupies grid index `k`.
pub open spec fn covers(s: ShapeView, rows: int, k: int) -> bool {
    covers_upto(s, rows, k, s.canvas.len() as int)
}

/// The grid with the piece's cells set; cells that fall outside it are dropped.
pub open spec fn drawn(sc: Seq<bool>, rows: int, s: ShapeView) -> Seq<bool> {
    Seq::new(sc.len(), |k: int| sc[k] || covers(s, rows, k))
}

/// The grid with the piece's cells cleared.
pub open spec fn erased(sc: Seq<bool>, rows: int, s: ShapeView) -> Seq<bool> {
    Seq::new(sc.len(), |k: int| sc[k] && !covers(s, rows, k))
}

/// Every occupied cell of the piece lands inside the grid on a free cell.
pub open spec fn can_place(sc: Seq<bool>, rows: int, s: ShapeView) -> bool {
    forall|c: int|
        0 <= c < s.canvas.len() && #[trigger] s.canvas[c] ==> 0 <= cell(s, rows, c) < sc.len()
            && !sc[cell(s, rows, c)]
}

proof fn lemma_covers_step(s: ShapeView, rows: int, c: int)
    requires
        0 <= c < s.canvas.len(),
    ensures
        forall|k: int|
            covers_upto(s, rows, k, c + 1) == (covers_upto(s, rows, k, c) || (s.canvas[c] && cell(
                s,
                rows,
                c,
            ) == k)),
{
    assert forall|k: int|
        covers_upto(s, rows, k, c + 1) == (covers_upto(s, rows, k, c) || (s.canvas[c] && cell(
            s,
            rows,
            c,
        ) == k)) by {
        if covers_upto(s, rows, k, c + 1) {
            let t = choose|t: int| 0 <= t < c + 1 && s.canvas[t] && #[trigger] cell(s, rows, t) == k;
            if t < c {
                assert(covers_upto(s, rows, k, c));
            }
        }
        if covers_upto(s, rows, k, c) {
            let t = choose|t: int| 0 <= t < c && s.canvas[t] && #[trigger] cell(s, rows, t) == k;
            assert(0 <= t < c + 1 && s.canvas[t] && cell(s, rows, t) == k);
        }
        if s.canvas[c] && cell(s, rows, c) == k {
            assert(0 <= c < c + 1 && s.canvas[c] && cell(s, rows, c) == k);
        }
    }
}

/// The board read as lines, top to bottom: line `i` holds indices
/// `i * rows .. i * rows + rows`.
#[verifier::opaque]
pub open spec fn lines_of(sc: Seq<bool>, rows: int, cols: int) -> Seq<Seq<bool>> {
    Seq::new(cols as nat, |i: int| sc.subrange(i * rows, i * rows + rows))
}

/// Every cell of the line is occupied.
#[verifier::opaque]
pub open spec fn is_full(l: Seq<bool>) -> bool {
    forall|j: int| 0 <= j < l.len() ==> l[j]
}

/// The test that a line survives a clear.
pub open spec fn keep() -> spec_fn(Seq<bool>) -> bool {
    |l: Seq<bool>| !is_full(l)
}

/// The indices of the full lines among the first `n`, ascending.
pub open spec fn full_indices(ls: Seq<Seq<bool>>, n: int) -> Seq<usize>
    decreases n,
{
    if n <= 0 {
        seq![]
    } else if is_full(ls[n - 1]) {
        full_indices(ls, n - 1).push((n - 1) as usize)
    } else {
        full_indices(ls, n - 1)
    }
}

/// A line of `rows` free cells.
pub open spec fn blank(rows: int) -> Seq<bool> {
    Seq::new(rows as nat, |j: int| false)
}

/// `n` blank lines.
pub open spec fn blanks(n: int, rows: int) -> Seq<Seq<bool>> {
    Seq::new(n as nat, |i: int| blank(rows))
}

/// The lines after every full line is removed: one blank line on top for
/// each removed one, then the others in their order.
pub open spec fn compacted(ls: Seq<Seq<bool>>, rows: int) -> Seq<Seq<bool>> {
    blanks(full_indices(ls, ls.len() as int).len() as int, rows) + ls.filter(keep())
}

/// The points scored for clearing `n` lines at once.
pub open spec fn score(n: int) -> int {
    n * n * 10
}

/// The cell in column `b` of line `a`.
pub open spec fn at(sc: Seq<bool>, rows: int, a: int, b: int) -> bool {
    sc[a * rows + b]
}

proof fn lemma_flat(rows: int, cols: int, a: int, b: int)
    requires
        0 <= a < cols,
        0 <= b < rows,
    ensures
        0 <= a * rows + b < rows * cols,
        a * rows + rows <= rows * cols,
        forall|a2: int, b2: int|
            0 <= a2 && 0 <= b2 < rows && #[trigger] (a2 * rows + b2) == a * rows + b ==> a2 == a
                && b2 == b,
{
    assert(0 <= a * rows + b < rows * cols && a * rows + rows <= rows * cols) by (nonlinear_arith)
        requires
            0 <= a < cols,
            0 <= b < rows,
    ;
    assert forall|a2: int, b2: int|
        0 <= a2 && 0 <= b2 < rows && #[trigger] (a2 * rows + b2) == a * rows + b implies a2 == a
            && b2 == b by {
        if a2 < a {
            assert(a2 * rows + b2 < a * rows + b) by (nonlinear_arith)
                requires
                    a2 < a,
                    0 <= b2 < rows,
                    0 <= b,
            ;
        } else if a2 > a {
            assert(a2 * rows + b2 > a * rows + b) by (nonlinear_arith)
                requires
                    a2 > a,
                    0 <= b < rows,
                    0 <= b2,
            ;
        }
    }
}

proof fn lemma_line_cell(sc: Seq<bool>, rows: int, cols: int, a: int, b: int)
    requires
        sc.len() == rows * cols,
        0 <= a < cols,
        0 <= b < rows,
    ensures
        lines_of(sc, rows, cols)[a].len() == rows,
        lines_of(sc, rows, cols)[a][b] == at(sc, rows, a, b),
{
    reveal(lines_of);
    lemma_flat(rows, cols, a, b);
}

proof fn lemma_lines_len(sc: Seq<bool>, rows: int, cols: int)
    requires
        sc.len() == rows * cols,
        0 <= rows,
        0 <= cols,
    ensures
        forall|a: int| 0 <= a < cols ==> (#[trigger] lines_of(sc, rows, cols)[a]).len() == rows,
        lines_of(sc, rows, cols).len() == cols,
{
    reveal(lines_of);
    assert forall|a: int| 0 <= a < cols implies (#[trigger] lines_of(sc, rows, cols)[a]).len()
        == rows by {
        assert(a * rows + rows <= rows * cols && 0 <= a * rows) by (nonlinear_arith)
            requires
                0 <= a < cols,
                0 <= rows,
        ;
    }
}

/// Where the search for the `i`-th full line starts: just after the one before.
pub open spec fn start(f: Seq<usize>, i: int) -> int {
    if i == 0 {
        0
    } else {
        f[i - 1] + 1
    }
}

proof fn lemma_full_indices(ls: Seq<Seq<bool>>, n: int)
    requires
        0 <= n <= ls.len() <= usize::MAX,
    ensures
        forall|i: int|
            0 <= i < full_indices(ls, n).len() ==> start(full_indices(ls, n), i)
                <= #[trigger] full_indices(ls, n)[i] < n && is_full(ls[full_indices(ls, n)[i] as int]),
        forall|i: int, m: int|
            #![trigger start(full_indices(ls, n), i), ls[m]]
            0 <= i <= full_indices(ls, n).len() && start(full_indices(ls, n), i) <= m && (i
                == full_indices(ls, n).len() ==> m < n) && (i < full_indices(ls, n).len() ==> m
                < full_indices(ls, n)[i]) ==> !is_full(ls[m]),
        full_indices(ls, n).len() <= n,
    decreases n,
{
    if n > 0 {
        lemma_full_indices(ls, n - 1);
        let p = full_indices(ls, n - 1);
        let f = full_indices(ls, n);
        if is_full(ls[n - 1]) {
            assert(f == p.push((n - 1) as usize));
            assert(f[p.len() as int] == n - 1);
            assert forall|i: int| 0 <= i <= p.len() implies start(f, i) == start(p, i) by {}
            assert forall|i: int, m: int|
                #![trigger start(f, i), ls[m]]
                0 <= i <= f.len() && start(f, i) <= m && (i == f.len() ==> m < n) && (i < f.len()
                    ==> m < f[i]) implies !is_full(ls[m]) by {
                if i < f.len() {
                    assert(start(p, i) <= m);
                    if i == p.len() {
                        assert(m < n - 1);
                    } else {
                        assert(f[i] == p[i]);
                    }
                }
            }
        } else {
            assert(f == p);
            assert forall|i: int, m: int|
                #![trigger start(f, i), ls[m]]
                0 <= i <= f.len() && start(f, i) <= m && (i == f.len() ==> m < n) && (i < f.len()
                    ==> m < f[i]) implies !is_full(ls[m]) by {
                if m < n - 1 {
                    assert(start(p, i) <= m);
                }
            }
        }
    }
}

proof fn lemma_keep_all(s: Seq<Seq<bool>>)
    requires
        forall|i: int| 0 <= i < s.len() ==> !is_full(#[trigger] s[i]),
    ensures
        s.filter(keep()) == s,
    decreases s.len(),
{
    reveal(Seq::filter);
    if s.len() > 0 {
        lemma_keep_all(s.drop_last());
        assert(s.drop_last().push(s.last()) =~= s);
    }
}

proof fn lemma_keep_none(l: Seq<bool>)
    requires
        is_full(l),
    ensures
        seq![l].filter(keep()) == Seq::<Seq<bool>>::empty(),
{
    reveal(Seq::filter);
    assert(seq![l].drop_last() =~= Seq::<Seq<bool>>::empty());
    assert(Seq::<Seq<bool>>::empty().filter(keep()) =~= Seq::<Seq<bool>>::empty());
}

/// The lines after the full lines before `e` have been removed: `t` blank
/// lines, the surviving lines before `e`, then the lines from `e` on.
#[verifier::opaque]
pub open spec fn progress(l0: Seq<Seq<bool>>, rows: int, e: int, t: int) -> Seq<Seq<bool>> {
    blanks(t, rows) + l0.subrange(0, e).filter(keep()) + l0.subrange(e, l0.len() as int)
}

proof fn lemma_clear_step(
    l0: Seq<Seq<bool>>,
    rows: int,
    e: int,
    fi: int,
    t: int,
    cur: Seq<Seq<bool>>,
)
    requires
        0 <= e <= fi < l0.len(),
        0 <= t,
        is_full(l0[fi]),
        forall|m: int| e <= m < fi ==> !is_full(#[trigger] l0[m]),
        t + l0.subrange(0, e).filter(keep()).len() == e,
        cur == progress(l0, rows, e, t),
    ensures
        t + 1 + l0.subrange(0, fi + 1).filter(keep()).len() == fi + 1,
        seq![blank(rows)] + cur.subrange(0, fi) + cur.subrange(fi + 1, l0.len() as int) == progress(
            l0,
            rows,
            fi + 1,
            t + 1,
        ),
{
    reveal(progress);
    let kept = l0.subrange(0, e).filter(keep());
    let mid = l0.subrange(e, fi);
    assert forall|i: int| 0 <= i < mid.len() implies !is_full(#[trigger] mid[i]) by {
        assert(!is_full(l0[e + i]));
    }
    lemma_keep_all(mid);
    lemma_keep_none(l0[fi]);
    assert(l0.subrange(0, fi + 1) =~= l0.subrange(0, e) + mid + seq![l0[fi]]);
    Seq::filter_distributes_over_add(l0.subrange(0, e), mid, keep());
    Seq::filter_distributes_over_add(l0.subrange(0, e) + mid, seq![l0[fi]], keep());
    assert(l0.subrange(0, fi + 1).filter(keep()) =~= kept + mid);
    assert(cur.subrange(0, fi) =~= blanks(t, rows) + kept + mid);
    assert(cur.subrange(fi + 1, l0.len() as int) =~= l0.subrange(fi + 1, l0.len() as int));
    assert(seq![blank(rows)] + cur.subrange(0, fi) + cur.subrange(fi + 1, l0.len() as int)
        =~= blanks(t + 1, rows) + l0.subrange(0, fi + 1).filter(keep()) + l0.subrange(
        fi + 1,
        l0.len() as int,
    ));
}

proof fn lemma_clear_done(l0: Seq<Seq<bool>>, rows: int, e: int, t: int)
    requires
        0 <= e <= l0.len(),
        forall|m: int| e <= m < l0.len() ==> !is_full(#[trigger] l0[m]),
    ensures
        progress(l0, rows, e, t) == blanks(t, rows) + l0.filter(keep()),
{
    reveal(progress);
    let tail = l0.subrange(e, l0.len() as int);
    assert forall|i: int| 0 <= i < tail.len() implies !is_full(#[trigger] tail[i]) by {
        assert(!is_full(l0[e + i]));
    }
    lemma_keep_all(tail);
    assert(l0 =~= l0.subrange(0, e) + tail);
    Seq::filter_distributes_over_add(l0.subrange(0, e), tail, keep());
    assert(progress(l0, rows, e, t) =~= blanks(t, rows) + l0.filter(keep()));
}

proof fn lemma_clear_start(l0: Seq<Seq<bool>>, rows: int)
    ensures
        progress(l0, rows, 0, 0) == l0,
        l0.subrange(0, 0).filter(keep()).len() == 0,
{
    reveal(progress);
    reveal(Seq::filter);
    assert(l0.subrange(0, 0).filter(keep()) =~= Seq::<Seq<bool>>::empty());
    assert(progress(l0, rows, 0, 0) =~= l0);
}

/// The horizontal position a sideways move to `x` ends at: pushed right until
/// the leftmost occupied column `lo` is on the board, then pushed left until
/// the rightmost one `hi` is.
pub open spec fn clamped(x: int, lo: int, hi: int, rows: int) -> int {
    let a = if x + lo < 0 {
        -lo
    } else {
        x
    };
    if a + hi > rows - 1 {
        rows - 1 - hi
    } else {
        a
    }
}

/// The piece one line lower.
pub open spec fn lowered(s: ShapeView) -> ShapeView {
    ShapeView { y: s.y + 1, ..s }
}

/// The piece moved sideways by `side` and clamped to the board.
pub open spec fn shifted(s: ShapeView, side: int, rows: int) -> ShapeView {
    ShapeView { x: clamped(s.x + side, min_col(s), max_col(s), rows), ..s }
}

/// The occupied columns of the piece all lie within a board `rows` cells wide.
pub open spec fn within_width(s: ShapeView, rows: int) -> bool {
    0 <= s.x + min_col(s) && s.x + max_col(s) <= rows - 1
}


/// After every full line is cleared from a board at least one cell wide, no
/// line is full: the blank lines on top are not, and the surviving lines were not.
pub proof fn lemma_cleared_has_no_full_line(ls: Seq<Seq<bool>>, rows: int)
    requires
        rows > 0,
    ensures
        forall|i: int|
            0 <= i < compacted(ls, rows).len() ==> !is_full(#[trigger] compacted(ls, rows)[i]),
        full_indices(compacted(ls, rows), compacted(ls, rows).len() as int).len() == 0,
        compacted(ls, rows).len() == ls.len(),
{
    reveal(is_full);
    let k = full_indices(ls, ls.len() as int).len() as int;
    let c = compacted(ls, rows);
    let kept = ls.filter(keep());
    lemma_count_full(ls, ls.len() as int);
    assert(ls.subrange(0, ls.len() as int) =~= ls);
    assert(c.len() == k + kept.len());
    assert forall|i: int| 0 <= i < c.len() implies !is_full(#[trigger] c[i]) by {
        if i < k {
            assert(!blank(rows)[0]);
        } else {
            ls.lemma_filter_pred(keep(), i - k);
            assert(c[i] == kept[i - k]);
        }
    }
    lemma_no_full_indices(c, c.len() as int);
}

proof fn lemma_no_full_indices(ls: Seq<Seq<bool>>, n: int)
    requires
        0 <= n <= ls.len(),
        forall|i: int| 0 <= i < ls.len() ==> !is_full(#[trigger] ls[i]),
    ensures
        full_indices(ls, n).len() == 0,
    decreases n,
{
    if n > 0 {
        lemma_no_full_indices(ls, n - 1);
    }
}

/// Among the first `n` lines, the full ones and the surviving ones add up to `n`.
proof fn lemma_count_full(ls: Seq<Seq<bool>>, n: int)
    requires
        0 <= n <= ls.len(),
    ensures
        full_indices(ls, n).len() + ls.subrange(0, n).filter(keep()).len() == n,
    decreases n,
{
    reveal(Seq::filter);
    if n > 0 {
        lemma_count_full(ls, n - 1);
        assert(ls.subrange(0, n).drop_last() =~= ls.subrange(0, n - 1));
    } else {
        assert(ls.subrange(0, 0).filter(keep()) =~= Seq::<Seq<bool>>::empty());
    }
}

/// A sideways move never pushes a piece off the board: when the piece's
/// occupied columns span no more than the board's width, its clamped position
/// keeps them all on the board, wherever the move would have taken it.
pub proof fn lemma_shift_stays_within_width(s: ShapeView, side: int, rows: int)
    requires
        max_col(s) - min_col(s) <= rows - 1,
    ensures
        within_width(shifted(s, side, rows), rows),
{
    let t = shifted(s, side, rows);
    assert(min_col(t) == min_col(s) && max_col(t) == max_col(s)) by {
        lemma_cols_ignore_position(s, t);
    }
}

proof fn lemma_cols_ignore_position(s: ShapeView, t: ShapeView)
    requires
        t.canvas == s.canvas,
        t.dx == s.dx,
        t.dy == s.dy,
    ensures
        min_col(t) == min_col(s),
        max_col(t) == max_col(s),
{
    assert forall|i: int| t.column_used(i) == s.column_used(i) by {}
    lemma_min_from_same(s, t, 0);
    lemma_max_below_same(s, t, s.dx as int);
}

proof fn lemma_min_from_same(s: ShapeView, t: ShapeView, i: int)
    requires
        t.dx == s.dx,
        forall|c: int| t.column_used(c) == s.column_used(c),
    ensures
        crate::shape::min_col_from(t, i) == crate::shape::min_col_from(s, i),
    decreases s.dx - i,
{
    if i < s.dx {
        lemma_min_from_same(s, t, i + 1);
    }
}

proof fn lemma_max_below_same(s: ShapeView, t: ShapeView, n: int)
    requires
        forall|c: int| t.column_used(c) == s.column_used(c),
    ensures
        crate::shape::max_col_below(t, n) == crate::shape::max_col_below(s, n),
    decreases n,
{
    if n > 1 {
        lemma_max_below_same(s, t, n - 1);
    }
}

/// The play field: `rows` cells wide and `cols` cells tall; cell `(col, line)`
/// is at index `col + line * rows`.
pub struct Screen {
    pub rows: usize,
    pub cols: usize,
    pub sc: Vec<bool>,
}

impl Screen {
    /// The grid holds `rows * cols` cells, the width fits a piece coordinate,
    /// and the score of clearing every line fits in `usize`.
    pub open spec fn wf(&self) -> bool {
        &&& self.sc.len() == self.rows * self.cols
        &&& self.rows <= i32::MAX
        &&& self.cols * self.cols * 10 <= usize::MAX
    }

    /// An empty board `r` cells wide and `c` cells tall.
    pub fn new(r: usize, c: usize) -> (s: Screen)
        requires
            r <= i32::MAX,
            r * c <= usize::MAX,
            c * c * 10 <= usize::MAX,
        ensures
            s.wf(),
            s.rows == r,
            s.cols == c,
            forall|k: int| 0 <= k < s.sc.len() ==> !s.sc@[k],
    {
        let n = r * c;
        let mut sc: Vec<bool> = Vec::new();
        let mut i: usize = 0;
        while i < n
            invariant
                i <= n,
                sc.len() == i,
                forall|k: int| 0 <= k < i ==> !sc@[k],
            decreases n - i,
        {
            sc.push(false);
            i = i + 1;
        }
        Screen { rows: r, cols: c, sc }
    }

    /// The grid index of mask cell `c` of the piece, when it lies in the grid.
    fn index_of(&self, shape: &Shape, c: usize) -> (r: Option<usize>)
        requires
            self.wf(),
            shape@.wf(),
            c < shape.canvas.len(),
        ensures
            match r {
                Some(k) => k == cell(shape@, self.rows as int, c as int) && k < self.sc.len(),
                None => !(0 <= cell(shape@, self.rows as int, c as int) < self.sc.len()),
            },
    {
        proof {
            crate::shape::lemma_mask_shape(shape.shape, shape.rotate as int);
        }
        let i = c % shape.dx;
        let j = c / shape.dx;
        assert(j <= 4) by (nonlinear_arith)
            requires
                c < shape.dx * shape.dx,
                j == c / shape.dx,
                2 <= shape.dx <= 4,
        ;
        let yj = shape.y as i64 + j as i64;
        assert(-0x8000_0000 * 0x7fff_ffff <= yj * (self.rows as i64) <= 0x8000_0004 * 0x7fff_ffff) by (nonlinear_arith)
            requires
                -0x8000_0000 <= yj <= 0x8000_0004,
                0 <= self.rows <= 0x7fff_ffff,
        ;
        let k = (shape.x as i64 + i as i64) + yj * (self.rows as i64);
        if k < 0 || k as u64 >= self.sc.len() as u64 {
            None
        } else {
            Some(k as usize)
        }
    }

    /// Sets the piece's cells in the grid; cells outside the grid are skipped.
    pub fn put(&mut self, shape: &Shape)
        requires
            old(self).wf(),
            shape@.wf(),
        ensures
            final(self).wf(),
            final(self).rows == old(self).rows,
            final(self).cols == old(self).cols,
            final(self).sc@ == drawn(old(self).sc@, old(self).rows as int, shape@),
    {
        let ghost old_sc = self.sc@;
        let ghost rows = self.rows as int;
        let mut c: usize = 0;
        while c < shape.canvas.len()
            invariant
                self.wf(),
                shape@.wf(),
                self.rows == rows,
                self.cols == old(self).cols,
                c <= shape.canvas.len(),
                self.sc.len() == old_sc.len(),
                forall|k: int|
                    0 <= k < old_sc.len() ==> #[trigger] self.sc@[k] == (old_sc[k] || covers_upto(
                        shape@,
                        rows,
                        k,
                        c as int,
                    )),
            decreases shape.canvas.len() - c,
        {
            proof {
                lemma_covers_step(shape@, rows, c as int);
            }
            let ghost prev = self.sc@;
            if shape.canvas[c] {
                match self.index_of(shape, c) {
                    Some(k) => {
                        self.sc.set(k, true);
                    },
                    None => {},
                }
            }
            assert forall|k: int| 0 <= k < old_sc.len() implies self.sc@[k] == (old_sc[k] || covers_upto(
                shape@,
                rows,
                k,
                c + 1,
            )) by {
                assert(prev[k] == (old_sc[k] || covers_upto(shape@, rows, k, c as int)));
            }
            c = c + 1;
        }
        assert(self.sc@ =~= drawn(old_sc, rows, shape@));
    }

    /// Clears the piece's cells in the grid; cells outside the grid are skipped.
    fn delete(&mut self, shape: &Shape)
        requires
            old(self).wf(),
            shape@.wf(),
        ensures
            final(self).wf(),
            final(self).rows == old(self).rows,
            final(self).cols == old(self).cols,
            final(self).sc@ == erased(old(self).sc@, old(self).rows as int, shape@),
    {
        let ghost old_sc = self.sc@;
        let ghost rows = self.rows as int;
        let mut c: usize = 0;
        while c < shape.canvas.len()
            invariant
                self.wf(),
                shape@.wf(),
                self.rows == rows,
                self.cols == old(self).cols,
                c <= shape.canvas.len(),
                self.sc.len() == old_sc.len(),
                forall|k: int|
                    0 <= k < old_sc.len() ==> #[trigger] self.sc@[k] == (old_sc[k] && !covers_upto(
                        shape@,
                        rows,
                        k,
                        c as int,
                    )),
            decreases shape.canvas.len() - c,
        {
            proof {
                lemma_covers_step(shape@, rows, c as int);
            }
            let ghost prev = self.sc@;
            if shape.canvas[c] {
                match self.index_of(shape, c) {
                    Some(k) => {
                        self.sc.set(k, false);
                    },
                    None => {},
                }
            }
            assert forall|k: int| 0 <= k < old_sc.len() implies self.sc@[k] == (old_sc[k] && ! covers_upto(
                shape@,
                rows,
                k,
                c + 1,
            )) by {
                assert(prev[k] == (old_sc[k] && ! covers_upto(shape@, rows, k, c as int)));
            }
            c = c + 1;
        }
        assert(self.sc@ =~= erased(old_sc, rows, shape@));
    }

    /// Whether every occupied cell of the piece lands inside the grid on a free cell.
    pub fn updatable(&self, shape: &Shape) -> (r: Result<(), ()>)
        requires
            self.wf(),
            shape@.wf(),
        ensures
            r is Ok <==> can_place(self.sc@, self.rows as int, shape@),
    {
        let mut c: usize = 0;
        while c < shape.canvas.len()
            invariant
                self.wf(),
                shape@.wf(),
                c <= shape.canvas.len(),
                forall|t: int|
                    0 <= t < c && #[trigger] shape@.canvas[t] ==> 0 <= cell(
                        shape@,
                        self.rows as int,
                        t,
                    ) < self.sc.len() && !self.sc@[cell(shape@, self.rows as int, t)],
            decreases shape.canvas.len() - c,
        {
            if shape.canvas[c] {
                match self.index_of(shape, c) {
                    Some(k) => {
                        if self.sc[k] {
                            return Err(());
                        }
                    },
                    None => {
                        return Err(());
                    },
                }
            }
            c = c + 1;
        }
        Ok(())
    }

    /// The indices of the full lines, ascending.
    pub fn full_lines(&self) -> (r: Vec<usize>)
        requires
            self.wf(),
        ensures
            r@ == full_indices(
                lines_of(self.sc@, self.rows as int, self.cols as int),
                self.cols as int,
            ),
    {
        let ghost ls = lines_of(self.sc@, self.rows as int, self.cols as int);
        let mut result: Vec<usize> = Vec::new();
        let mut i: usize = 0;
        while i < self.cols
            invariant
                self.wf(),
                ls == lines_of(self.sc@, self.rows as int, self.cols as int),
                i <= self.cols,
                result@ == full_indices(ls, i as int),
            decreases self.cols - i,
        {
            let mut full = true;
            let mut j: usize = 0;
            while j < self.rows && full
                invariant
                    self.wf(),
                    ls == lines_of(self.sc@, self.rows as int, self.cols as int),
                    i < self.cols,
                    j <= self.rows,
                    full == forall|b: int| 0 <= b < j ==> ls[i as int][b],
                decreases self.rows - j,
            {
                proof {
                    lemma_flat(self.rows as int, self.cols as int, i as int, j as int);
                    lemma_line_cell(self.sc@, self.rows as int, self.cols as int, i as int, j as int);
                }
                if !self.sc[j + i * self.rows] {
                    full = false;
                }
                j = j + 1;
            }
            proof {
                reveal(is_full);
                lemma_lines_len(self.sc@, self.rows as int, self.cols as int);
                if !full {
                    assert(!is_full(ls[i as int]));
                }
            }
            if full {
                result.push(i);
            }
            i = i + 1;
        }
        result
    }

    /// Removes line `line`: every line above it drops by one and the top line
    /// becomes blank.
    fn clear_line(&mut self, line: usize)
        requires
            old(self).wf(),
            line < old(self).cols,
        ensures
            final(self).wf(),
            final(self).rows == old(self).rows,
            final(self).cols == old(self).cols,
            lines_of(final(self).sc@, final(self).rows as int, final(self).cols as int) == seq![
                blank(old(self).rows as int),
            ] + lines_of(old(self).sc@, old(self).rows as int, old(self).cols as int).subrange(
                0,
                line as int,
            ) + lines_of(old(self).sc@, old(self).rows as int, old(self).cols as int).subrange(
                line + 1,
                old(self).cols as int,
            ),
    {
        let ghost old_sc = self.sc@;
        let ghost rows = self.rows as int;
        let ghost cols = self.cols as int;
        let mut r: usize = line;
        while r > 0
            invariant
                self.wf(),
                self.rows == rows,
                self.cols == cols,
                self.sc.len() == old_sc.len(),
                r <= line < cols,
                forall|a: int, b: int|
                    0 <= a < cols && 0 <= b < rows ==> #[trigger] at(self.sc@, rows, a, b) == if r
                        < a <= line {
                        at(old_sc, rows, a - 1, b)
                    } else {
                        at(old_sc, rows, a, b)
                    },
            decreases r,
        {
            let mut j: usize = 0;
            while j < self.rows
                invariant
                    self.wf(),
                    self.rows == rows,
                    self.cols == cols,
                    self.sc.len() == old_sc.len(),
                    0 < r <= line < cols,
                    j <= rows,
                    forall|a: int, b: int|
                        0 <= a < cols && 0 <= b < rows ==> #[trigger] at(self.sc@, rows, a, b)
                            == if r < a <= line || (a == r && b < j) {
                            at(old_sc, rows, a - 1, b)
                        } else {
                            at(old_sc, rows, a, b)
                        },
                decreases rows - j,
            {
                proof {
                    lemma_flat(rows, cols, r as int, j as int);
                    lemma_flat(rows, cols, r - 1, j as int);
                }
                let ghost prev = self.sc@;
                let v = self.sc[j + (r - 1) * self.rows];
                assert(v == at(old_sc, rows, r - 1, j as int)) by {
                    assert(at(prev, rows, r - 1, j as int) == v);
                }
                self.sc.set(j + r * self.rows, v);
                assert forall|a: int, b: int|
                    0 <= a < cols && 0 <= b < rows implies #[trigger] at(self.sc@, rows, a, b) == if r
                        < a <= line || (a == r && b < j + 1) {
                        at(old_sc, rows, a - 1, b)
                    } else {
                        at(old_sc, rows, a, b)
                    } by {
                    lemma_flat(rows, cols, a, b);
                    assert(at(prev, rows, a, b) == if r < a <= line || (a == r && b < j) {
                        at(old_sc, rows, a - 1, b)
                    } else {
                        at(old_sc, rows, a, b)
                    });
                }
                j = j + 1;
            }
            r = r - 1;
        }
        let mut j: usize = 0;
        while j < self.rows
            invariant
                self.wf(),
                self.rows == rows,
                self.cols == cols,
                self.sc.len() == old_sc.len(),
                line < cols,
                j <= rows,
                forall|a: int, b: int|
                    0 <= a < cols && 0 <= b < rows ==> #[trigger] at(self.sc@, rows, a, b) == if a
                        == 0 && b < j {
                        false
                    } else if 0 < a <= line {
                        at(old_sc, rows, a - 1, b)
                    } else {
                        at(old_sc, rows, a, b)
                    },
            decreases rows - j,
        {
            proof {
                lemma_flat(rows, cols, 0, j as int);
            }
            let ghost prev = self.sc@;
            self.sc.set(j, false);
            assert forall|a: int, b: int|
                0 <= a < cols && 0 <= b < rows implies #[trigger] at(self.sc@, rows, a, b) == if a
                    == 0 && b < j + 1 {
                    false
                } else if 0 < a <= line {
                    at(old_sc, rows, a - 1, b)
                } else {
                    at(old_sc, rows, a, b)
                } by {
                lemma_flat(rows, cols, a, b);
                assert(at(prev, rows, a, b) == if a == 0 && b < j {
                    false
                } else if 0 < a <= line {
                    at(old_sc, rows, a - 1, b)
                } else {
                    at(old_sc, rows, a, b)
                });
            }
            j = j + 1;
        }
        let ghost l0 = lines_of(old_sc, rows, cols);
        let ghost expect = seq![blank(rows)] + l0.subrange(0, line as int) + l0.subrange(
            line + 1,
            cols,
        );
        let ghost l1 = lines_of(self.sc@, rows, cols);
        proof {
            lemma_lines_len(self.sc@, rows, cols);
            lemma_lines_len(old_sc, rows, cols);
        }
        assert forall|a: int| 0 <= a < cols implies #[trigger] l1[a] =~= expect[a] by {
            assert forall|b: int| 0 <= b < rows implies l1[a][b] == expect[a][b] by {
                lemma_line_cell(self.sc@, rows, cols, a, b);
                if a > 0 {
                    lemma_line_cell(old_sc, rows, cols, a - 1, b);
                }
                lemma_line_cell(old_sc, rows, cols, a, b);
            }
            lemma_lines_len(self.sc@, rows, cols);
            lemma_lines_len(old_sc, rows, cols);
        }
        assert(l1 =~= expect);
    }

    /// Removes every full line, top to bottom, and returns the points scored
    /// (ten times the square of the number of lines) and that number.
    pub fn clear_lines(&mut self) -> (r: (usize, usize))
        requires
            old(self).wf(),
        ensures
            final(self).wf(),
            final(self).rows == old(self).rows,
            final(self).cols == old(self).cols,
            lines_of(final(self).sc@, final(self).rows as int, final(self).cols as int) == compacted(
                lines_of(old(self).sc@, old(self).rows as int, old(self).cols as int),
                old(self).rows as int,
            ),
            r.1 == full_indices(
                lines_of(old(self).sc@, old(self).rows as int, old(self).cols as int),
                old(self).cols as int,
            ).len(),
            r.0 == score(r.1 as int),
    {
        let ghost rows = self.rows as int;
        let ghost cols = self.cols as int;
        let ghost l0 = lines_of(self.sc@, rows, cols);
        proof {
            lemma_lines_len(self.sc@, rows, cols);
        }
        let lines = self.full_lines();
        let ghost f = lines@;
        proof {
            lemma_full_indices(l0, cols);
            lemma_clear_start(l0, rows);
        }
        let mut t: usize = 0;
        while t < lines.len()
            invariant
                self.wf(),
                self.rows == rows,
                self.cols == cols,
                l0.len() == cols,
                lines@ == f,
                f == full_indices(l0, cols),
                forall|i: int|
                    0 <= i < f.len() ==> start(f, i) <= #[trigger] f[i] < cols && is_full(
                        l0[f[i] as int],
                    ),
                forall|i: int, m: int|
                    #![trigger start(f, i), l0[m]]
                    0 <= i <= f.len() && start(f, i) <= m && (i == f.len() ==> m < cols) && (i
                        < f.len() ==> m < f[i]) ==> !is_full(l0[m]),
                t <= f.len(),
                t + l0.subrange(0, start(f, t as int)).filter(keep()).len() == start(f, t as int),
                lines_of(self.sc@, rows, cols) == progress(l0, rows, start(f, t as int), t as int),
            decreases f.len() - t,
        {
            let ghost e = start(f, t as int);
            let ghost fi = f[t as int] as int;
            let ghost cur = lines_of(self.sc@, rows, cols);
            proof {
                assert forall|m: int| e <= m < fi implies !is_full(#[trigger] l0[m]) by {
                    assert(start(f, t as int) <= m);
                }
                lemma_clear_step(l0, rows, e, fi, t as int, cur);
            }
            self.clear_line(lines[t]);
            assert(start(f, t + 1) == fi + 1);
            t = t + 1;
        }
        proof {
            let e = start(f, t as int);
            assert forall|m: int| e <= m < cols implies !is_full(#[trigger] l0[m]) by {
                assert(start(f, t as int) <= m);
            }
            lemma_clear_done(l0, rows, e, t as int);
        }
        let n = lines.len();
        assert(n * n * 10 <= self.cols * self.cols * 10) by (nonlinear_arith)
            requires
                n <= self.cols,
        ;
        (n * n * 10, n)
    }

    /// One gravity step. The piece is lifted off the board and moved one line
    /// down. If it fits there it is drawn there and returned, with `false`
    /// and no score. Otherwise it is drawn back where it was (it locks), full
    /// lines are cleared, and a new piece is made from the random draw
    /// `rand_num`: if that piece fits at its spawn point it is returned with
    /// `true`, the points and the number of lines cleared; if not, the game
    /// is over (`Err`). The new piece is not drawn.
    pub fn move_down(&mut self, shape: &mut Shape, rand_num: usize) -> (r: Result<
        (Shape, bool, usize, usize),
        (),
    >)
        requires
            old(self).wf(),
            old(shape)@.wf(),
            old(shape).y < i32::MAX,
        ensures
            final(self).wf(),
            final(self).rows == old(self).rows,
            final(self).cols == old(self).cols,
            ({
                let rows = old(self).rows as int;
                let e = erased(old(self).sc@, rows, old(shape)@);
                if can_place(e, rows, lowered(old(shape)@)) {
                    &&& final(shape)@ == lowered(old(shape)@)
                    &&& final(self).sc@ == drawn(e, rows, lowered(old(shape)@))
                    &&& r matches Ok((p, false, 0, 0)) && p@ == final(shape)@
                } else {
                    let locked = lines_of(drawn(e, rows, old(shape)@), rows, old(self).cols as int);
                    let k = full_indices(locked, old(self).cols as int).len() as int;
                    let fresh = spawned(rows, rand_num as int);
                    &&& final(shape)@ == old(shape)@
                    &&& lines_of(final(self).sc@, rows, old(self).cols as int) == compacted(
                        locked,
                        rows,
                    )
                    &&& (r is Ok <==> can_place(final(self).sc@, rows, fresh))
                    &&& r matches Ok((p, f, sco, n)) ==> p@ == fresh && f && n == k && sco == score(
                        k,
                    )
                }
            }),
    {
        self.delete(shape);
        shape.y = shape.y + 1;
        match self.updatable(shape) {
            Ok(()) => {
                self.put(shape);
                Ok((shape.duplicate(), false, 0, 0))
            },
            Err(()) => {
                shape.y = shape.y - 1;
                self.put(shape);
                let (scores, lines) = self.clear_lines();
                let new_shape = Shape::new(self.rows as i32, rand_num);
                match self.updatable(&new_shape) {
                    Err(()) => Err(()),
                    Ok(()) => Ok((new_shape, true, scores, lines)),
                }
            },
        }
    }

    /// Turns the piece by `rotate` quarter turns (positive: clockwise) if the
    /// turned piece stays within the board's width and fits; otherwise leaves
    /// it as it was. Either way the piece ends drawn on the board, and a copy
    /// of it is returned.
    pub fn rotate(&mut self, shape: &mut Shape, rotate: i32) -> (r: Shape)
        requires
            old(self).wf(),
            old(shape)@.wf(),
            -4 <= rotate <= 4,
        ensures
            final(self).wf(),
            final(self).rows == old(self).rows,
            final(self).cols == old(self).cols,
            ({
                let rows = old(self).rows as int;
                let e = erased(old(self).sc@, rows, old(shape)@);
                let cand = old(shape)@.rotated(rotate as int);
                if within_width(cand, rows) && can_place(e, rows, cand) {
                    final(shape)@ == cand && final(self).sc@ == drawn(e, rows, cand)
                } else {
                    final(shape)@ == old(shape)@ && final(self).sc@ == drawn(e, rows, old(shape)@)
                }
            }),
            r@ == final(shape)@,
    {
        self.delete(shape);
        let mut cand = shape.duplicate();
        let _ = cand.rotate(rotate);
        let (minx, maxx) = cand.minmax();
        if (shape.x as i64) + (minx as i64) < 0 || (shape.x as i64) + (maxx as i64) > self.rows as i64 - 1 {
            self.put(shape);
            return shape.duplicate();
        }
        match self.updatable(&cand) {
            Ok(()) => {
                let _ = shape.rotate(rotate);
                self.put(shape);
            },
            Err(()) => {
                self.put(shape);
            },
        }
        shape.duplicate()
    }

    /// Moves the piece `side` columns sideways (negative: left), clamped so
    /// that its occupied columns stay on the board. If it does not fit there
    /// it stays where it was. Either way the piece ends drawn on the board,
    /// and a copy of it is returned.
    pub fn move_side(&mut self, shape: &mut Shape, side: i32) -> (r: Shape)
        requires
            old(self).wf(),
            old(shape)@.wf(),
            i32::MIN <= old(shape).x + side <= i32::MAX,
        ensures
            final(self).wf(),
            final(self).rows == old(self).rows,
            final(self).cols == old(self).cols,
            ({
                let rows = old(self).rows as int;
                let e = erased(old(self).sc@, rows, old(shape)@);
                let moved = shifted(old(shape)@, side as int, rows);
                if can_place(e, rows, moved) {
                    final(shape)@ == moved && final(self).sc@ == drawn(e, rows, moved)
                } else {
                    final(shape)@ == old(shape)@ && final(self).sc@ == drawn(e, rows, old(shape)@)
                }
            }),
            r@ == final(shape)@,
    {
        self.delete(shape);
        let x0 = shape.x;
        let (minx, maxx) = shape.minmax();
        let mut x = shape.x as i64 + side as i64;
        if x + (minx as i64) < 0 {
            x = -(minx as i64);
        }
        if x + (maxx as i64) > self.rows as i64 - 1 {
            x = self.rows as i64 - (maxx as i64) - 1;
        }
        shape.x = x as i32;
        match self.updatable(shape) {
            Ok(()) => {
                self.put(shape);
            },
            Err(()) => {
                shape.x = x0;
                self.put(shape);
            },
        }
        shape.duplicate()
    }
}

} // verus!
