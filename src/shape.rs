use vstd::prelude::*;

verus! {

/// The seven tetromino kinds.
#[derive(Clone, Copy, Debug, PartialEq, Eq)]
pub enum Shapes {
    Tshape,
    Ishape,
    Oshape,
    Sshape,
    Zshape,
    Jshape,
    Lshape,
}

/// The kind picked by a random draw `n`: the kinds in declaration order, `n` modulo seven.
pub open spec fn kind_at(n: int) -> Shapes {
    let m = n % 7;
    if m == 0 {
        Shapes::Tshape
    } else if m == 1 {
        Shapes::Ishape
    } else if m == 2 {
        Shapes::Oshape
    } else if m == 3 {
        Shapes::Sshape
    } else if m == 4 {
        Shapes::Zshape
    } else if m == 5 {
        Shapes::Jshape
    } else {
        Shapes::Lshape
    }
}

/// Width and height of a kind's square bounding box.
pub open spec fn side(kind: Shapes) -> nat {
    match kind {
        Shapes::Ishape => 4,
        Shapes::Oshape => 2,
        _ => 3,
    }
}

/// The authored occupancy mask of `kind` in orientation `r` (0..=3);
/// cell `(col, row)` of the bounding box is at index `col + row * side(kind)`.
pub open spec fn mask(kind: Shapes, r: int) -> Seq<bool> {
    match kind {
        Shapes::Tshape => if r == 0 {
            seq![false, false, false, true, true, true, false, true, false]
        } else if r == 1 {
            seq![false, true, false, true, true, false, false, true, false]
        } else if r == 2 {
            seq![false, true, false, true, true, true, false, false, false]
        } else {
            seq![false, true, false, false, true, true, false, true, false]
        },
        Shapes::Ishape => if r == 0 {
            seq![
                false, false, false, false, true, true, true, true,
                false, false, false, false, false, false, false, false,
            ]
        } else if r == 1 {
            seq![
                false, false, true, false, false, false, true, false,
                false, false, true, false, false, false, true, false,
            ]
        } else if r == 2 {
            seq![
                false, false, false, false, false, false, false, false,
                true, true, true, true, false, false, false, false,
            ]
        } else {
            seq![
                false, true, false, false, false, true, false, false,
                false, true, false, false, false, true, false, false,
            ]
        },
        Shapes::Oshape => seq![true, true, true, true],
        Shapes::Sshape => if r == 0 {
            seq![false, true, true, true, true, false, false, false, false]
        } else if r == 1 {
            seq![false, true, false, false, true, true, false, false, true]
        } else if r == 2 {
            seq![false, false, false, false, true, true, true, true, false]
        } else {
            seq![true, false, false, true, true, false, false, true, false]
        },
        Shapes::Zshape => if r == 0 {
            seq![true, true, false, false, true, true, false, false, false]
        } else if r == 1 {
            seq![false, false, true, false, true, true, false, true, false]
        } else if r == 2 {
            seq![false, false, false, true, true, false, false, true, true]
        } else {
            seq![false, true, false, true, true, false, true, false, false]
        },
        Shapes::Jshape => if r == 0 {
            seq![true, false, false, true, true, true, false, false, false]
        } else if r == 1 {
            seq![false, true, true, false, true, false, false, true, false]
        } else if r == 2 {
            seq![false, false, false, true, true, true, false, false, true]
        } else {
            seq![false, true, false, false, true, false, true, true, false]
        },
        Shapes::Lshape => if r == 0 {
            seq![false, false, true, true, true, true, false, false, false]
        } else if r == 1 {
            seq![false, true, false, false, true, false, false, true, true]
        } else if r == 2 {
            seq![false, false, false, true, true, true, true, false, false]
        } else {
            seq![true, true, false, false, true, false, false, true, false]
        },
    }
}

/// The orientation reached from `r` by turning `turn` quarter turns
/// (positive: clockwise), wrapped into 0..=3.
pub open spec fn turned(r: int, turn: int) -> int {
    (r + turn) % 4
}

/// What a piece is: its kind, the top-left corner of its bounding box,
/// the box's size, its orientation and its occupancy mask.
pub struct ShapeView {
    pub kind: Shapes,
    pub x: int,
    pub y: int,
    pub dx: nat,
    pub dy: nat,
    pub rotate: int,
    pub canvas: Seq<bool>,
}

impl ShapeView {
    /// The mask is the authored one for the kind and orientation.
    pub open spec fn wf(self) -> bool {
        &&& 0 <= self.rotate <= 3
        &&& self.dx == side(self.kind)
        &&& self.dy == side(self.kind)
        &&& self.canvas == mask(self.kind, self.rotate)
    }

    /// Some row of the box has column `i` occupied.
    pub open spec fn column_used(self, i: int) -> bool {
        exists|j: int| 0 <= j < self.dy && #[trigger] self.canvas[i + j * self.dx]
    }

    /// The same piece turned by `turn` quarter turns, in place.
    pub open spec fn rotated(self, turn: int) -> ShapeView {
        let r = turned(self.rotate, turn);
        ShapeView { rotate: r, canvas: mask(self.kind, r), ..self }
    }
}

/// The least occupied column from `i` on, or the box width when there is none.
pub open spec fn min_col_from(s: ShapeView, i: int) -> int
    decreases s.dx - i,
{
    if i >= s.dx {
        s.dx as int
    } else if s.column_used(i) {
        i
    } else {
        min_col_from(s, i + 1)
    }
}

/// The greatest occupied column below `n`, or 0 when there is none.
pub open spec fn max_col_below(s: ShapeView, n: int) -> int
    decreases n,
{
    if n <= 1 {
        0
    } else if s.column_used(n - 1) {
        n - 1
    } else {
        max_col_below(s, n - 1)
    }
}

/// The leftmost occupied column of the box (the width when none is).
pub open spec fn min_col(s: ShapeView) -> int {
    min_col_from(s, 0)
}

/// The rightmost occupied column of the box (0 when none is).
pub open spec fn max_col(s: ShapeView) -> int {
    max_col_below(s, s.dx as int)
}

/// A fresh piece of the kind that draw `n` selects, in orientation 0, at the
/// spawn point of a board `sc_dx` cells wide.
pub open spec fn spawned(sc_dx: int, n: int) -> ShapeView {
    let kind = kind_at(n);
    ShapeView {
        kind,
        x: sc_dx / 2 - 2,
        y: 0,
        dx: side(kind),
        dy: side(kind),
        rotate: 0,
        canvas: mask(kind, 0),
    }
}

proof fn lemma_min_col(s: ShapeView, k: int, m: int)
    requires
        0 <= k <= m <= s.dx,
        forall|i: int| k <= i < m ==> !s.column_used(i),
        m == s.dx || s.column_used(m),
    ensures
        min_col_from(s, k) == m,
    decreases m - k,
{
    if k < m {
        lemma_min_col(s, k + 1, m);
    }
}

proof fn lemma_max_col(s: ShapeView, n: int, m: int)
    requires
        0 <= m < n,
        forall|i: int| m < i < n ==> !s.column_used(i),
        m == 0 || s.column_used(m),
    ensures
        max_col_below(s, n) == m,
    decreases n,
{
    if n - 1 > m {
        lemma_max_col(s, n - 1, m);
    }
}

/// A falling piece.
pub struct Shape {
    pub shape: Shapes,
    pub x: i32,
    pub y: i32,
    pub dx: usize,
    pub dy: usize,
    pub rotate: i32,
    pub canvas: Vec<bool>,
}

impl View for Shape {
    type V = ShapeView;

    open spec fn view(&self) -> ShapeView {
        ShapeView {
            kind: self.shape,
            x: self.x as int,
            y: self.y as int,
            dx: self.dx as nat,
            dy: self.dy as nat,
            rotate: self.rotate as int,
            canvas: self.canvas@,
        }
    }
}

/// Every authored mask fills its bounding box exactly and occupies at least one cell.
pub proof fn lemma_mask_shape(kind: Shapes, r: int)
    requires
        0 <= r <= 3,
    ensures
        mask(kind, r).len() == side(kind) * side(kind),
        exists|c: int| 0 <= c < mask(kind, r).len() && #[trigger] mask(kind, r)[c],
{
    match kind {
        Shapes::Oshape => assert(mask(kind, r)[0]),
        Shapes::Ishape => if r == 0 {
            assert(mask(kind, r)[4]);
        } else if r == 1 {
            assert(mask(kind, r)[2]);
        } else if r == 2 {
            assert(mask(kind, r)[8]);
        } else {
            assert(mask(kind, r)[1]);
        },
        _ => assert(mask(kind, r)[4]),
    }
}

/// Four clockwise quarter turns give back the mask one started from, and so
/// does a counter-clockwise turn followed by a clockwise one, or the reverse.
pub proof fn lemma_rotation_cycles(s: ShapeView)
    requires
        s.wf(),
    ensures
        s.rotated(1).rotated(1).rotated(1).rotated(1) == s,
        s.rotated(-1).rotated(1) == s,
        s.rotated(1).rotated(-1) == s,
        s.rotated(1).wf(),
        s.rotated(-1).wf(),
{
}

/// The occupancy mask of `kind` in orientation `r`.
fn rotation_mask(kind: Shapes, r: i32) -> (v: Vec<bool>)
    requires
        0 <= r <= 3,
    ensures
        v@ == mask(kind, r as int),
{
    let v = match kind {
        Shapes::Tshape => if r == 0 {
            vec![false, false, false, true, true, true, false, true, false]
        } else if r == 1 {
            vec![false, true, false, true, true, false, false, true, false]
        } else if r == 2 {
            vec![false, true, false, true, true, true, false, false, false]
        } else {
            vec![false, true, false, false, true, true, false, true, false]
        },
        Shapes::Ishape => if r == 0 {
            vec![
                false, false, false, false, true, true, true, true,
                false, false, false, false, false, false, false, false,
            ]
        } else if r == 1 {
            vec![
                false, false, true, false, false, false, true, false,
                false, false, true, false, false, false, true, false,
            ]
        } else if r == 2 {
            vec![
                false, false, false, false, false, false, false, false,
                true, true, true, true, false, false, false, false,
            ]
        } else {
            vec![
                false, true, false, false, false, true, false, false,
                false, true, false, false, false, true, false, false,
            ]
        },
        Shapes::Oshape => vec![true, true, true, true],
        Shapes::Sshape => if r == 0 {
            vec![false, true, true, true, true, false, false, false, false]
        } else if r == 1 {
            vec![false, true, false, false, true, true, false, false, true]
        } else if r == 2 {
            vec![false, false, false, false, true, true, true, true, false]
        } else {
            vec![true, false, false, true, true, false, false, true, false]
        },
        Shapes::Zshape => if r == 0 {
            vec![true, true, false, false, true, true, false, false, false]
        } else if r == 1 {
            vec![false, false, true, false, true, true, false, true, false]
        } else if r == 2 {
            vec![false, false, false, true, true, false, false, true, true]
        } else {
            vec![false, true, false, true, true, false, true, false, false]
        },
        Shapes::Jshape => if r == 0 {
            vec![true, false, false, true, true, true, false, false, false]
        } else if r == 1 {
            vec![false, true, true, false, true, false, false, true, false]
        } else if r == 2 {
            vec![false, false, false, true, true, true, false, false, true]
        } else {
            vec![false, true, false, false, true, false, true, true, false]
        },
        Shapes::Lshape => if r == 0 {
            vec![false, false, true, true, true, true, false, false, false]
        } else if r == 1 {
            vec![false, true, false, false, true, false, false, true, true]
        } else if r == 2 {
            vec![false, false, false, true, true, true, true, false, false]
        } else {
            vec![true, true, false, false, true, false, false, true, false]
        },
    };
    assert(v@ =~= mask(kind, r as int));
    v
}

/// The kind that a random draw `n` selects.
fn kind_of_draw(n: usize) -> (k: Shapes)
    ensures
        k == kind_at(n as int),
{
    let m = n % 7;
    if m == 0 {
        Shapes::Tshape
    } else if m == 1 {
        Shapes::Ishape
    } else if m == 2 {
        Shapes::Oshape
    } else if m == 3 {
        Shapes::Sshape
    } else if m == 4 {
        Shapes::Zshape
    } else if m == 5 {
        Shapes::Jshape
    } else {
        Shapes::Lshape
    }
}

/// The side of a kind's bounding box.
fn side_of(kind: Shapes) -> (n: usize)
    ensures
        n == side(kind),
{
    match kind {
        Shapes::Ishape => 4,
        Shapes::Oshape => 2,
        _ => 3,
    }
}

impl Shape {
    /// A fresh piece of the kind selected by the random draw `rand_num`, in
    /// orientation 0, at the spawn point of a board `sc_dx` cells wide.
    pub fn new(sc_dx: i32, rand_num: usize) -> (r: Shape)
        requires
            sc_dx >= 0,
        ensures
            r@.wf(),
            r@.kind == kind_at(rand_num as int),
            r@.x == sc_dx / 2 - 2,
            r@.y == 0,
            r@.rotate == 0,
            r@ == spawned(sc_dx as int, rand_num as int),
    {
        let kind = kind_of_draw(rand_num);
        let n = side_of(kind);
        Shape { shape: kind, x: sc_dx / 2 - 2, y: 0, dx: n, dy: n, rotate: 0, canvas: rotation_mask(kind, 0) }
    }

    /// A copy of this piece.
    pub fn duplicate(&self) -> (r: Shape)
        ensures
            r@ == self@,
    {
        let mut canvas: Vec<bool> = Vec::new();
        let mut i: usize = 0;
        while i < self.canvas.len()
            invariant
                i <= self.canvas.len(),
                canvas@ == self.canvas@.subrange(0, i as int),
            decreases self.canvas.len() - i,
        {
            canvas.push(self.canvas[i]);
            i = i + 1;
        }
        assert(canvas@ =~= self.canvas@);
        Shape {
            shape: self.shape,
            x: self.x,
            y: self.y,
            dx: self.dx,
            dy: self.dy,
            rotate: self.rotate,
            canvas,
        }
    }

    /// The least and the greatest occupied column of the bounding box.
    /// With no occupied cell the least is the box width and the greatest 0.
    pub fn minmax(&self) -> (r: (i32, i32))
        requires
            self@.wf(),
        ensures
            0 <= r.0 <= self.dx,
            0 <= r.1 < self.dx,
            r.0 == self.dx || self@.column_used(r.0 as int),
            forall|i: int| 0 <= i < r.0 ==> !self@.column_used(i),
            r.1 == 0 || self@.column_used(r.1 as int),
            forall|i: int| r.1 < i < self.dx ==> !self@.column_used(i),
            r.0 == min_col(self@),
            r.1 == max_col(self@),
    {
        proof {
            lemma_mask_shape(self.shape, self.rotate as int);
        }
        let mut minx = self.dx as i32;
        let mut maxx: i32 = 0;
        let mut i: usize = 0;
        while i < self.dx
            invariant
                self@.wf(),
                self.canvas.len() == self.dx * self.dy,
                2 <= self.dx <= 4,
                self.dy == self.dx,
                i <= self.dx,
                0 <= minx <= self.dx,
                0 <= maxx < self.dx,
                minx == self.dx || (minx < i && self@.column_used(minx as int)),
                forall|c: int| 0 <= c < i && c < minx ==> !self@.column_used(c),
                maxx == 0 || (maxx < i && self@.column_used(maxx as int)),
                forall|c: int| maxx < c < i ==> !self@.column_used(c),
            decreases self.dx - i,
        {
            let mut used = false;
            let mut j: usize = 0;
            while j < self.dy
                invariant
                    self.canvas.len() == self.dx * self.dy,
                    self.dy == self.dx,
                    i < self.dx,
                    j <= self.dy,
                    used == exists|t: int| 0 <= t < j && #[trigger] self.canvas@[i + t * self.dx],
                decreases self.dy - j,
            {
                assert(i + j * self.dx < self.dx * self.dy) by (nonlinear_arith)
                    requires
                        i < self.dx,
                        j < self.dy,
                        self.dy == self.dx,
                ;
                if self.canvas[i + j * self.dx] {
                    used = true;
                }
                j = j + 1;
            }
            assert(used == self@.column_used(i as int));
            if used && (i as i32) < minx {
                minx = i as i32;
            }
            if used && (i as i32) > maxx {
                maxx = i as i32;
            }
            i = i + 1;
        }
        proof {
            lemma_min_col(self@, 0, minx as int);
            lemma_max_col(self@, self.dx as int, maxx as int);
        }
        (minx, maxx)
    }

    /// Turns the piece by `rotate` quarter turns (positive: clockwise) and
    /// returns a copy of the turned piece. Position and kind stay.
    pub fn rotate(&mut self, rotate: i32) -> (r: Shape)
        requires
            old(self)@.wf(),
            -4 <= rotate <= 4,
        ensures
            final(self)@ == old(self)@.rotated(rotate as int),
            final(self)@.wf(),
            r@ == final(self)@,
    {
        self.rotate = self.rotate + rotate;
        if self.rotate < 0 {
            self.rotate = self.rotate + 4;
        }
        if self.rotate > 3 {
            self.rotate = self.rotate - 4;
        }
        self.canvas = rotation_mask(self.shape, self.rotate);
        self.duplicate()
    }
}

} // verus!
