//! The uniform cell grid of the occlusion scene: each projected triangle is
//! registered, by index, in every cell its bounding box covers, and a segment
//! gathers the triangles of the cells its own bounding box covers.
use vstd::prelude::*;
use crate::seqs::lemma_push_contains;

verus! {

/// A square grid of cells, each holding triangle indices.
pub struct CellGrid {
    size: usize,
    cells: Vec<Vec<usize>>,
}

/// The cells `cx0..=cx1` by `cy0..=cy1`.
pub open spec fn in_rect(cx: int, cy: int, cx0: int, cy0: int, cx1: int, cy1: int) -> bool {
    cx0 <= cx <= cx1 && cy0 <= cy <= cy1
}

pub open spec fn strictly_increasing(s: Seq<usize>) -> bool {
    forall|i: int, j: int| 0 <= i < j < s.len() ==> s[i] < s[j]
}

impl CellGrid {
    /// The grid's width and height, in cells.
    pub closed spec fn spec_size(&self) -> nat {
        self.size as nat
    }

    pub closed spec fn wf(&self) -> bool {
        &&& self.size >= 1
        &&& self.size * self.size <= usize::MAX
        &&& self.cells@.len() == self.size * self.size
    }

    /// The triangle indices registered in cell `(cx, cy)`, in order.
    pub closed spec fn cell(&self, cx: int, cy: int) -> Seq<usize> {
        self.cells@[cy * self.size + cx]@
    }

    /// Whether triangle `id` is registered in some cell of the rectangle.
    pub open spec fn covers(&self, id: usize, cx0: int, cy0: int, cx1: int, cy1: int) -> bool {
        exists|cx: int, cy: int|
            #![trigger self.cell(cx, cy)]
            in_rect(cx, cy, cx0, cy0, cx1, cy1) && 0 <= cx < self.spec_size() && 0 <= cy
                < self.spec_size() && self.cell(cx, cy).contains(id)
    }

    /// An empty `size` by `size` grid.
    pub fn new(size: usize) -> (g: Self)
        requires
            1 <= size,
            size * size <= usize::MAX,
        ensures
            g.wf(),
            g.spec_size() == size,
            forall|cx: int, cy: int|
                0 <= cx < size && 0 <= cy < size ==> #[trigger] g.cell(cx, cy).len() == 0,
    {
        let total = size * size;
        let mut cells: Vec<Vec<usize>> = Vec::new();
        let mut i: usize = 0;
        while i < total
            invariant
                i <= total,
                cells@.len() == i,
                forall|j: int| 0 <= j < i ==> (#[trigger] cells@[j])@.len() == 0,
            decreases total - i,
        {
            cells.push(Vec::new());
            i += 1;
        }
        let g = CellGrid { size, cells };
        assert forall|cx: int, cy: int| 0 <= cx < size && 0 <= cy < size implies #[trigger] g.cell(
            cx,
            cy,
        ).len() == 0 by {
            lemma_cell_index(cx, cy, size as int);
        }
        g
    }

    /// The grid's width and height, in cells.
    pub fn size(&self) -> (s: usize)
        ensures
            s == self.spec_size(),
    {
        self.size
    }

    /// The cell coordinate of a floored grid position: clamped to the grid.
    pub fn cell_index(&self, raw: isize) -> (c: usize)
        requires
            self.wf(),
        ensures
            c < self.spec_size(),
            raw < 0 ==> c == 0,
            0 <= raw < self.spec_size() ==> c == raw,
            raw >= self.spec_size() ==> c == self.spec_size() - 1,
    {
        if raw < 0 {
            0
        } else if raw as usize >= self.size {
            self.size - 1
        } else {
            raw as usize
        }
    }

    /// Registers triangle `id` in each cell of the rectangle.
    pub fn insert(&mut self, id: usize, cx0: usize, cy0: usize, cx1: usize, cy1: usize)
        requires
            old(self).wf(),
            cx1 < old(self).spec_size(),
            cy1 < old(self).spec_size(),
        ensures
            final(self).wf(),
            final(self).spec_size() == old(self).spec_size(),
            forall|cx: int, cy: int|
                0 <= cx < old(self).spec_size() && 0 <= cy < old(self).spec_size()
                    ==> #[trigger] final(self).cell(cx, cy) == if in_rect(
                    cx,
                    cy,
                    cx0 as int,
                    cy0 as int,
                    cx1 as int,
                    cy1 as int,
                ) {
                    old(self).cell(cx, cy).push(id)
                } else {
                    old(self).cell(cx, cy)
                },
    {
        let size = self.size;
        if cx0 > cx1 || cy0 > cy1 {
            return;
        }
        let ghost before = self.cells@;
        let mut cy = cy0;
        while cy <= cy1
            invariant
                self.size == size,
                size >= 1,
                size * size <= usize::MAX,
                self.cells@.len() == size * size,
                before.len() == size * size,
                cx0 <= cx1 < size,
                cy1 < size,
                cy0 <= cy <= cy1 + 1,
                forall|x: int, y: int|
                    0 <= x < size && 0 <= y < size ==> (#[trigger] self.cells@[y * size + x])@
                        == if in_rect(x, y, cx0 as int, cy0 as int, cx1 as int, (cy - 1) as int) {
                        before[y * size + x]@.push(id)
                    } else {
                        before[y * size + x]@
                    },
            decreases cy1 + 1 - cy,
        {
            let mut cx = cx0;
            while cx <= cx1
                invariant
                    self.size == size,
                    size >= 1,
                    size * size <= usize::MAX,
                    self.cells@.len() == size * size,
                    before.len() == size * size,
                    cx1 < size,
                    cy1 < size,
                    cy0 <= cy <= cy1,
                    cx0 <= cx <= cx1 + 1,
                    forall|x: int, y: int|
                        0 <= x < size && 0 <= y < size ==> (#[trigger] self.cells@[y * size
                            + x])@ == if in_rect(
                            x,
                            y,
                            cx0 as int,
                            cy0 as int,
                            cx1 as int,
                            (cy - 1) as int,
                        ) || (y == cy && cx0 <= x < cx) {
                            before[y * size + x]@.push(id)
                        } else {
                            before[y * size + x]@
                        },
                decreases cx1 + 1 - cx,
            {
                proof {
                    lemma_cell_index(cx as int, cy as int, size as int);
                }
                let k = cy * size + cx;
                self.cells[k].push(id);
                proof {
                    assert forall|x: int, y: int| 0 <= x < size && 0 <= y < size implies (
                    #[trigger] self.cells@[y * size + x])@ == if in_rect(
                        x,
                        y,
                        cx0 as int,
                        cy0 as int,
                        cx1 as int,
                        (cy - 1) as int,
                    ) || (y == cy && cx0 <= x < cx + 1) {
                        before[y * size + x]@.push(id)
                    } else {
                        before[y * size + x]@
                    } by {
                        lemma_cell_index(x, y, size as int);
                        if y * size + x == cy * size + cx {
                            lemma_cell_index_injective(x, y, cx as int, cy as int, size as int);
                        }
                    }
                }
                cx += 1;
            }
            cy += 1;
        }
    }

    /// The triangles registered in the cells of the rectangle, each once, in
    /// increasing order.
    pub fn candidates(&self, cx0: usize, cy0: usize, cx1: usize, cy1: usize) -> (r: Vec<usize>)
        requires
            self.wf(),
            cx1 < self.spec_size(),
            cy1 < self.spec_size(),
        ensures
            strictly_increasing(r@),
            forall|id: usize|
                r@.contains(id) <==> self.covers(id, cx0 as int, cy0 as int, cx1 as int, cy1 as int),
    {
        let size = self.size;
        let mut r: Vec<usize> = Vec::new();
        if cx0 > cx1 || cy0 > cy1 {
            proof {
                assert forall|id: usize|
                    r@.contains(id) <==> self.covers(
                        id,
                        cx0 as int,
                        cy0 as int,
                        cx1 as int,
                        cy1 as int,
                    ) by {}
            }
            return r;
        }
        let mut cy = cy0;
        while cy <= cy1
            invariant
                self.wf(),
                self.spec_size() == size,
                cx0 <= cx1 < size,
                cy1 < size,
                cy0 <= cy <= cy1 + 1,
                strictly_increasing(r@),
                forall|id: usize|
                    r@.contains(id) <==> self.covers(
                        id,
                        cx0 as int,
                        cy0 as int,
                        cx1 as int,
                        (cy - 1) as int,
                    ),
            decreases cy1 + 1 - cy,
        {
            let mut cx = cx0;
            while cx <= cx1
                invariant
                    self.wf(),
                    self.spec_size() == size,
                    cx1 < size,
                    cy1 < size,
                    cy0 <= cy <= cy1,
                    cx0 <= cx <= cx1 + 1,
                    strictly_increasing(r@),
                    forall|id: usize|
                        r@.contains(id) <==> (self.covers(
                            id,
                            cx0 as int,
                            cy0 as int,
                            cx1 as int,
                            (cy - 1) as int,
                        ) || exists|x: int|
                            cx0 <= x < cx && #[trigger] self.cell(x, cy as int).contains(id)),
                decreases cx1 + 1 - cx,
            {
                proof {
                    lemma_cell_index(cx as int, cy as int, size as int);
                }
                let cell = &self.cells[cy * size + cx];
                assert(cell@ == self.cell(cx as int, cy as int));
                let ghost before = r@;
                let mut i: usize = 0;
                while i < cell.len()
                    invariant
                        i <= cell@.len(),
                        strictly_increasing(r@),
                        forall|id: usize|
                            r@.contains(id) <==> (before.contains(id) || cell@.take(
                                i as int,
                            ).contains(id)),
                    decreases cell@.len() - i,
                {
                    let ghost prev = r@;
                    let ghost j = i as int;
                    assert(forall|id: usize|
                        prev.contains(id) <==> (before.contains(id) || cell@.take(j).contains(
                            id,
                        )));
                    insert_sorted(&mut r, cell[i]);
                    i += 1;
                    proof {
                        assert(cell@.take(i as int) =~= cell@.take(j).push(cell@[j]));
                        assert forall|id: usize|
                            r@.contains(id) <==> (before.contains(id) || cell@.take(
                                i as int,
                            ).contains(id)) by {
                            assert(prev.contains(id) <==> (before.contains(id) || cell@.take(
                                j,
                            ).contains(id)));
                            lemma_push_contains(cell@.take(j), cell@[j], id);
                        }
                    }
                }
                proof {
                    assert(cell@.take(cell@.len() as int) =~= cell@);
                    assert forall|id: usize|
                        r@.contains(id) <==> (self.covers(
                            id,
                            cx0 as int,
                            cy0 as int,
                            cx1 as int,
                            (cy - 1) as int,
                        ) || exists|x: int|
                            cx0 <= x < cx + 1 && #[trigger] self.cell(x, cy as int).contains(
                                id,
                            )) by {
                        let old_cover = self.covers(
                            id,
                            cx0 as int,
                            cy0 as int,
                            cx1 as int,
                            (cy - 1) as int,
                        );
                        assert(before.contains(id) <==> (old_cover || exists|x: int|
                            cx0 <= x < cx && #[trigger] self.cell(x, cy as int).contains(id)));
                        assert(r@.contains(id) <==> (before.contains(id) || cell@.contains(id)));
                        if r@.contains(id) {
                            if before.contains(id) {
                                if !old_cover {
                                    let x = choose|x: int|
                                        cx0 <= x < cx && #[trigger] self.cell(
                                            x,
                                            cy as int,
                                        ).contains(id);
                                    assert(cx0 <= x < cx + 1 && self.cell(x, cy as int).contains(
                                        id,
                                    ));
                                }
                            } else {
                                assert(self.cell(cx as int, cy as int).contains(id));
                            }
                        }
                        if exists|x: int|
                            cx0 <= x < cx + 1 && #[trigger] self.cell(x, cy as int).contains(id) {
                            let x = choose|x: int|
                                cx0 <= x < cx + 1 && #[trigger] self.cell(x, cy as int).contains(
                                    id,
                                );
                            if x < cx {
                                assert(before.contains(id));
                            } else {
                                assert(cell@.contains(id));
                            }
                        }
                    }
                }
                cx += 1;
            }
            proof {
                assert forall|id: usize|
                    r@.contains(id) <==> self.covers(
                        id,
                        cx0 as int,
                        cy0 as int,
                        cx1 as int,
                        cy as int,
                    ) by {
                    if self.covers(id, cx0 as int, cy0 as int, cx1 as int, cy as int) {
                        let (x, y) = choose|x: int, y: int|
                            #![trigger self.cell(x, y)]
                            in_rect(x, y, cx0 as int, cy0 as int, cx1 as int, cy as int) && 0 <= x
                                < self.spec_size() && 0 <= y < self.spec_size() && self.cell(
                                x,
                                y,
                            ).contains(id);
                        if y < cy {
                            assert(self.covers(
                                id,
                                cx0 as int,
                                cy0 as int,
                                cx1 as int,
                                (cy - 1) as int,
                            ));
                        } else {
                            assert(self.cell(x, cy as int).contains(id));
                        }
                    }
                    if r@.contains(id) && !self.covers(
                        id,
                        cx0 as int,
                        cy0 as int,
                        cx1 as int,
                        (cy - 1) as int,
                    ) {
                        let x = choose|x: int|
                            cx0 <= x < cx1 + 1 && #[trigger] self.cell(x, cy as int).contains(id);
                        assert(in_rect(x, cy as int, cx0 as int, cy0 as int, cx1 as int, cy as int));
                    }
                }
            }
            cy += 1;
        }
        r
    }
}

proof fn lemma_cell_index(cx: int, cy: int, size: int)
    requires
        0 <= cx < size,
        0 <= cy < size,
    ensures
        0 <= cy * size + cx < size * size,
{
    assert(cy * size <= (size - 1) * size) by (nonlinear_arith)
        requires
            0 <= cy < size,
    ;
    assert((size - 1) * size + size == size * size) by (nonlinear_arith);
    assert(0 <= cy * size) by (nonlinear_arith)
        requires
            0 <= cy,
            0 <= size,
    ;
}

proof fn lemma_cell_index_injective(x: int, y: int, a: int, b: int, size: int)
    requires
        0 <= x < size,
        0 <= y < size,
        0 <= a < size,
        0 <= b < size,
        y * size + x == b * size + a,
    ensures
        x == a,
        y == b,
{
    assert(x == a && y == b) by (nonlinear_arith)
        requires
            0 <= x < size,
            0 <= a < size,
            0 <= y,
            0 <= b,
            y * size + x == b * size + a,
    ;
}

/// Inserts `x` into a strictly increasing vector unless it is there.
pub fn insert_sorted(v: &mut Vec<usize>, x: usize)
    requires
        strictly_increasing(old(v)@),
    ensures
        strictly_increasing(final(v)@),
        forall|y: usize| final(v)@.contains(y) <==> (old(v)@.contains(y) || y == x),
{
    let mut i: usize = 0;
    while i < v.len() && v[i] < x
        invariant
            i <= v@.len(),
            v@ == old(v)@,
            forall|j: int| 0 <= j < i ==> v@[j] < x,
        decreases v@.len() - i,
    {
        i += 1;
    }
    if i < v.len() && v[i] == x {
        return;
    }
    let ghost before = v@;
    assert(before == old(v)@);
    v.insert(i, x);
    assert forall|y: usize| v@.contains(y) <==> (old(v)@.contains(y) || y == x) by {
        if v@.contains(y) {
            let k = choose|k: int| 0 <= k < v@.len() && v@[k] == y;
            if k < i {
                assert(before[k] == y);
            } else if k > i {
                assert(before[k - 1] == y);
            }
        }
        if before.contains(y) {
            let k = choose|k: int| 0 <= k < before.len() && before[k] == y;
            if k < i {
                assert(v@[k] == y);
            } else {
                assert(v@[k + 1] == y);
            }
        }
        if y == x {
            assert(v@[i as int] == x);
        }
    }
}

/// A triangle registered over one rectangle is a candidate of every query
/// rectangle that overlaps it, so no occluder of a segment's cells is missed.
pub proof fn law_registered_triangle_is_found(
    g: CellGrid,
    h: CellGrid,
    id: usize,
    r: (int, int, int, int),
    q: (int, int, int, int),
)
    requires
        g.wf(),
        h.spec_size() == g.spec_size(),
        0 <= r.0 <= r.2 < g.spec_size(),
        0 <= r.1 <= r.3 < g.spec_size(),
        forall|cx: int, cy: int|
            0 <= cx < g.spec_size() && 0 <= cy < g.spec_size() ==> #[trigger] h.cell(cx, cy) == if in_rect(
                cx,
                cy,
                r.0,
                r.1,
                r.2,
                r.3,
            ) {
                g.cell(cx, cy).push(id)
            } else {
                g.cell(cx, cy)
            },
        q.0 <= q.2,
        q.1 <= q.3,
        q.0 <= r.2 && r.0 <= q.2,
        q.1 <= r.3 && r.1 <= q.3,
    ensures
        h.covers(id, q.0, q.1, q.2, q.3),
{
    let cx = if q.0 > r.0 {
        q.0
    } else {
        r.0
    };
    let cy = if q.1 > r.1 {
        q.1
    } else {
        r.1
    };
    assert(in_rect(cx, cy, r.0, r.1, r.2, r.3));
    assert(in_rect(cx, cy, q.0, q.1, q.2, q.3));
    assert(h.cell(cx, cy) == g.cell(cx, cy).push(id));
    assert(h.cell(cx, cy)[g.cell(cx, cy).len() as int] == id);
    assert(h.cell(cx, cy).contains(id));
}

} // verus!
