//! The spatial index: rebuilt from the registry snapshot once per step, it
//! answers radius-bounded neighbor queries with a conservative candidate set.
//!
//! The structure is a 16-by-16 grid of buckets over the square
//! `[-512, 512)` world units; positions beyond the rim are clamped into the
//! rim cells. `query_radius` returns every entry whose cell touches the
//! bounding box of the query disk: a superset of all true matches (no false
//! negative, false positives allowed), exactly as the growth engine expects.
//! Callers needing true distances re-check them against the registry.

use vstd::prelude::*;
use crate::fixmath::clamp_spec;
use crate::fixmath::dist_sq;

verus! {

/// One indexed point: a node identity and the position it was inserted at.
#[derive(Clone, Copy, Debug, PartialEq, Eq, Structural)]
pub struct IndexEntry {
    pub id: usize,
    pub x: i64,
    pub y: i64,
}

/// Grid coordinate of a raw fixed-point coordinate, in `[0, 15]`.
pub open spec fn cell_coord(v: int) -> int {
    (clamp_spec(v, -33554432, 33554431) + 33554432) / 4194304
}

/// The bucket an entry at `(x, y)` belongs to.
pub open spec fn cell_index_at(x: int, y: int) -> int {
    cell_coord(y) * 16 + cell_coord(x)
}

/// Whether the cell of `(x, y)` touches the bounding box of the disk of
/// radius `r` around `(qx, qy)`: the candidate condition of `query_radius`.
pub open spec fn cell_in_range(x: int, y: int, qx: int, qy: int, r: int) -> bool {
    &&& cell_coord(qx - r) <= cell_coord(x) <= cell_coord(qx + r)
    &&& cell_coord(qy - r) <= cell_coord(y) <= cell_coord(qy + r)
}

/// Whether the identity sequence `s` mentions `id`.
pub open spec fn seq_has_id(s: Seq<usize>, id: int) -> bool {
    exists|j: int| 0 <= j < s.len() && #[trigger] s[j] == id
}

pub open spec fn entry_is(e: IndexEntry, id: int, x: int, y: int) -> bool {
    e.id == id && e.x == x && e.y == y
}

/// The grid of buckets.
pub struct SpatialIndex {
    pub cells: Vec<Vec<IndexEntry>>,
}

impl SpatialIndex {
    /// Internal consistency: 256 buckets, every entry in the bucket its
    /// position maps to.
    pub open spec fn wf(&self) -> bool {
        &&& self.cells@.len() == 256
        &&& forall|c: int, k: int|
            0 <= c < 256 && 0 <= k < self.cells@[c]@.len() ==> cell_index_at(
                (#[trigger] self.cells@[c]@[k]).x as int,
                self.cells@[c]@[k].y as int,
            ) == c
    }

    /// Whether some insertion put identity `id` at `(x, y)`.
    pub open spec fn has_entry(&self, id: int, x: int, y: int) -> bool {
        exists|c: int, k: int|
            0 <= c < self.cells@.len() && 0 <= k < self.cells@[c]@.len() && entry_is(
                #[trigger] self.cells@[c]@[k],
                id,
                x,
                y,
            )
    }

    /// Whether `id` has some entry whose cell touches the query box.
    pub open spec fn id_in_range(&self, id: int, qx: int, qy: int, r: int) -> bool {
        exists|x: int, y: int|
            #[trigger] self.has_entry(id, x, y) && cell_in_range(x, y, qx, qy, r)
    }

    /// An empty index.
    pub fn new() -> (r: SpatialIndex)
        ensures
            r.wf(),
            forall|id: int, x: int, y: int| !r.has_entry(id, x, y),
    {
        let mut cells: Vec<Vec<IndexEntry>> = Vec::new();
        while cells.len() < 256
            invariant
                cells@.len() <= 256,
                forall|c: int| 0 <= c < cells@.len() ==> (#[trigger] cells@[c])@.len() == 0,
            decreases 256 - cells@.len(),
        {
            cells.push(Vec::new());
        }
        SpatialIndex { cells }
    }

    /// Add a point. Any coordinate is accepted; far-away points land in the
    /// rim cells.
    pub fn insert(&mut self, id: usize, x: i64, y: i64)
        requires
            old(self).wf(),
        ensures
            final(self).wf(),
            forall|id2: int, x2: int, y2: int|
                #[trigger] final(self).has_entry(id2, x2, y2) <==> (old(self).has_entry(id2, x2, y2)
                    || (id2 == id && x2 == x && y2 == y)),
    {
        let cx = cell_of(x);
        let cy = cell_of(y);
        let c = cy * 16 + cx;
        proof {
            assert(c < 256);
            assert(cell_index_at(x as int, y as int) == c);
        }
        let e = IndexEntry { id, x, y };
        let ghost sold = old(self).cells@;
        let bucket = &mut self.cells[c];
        let ghost bold = bucket@;
        bucket.push(e);
        proof {
            let snew = self.cells@;
            assert(snew[c as int]@ =~= bold.push(e));
            assert(forall|c2: int| 0 <= c2 < 256 && c2 != c ==> snew[c2] == sold[c2]);
            assert forall|c2: int, k2: int|
                0 <= c2 < 256 && 0 <= k2 < snew[c2]@.len() implies cell_index_at(
                    (#[trigger] snew[c2]@[k2]).x as int,
                    snew[c2]@[k2].y as int,
                ) == c2 by {
                if c2 == c {
                    if k2 < bold.len() {
                        assert(snew[c2]@[k2] == sold[c2]@[k2]);
                        assert(cell_index_at(sold[c2]@[k2].x as int, sold[c2]@[k2].y as int) == c2);
                    } else {
                        assert(snew[c2]@[k2] == e);
                    }
                } else {
                    assert(cell_index_at(sold[c2]@[k2].x as int, sold[c2]@[k2].y as int) == c2);
                }
            }
            assert forall|id2: int, x2: int, y2: int|
                #[trigger] self.has_entry(id2, x2, y2) implies (old(self).has_entry(id2, x2, y2) || (
                    id2 == id && x2 == x && y2 == y)) by {
                let (c2, k2) = choose|c2: int, k2: int|
                    0 <= c2 < snew.len() && 0 <= k2 < snew[c2]@.len() && entry_is(
                        #[trigger] snew[c2]@[k2], id2, x2, y2);
                if c2 == c && k2 == bold.len() {
                } else {
                    assert(entry_is(sold[c2]@[k2], id2, x2, y2));
                    assert(old(self).has_entry(id2, x2, y2));
                }
            }
            assert forall|id2: int, x2: int, y2: int|
                old(self).has_entry(id2, x2, y2) implies #[trigger] self.has_entry(id2, x2, y2) by {
                let (c2, k2) = choose|c2: int, k2: int|
                    0 <= c2 < sold.len() && 0 <= k2 < sold[c2]@.len() && entry_is(
                        #[trigger] sold[c2]@[k2], id2, x2, y2);
                assert(entry_is(snew[c2]@[k2], id2, x2, y2));
            }
            assert(entry_is(snew[c as int]@[bold.len() as int], id as int, x as int, y as int));
            assert(self.has_entry(id as int, x as int, y as int));
        }
    }

    /// Candidate identities for the disk of radius `r` around `(qx, qy)`:
    /// every indexed point whose containing cell may overlap the disk. The
    /// result is a superset of all points within true distance `r` (the
    /// third clause); callers re-check true distances themselves.
    pub fn query_radius(&self, qx: i64, qy: i64, r: i64) -> (res: Vec<usize>)
        requires
            self.wf(),
            -536870912 <= qx <= 536870912,
            -536870912 <= qy <= 536870912,
            0 <= r <= 536870912,
        ensures
            forall|j: int|
                0 <= j < res@.len() ==> self.id_in_range(#[trigger] res@[j] as int, qx as int, qy as int, r as int),
            forall|id: int, x: int, y: int|
                #[trigger] self.has_entry(id, x, y) && cell_in_range(x, y, qx as int, qy as int, r as int)
                    ==> seq_has_id(res@, id),
            forall|id: int, x: int, y: int|
                #[trigger] self.has_entry(id, x, y) && dist_sq(x, y, qx as int, qy as int) <= r * r
                    ==> seq_has_id(res@, id),
    {
        let lox = cell_of(qx - r);
        let hix = cell_of(qx + r);
        let loy = cell_of(qy - r);
        let hiy = cell_of(qy + r);
        let mut res: Vec<usize> = Vec::new();
        let mut c: usize = 0;
        while c < 256
            invariant
                self.wf(),
                c <= 256,
                lox == cell_coord(qx as int - r as int),
                hix == cell_coord(qx as int + r as int),
                loy == cell_coord(qy as int - r as int),
                hiy == cell_coord(qy as int + r as int),
                forall|j: int|
                    0 <= j < res@.len() ==> self.id_in_range(
                        #[trigger] res@[j] as int, qx as int, qy as int, r as int),
                forall|c2: int, k2: int|
                    0 <= c2 < c && 0 <= k2 < self.cells@[c2]@.len() && cell_in_range(
                        (#[trigger] self.cells@[c2]@[k2]).x as int,
                        self.cells@[c2]@[k2].y as int,
                        qx as int,
                        qy as int,
                        r as int,
                    ) ==> seq_has_id(res@, self.cells@[c2]@[k2].id as int),
            decreases 256 - c,
        {
            let cx = c % 16;
            let cy = c / 16;
            if lox <= cx && cx <= hix && loy <= cy && cy <= hiy {
                let bucket = &self.cells[c];
                let mut k: usize = 0;
                while k < bucket.len()
                    invariant
                        self.wf(),
                        c < 256,
                        bucket == self.cells@[c as int],
                        cx == c % 16,
                        cy == c / 16,
                        lox == cell_coord(qx as int - r as int),
                        hix == cell_coord(qx as int + r as int),
                        loy == cell_coord(qy as int - r as int),
                        hiy == cell_coord(qy as int + r as int),
                        lox <= cx <= hix,
                        loy <= cy <= hiy,
                        k <= bucket@.len(),
                        forall|j: int|
                            0 <= j < res@.len() ==> self.id_in_range(
                                #[trigger] res@[j] as int, qx as int, qy as int, r as int),
                        forall|c2: int, k2: int|
                            0 <= c2 < c && 0 <= k2 < self.cells@[c2]@.len() && cell_in_range(
                                (#[trigger] self.cells@[c2]@[k2]).x as int,
                                self.cells@[c2]@[k2].y as int,
                                qx as int,
                                qy as int,
                                r as int,
                            ) ==> seq_has_id(res@, self.cells@[c2]@[k2].id as int),
                        forall|k2: int|
                            0 <= k2 < k ==> seq_has_id(res@, (#[trigger] bucket@[k2]).id as int),
                    decreases bucket@.len() - k,
                {
                    let e = bucket[k];
                    proof {
                        lemma_cell_split(c as int, cell_coord(e.x as int), cell_coord(e.y as int));
                        assert(self.has_entry(e.id as int, e.x as int, e.y as int));
                        assert(cell_in_range(e.x as int, e.y as int, qx as int, qy as int, r as int));
                        assert(self.id_in_range(e.id as int, qx as int, qy as int, r as int));
                    }
                    let ghost oldres = res@;
                    res.push(e.id);
                    proof {
                        assert forall|id2: int| seq_has_id(oldres, id2) implies seq_has_id(res@, id2) by {
                            let j = choose|j: int| 0 <= j < oldres.len() && oldres[j] == id2;
                            assert(res@[j] == id2);
                        }
                        assert(res@[res@.len() - 1] == e.id);
                        assert(seq_has_id(res@, e.id as int));
                    }
                    k = k + 1;
                }
            }
            proof {
                assert forall|c2: int, k2: int|
                    0 <= c2 < c + 1 && 0 <= k2 < self.cells@[c2]@.len() && cell_in_range(
                        (#[trigger] self.cells@[c2]@[k2]).x as int,
                        self.cells@[c2]@[k2].y as int,
                        qx as int,
                        qy as int,
                        r as int,
                    ) implies seq_has_id(res@, self.cells@[c2]@[k2].id as int) by {
                    if c2 == c {
                        let e = self.cells@[c2]@[k2];
                        lemma_cell_split(c as int, cell_coord(e.x as int), cell_coord(e.y as int));
                    }
                }
            }
            c = c + 1;
        }
        proof {
            assert forall|id: int, x: int, y: int|
                #[trigger] self.has_entry(id, x, y) && cell_in_range(x, y, qx as int, qy as int, r as int)
                implies seq_has_id(res@, id) by {
                let (c2, k2) = choose|c2: int, k2: int|
                    0 <= c2 < self.cells@.len() && 0 <= k2 < self.cells@[c2]@.len() && entry_is(
                        #[trigger] self.cells@[c2]@[k2], id, x, y);
            }
            assert forall|id: int, x: int, y: int|
                #[trigger] self.has_entry(id, x, y) && dist_sq(x, y, qx as int, qy as int) <= r * r
                implies seq_has_id(res@, id) by {
                lemma_dist_implies_cell_range(x, y, qx as int, qy as int, r as int);
            }
        }
        res
    }
}

/// Grid coordinate of a raw coordinate; executable twin of `cell_coord`.
fn cell_of(v: i64) -> (c: usize)
    ensures
        c == cell_coord(v as int),
        c < 16,
{
    let w = if v < -33554432 {
        -33554432
    } else if v > 33554431 {
        33554431
    } else {
        v
    };
    let u = ((w + 33554432) as u64) / 4194304u64;
    proof {
        assert(0 <= w + 33554432 <= 67108863);
        assert(u == (w + 33554432) as int / 4194304);
        assert(u < 16) by (nonlinear_arith)
            requires u == (w + 33554432) as int / 4194304, 0 <= w + 33554432 <= 67108863;
    }
    u as usize
}

/// Every grid coordinate lies on the 16-by-16 grid.
proof fn lemma_cell_coord_range(v: int)
    ensures
        0 <= cell_coord(v) <= 15,
{
    let w = clamp_spec(v, -33554432, 33554431) + 33554432;
    assert(0 <= w <= 67108863);
    assert(0 <= w / 4194304 <= 15) by (nonlinear_arith)
        requires 0 <= w <= 67108863;
}

/// A bucket number splits uniquely into its grid coordinates.
proof fn lemma_cell_split(c: int, cx: int, cy: int)
    requires
        0 <= cx < 16,
        0 <= cy < 16,
        c == cy * 16 + cx,
    ensures
        cx == c % 16,
        cy == c / 16,
{
    assert(cx == c % 16 && cy == c / 16) by (nonlinear_arith)
        requires 0 <= cx < 16, 0 <= cy < 16, c == cy * 16 + cx;
}

/// Clamping and bucketing are monotone.
proof fn lemma_cell_coord_monotone(a: int, b: int)
    requires
        a <= b,
    ensures
        cell_coord(a) <= cell_coord(b),
{
    let ca = clamp_spec(a, -33554432, 33554431) + 33554432;
    let cb = clamp_spec(b, -33554432, 33554431) + 33554432;
    assert(0 <= ca <= cb);
    assert(ca / 4194304 <= cb / 4194304) by (nonlinear_arith)
        requires 0 <= ca <= cb;
}

/// A point within true distance `r` of the query center lies in a cell
/// touching the query box: the index never misses a true neighbor.
pub proof fn lemma_dist_implies_cell_range(x: int, y: int, qx: int, qy: int, r: int)
    requires
        0 <= r,
        dist_sq(x, y, qx, qy) <= r * r,
    ensures
        cell_in_range(x, y, qx, qy, r),
{
    assert(qx - r <= x <= qx + r && qy - r <= y <= qy + r) by (nonlinear_arith)
        requires
            0 <= r,
            (x - qx) * (x - qx) + (y - qy) * (y - qy) <= r * r;
    lemma_cell_coord_monotone(qx - r, x);
    lemma_cell_coord_monotone(x, qx + r);
    lemma_cell_coord_monotone(qy - r, y);
    lemma_cell_coord_monotone(y, qy + r);
}

} // verus!
