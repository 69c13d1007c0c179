//! The growth engine: one call of [`step`] is one discrete simulation step.
//!
//! A step runs four phases over the registry. Phase 0 clears every `grown`
//! flag and rebuilds the spatial index from the step-start population. Phase
//! 1 energizes roots while the step count is below the horizon. Phase 2
//! walks the step-start population in ascending identity order, drawing from
//! the deterministic stream to attempt branches and propagating energy to
//! pre-existing children. Phase 3 walks every node flagged `grown`, resolves
//! collisions against the (possibly stale) index, and grows survivors.
//!
//! Every executable phase returns exactly the state of its specification
//! twin, so [`step`] is a pure function of the registry and the step count:
//! that is the determinism guarantee.

use vstd::prelude::*;
use crate::fixmath::atan2_brad;
use crate::fixmath::atan2_brad_x;
use crate::fixmath::clamp_spec;
use crate::fixmath::cos_fp;
use crate::fixmath::cos_fp_x;
use crate::fixmath::dist_sq;
use crate::fixmath::dist_sq_x;
use crate::fixmath::iabs;
use crate::fixmath::isqrt;
use crate::fixmath::pow19_fp;
use crate::fixmath::pow19_fp_x;
use crate::fixmath::sin_fp;
use crate::fixmath::sin_fp_x;
use crate::fixmath::sqrt_floor;
use crate::index::cell_in_range;
use crate::index::seq_has_id;
use crate::index::SpatialIndex;
use crate::registry::append_child_model;
use crate::registry::lemma_wf_append;
use crate::registry::node_ok;
use crate::registry::NodeModel;
use crate::registry::Registry;
use crate::registry::RegistryModel;
use crate::registry::root_node_model;
use crate::registry::wf_nodes;
use crate::rng::rng_next_state;
use crate::rng::rng_seed_state;
use crate::rng::rng_unit_of;

verus! {

/// Steps at and beyond this count no longer energize roots.
pub const ENERGY_HORIZON: u64 = 1000;

/// Energy granted to each root per step below the horizon.
pub const ROOT_ENERGY: i64 = 10000;

/// A node acts in phase 2 only while its energy exceeds this.
pub const ENERGY_THRESHOLD: i64 = 10;

/// Branch-candidate neighborhood radius, raw fixed point (50 world units).
pub const BRANCH_RADIUS: i64 = 3276800;

/// Collision neighborhood radius, raw fixed point (60 world units).
pub const GROWTH_RADIUS: i64 = 3932160;

/// Half-width of the square growth domain, raw fixed point (450 world units).
pub const DOMAIN_BOUND: i64 = 29491200;

/// A node whose size exceeds this never grows again; it is deactivated.
pub const GROWTH_CEILING: i64 = 29;

/// Energy granted to each pre-existing child during propagation.
pub const CHILD_ENERGY: i64 = 3;

/// The square of an integer.
pub open spec fn sq(a: int) -> int {
    a * a
}

/// Saturating 64-bit addition of a non-negative increment.
pub open spec fn sat_add_i64(a: int, b: int) -> int {
    if a + b > 0x7fff_ffff_ffff_ffff {
        0x7fff_ffff_ffff_ffff
    } else {
        a + b
    }
}

/// The index entries agree exactly with the snapshot `snap`: identity `id`
/// is indexed at `(x, y)` precisely when `snap` has node `id` there.
pub open spec fn index_matches(idx: SpatialIndex, snap: Seq<NodeModel>) -> bool {
    forall|id: int, x: int, y: int|
        #[trigger] idx.has_entry(id, x, y) <==> (0 <= id < snap.len() && x == snap[id].x && y
            == snap[id].y)
}

/// Whether the cell of snapshot node `id` touches the query box: the
/// candidate condition the index answers queries with.
pub open spec fn in_query(snap: Seq<NodeModel>, id: int, qx: int, qy: int, r: int) -> bool {
    0 <= id < snap.len() && cell_in_range(snap[id].x, snap[id].y, qx, qy, r)
}

/// Phase 0 on the store: clear every `grown` flag.
pub open spec fn reset_model(s: Seq<NodeModel>) -> Seq<NodeModel> {
    Seq::new(s.len(), |i: int| NodeModel { grown: false, ..s[i] })
}

/// How `reset_model` acts pointwise.
pub proof fn lemma_reset_index(s: Seq<NodeModel>, j: int)
    requires
        0 <= j < s.len(),
    ensures
        reset_model(s).len() == s.len(),
        reset_model(s)[j] == (NodeModel { grown: false, ..s[j] }),
{
}

/// Phase 1 on node `i`: below the horizon, a root gains a fixed energy
/// increment and, if alive, its `grown` flag.
pub open spec fn energize_model(s: Seq<NodeModel>, t: int, i: int) -> Seq<NodeModel> {
    let n = s[i];
    if n.parent is None && t < 1000 {
        s.update(
            i,
            NodeModel {
                energy: sat_add_i64(n.energy, 10000),
                grown: if n.alive {
                    true
                } else {
                    n.grown
                },
                ..n
            },
        )
    } else {
        s
    }
}

/// A branch candidate at `(xc, yc)` is blocked when some indexed neighbor
/// returned by the radius-50 query lies within its own size plus one of the
/// candidate, by true distance against the current store.
pub open spec fn blocked_model(s: Seq<NodeModel>, snap: Seq<NodeModel>, xc: int, yc: int) -> bool {
    exists|id: int|
        #[trigger] in_query(snap, id, xc, yc, 3276800) && dist_sq(s[id].x, s[id].y, xc, yc) < sq(
            (s[id].size + 1) * 65536,
        )
}

/// Whether a candidate position lies inside the square growth domain.
pub open spec fn in_domain(xc: int, yc: int) -> bool {
    -29491200 <= xc <= 29491200 && -29491200 <= yc <= 29491200
}

/// The full acceptance rule for a branch candidate: inside the domain and
/// not blocked by any indexed neighbor.
pub open spec fn candidate_ok_model(s: Seq<NodeModel>, snap: Seq<NodeModel>, xc: int, yc: int) -> bool {
    in_domain(xc, yc) && !blocked_model(s, snap, xc, yc)
}

/// Ceiling division for non-negative `a` and positive `b`.
pub open spec fn ceil_div(a: int, b: int) -> int {
    (a + b - 1) / b
}

/// The candidate offset: `mag` world units along the binary angle `angle`.
/// The fixed-point direction vector is normalized with ceiling division, so
/// the candidate's true distance from the node is at least `mag`: a node
/// exactly `size + 1` away from its own branch candidate does not block it,
/// matching the strict `<` of the rejection rule.
pub open spec fn branch_offset(mag: int, angle: int) -> (int, int) {
    let c = cos_fp(angle);
    let sn = sin_fp(angle);
    let norm = sqrt_floor((c * c + sn * sn) as nat) as int;
    if norm == 0 {
        (0, 0)
    } else {
        let ox = if c >= 0 {
            ceil_div(c * mag * 65536, norm)
        } else {
            -ceil_div((-c) * mag * 65536, norm)
        };
        let oy = if sn >= 0 {
            ceil_div(sn * mag * 65536, norm)
        } else {
            -ceil_div((-sn) * mag * 65536, norm)
        };
        (ox, oy)
    }
}

/// The end of a branch attempt by node `i` at angle `angle` (a binary angle
/// in `[0, FULL_TURN)`): the candidate sits one unit beyond the node's
/// radius along the angle; if accepted, the node is retired (deactivated,
/// one energy spent) and the child appended with unit size and the given
/// color fraction.
pub open spec fn branch_at_model(
    m: RegistryModel,
    snap: Seq<NodeModel>,
    i: int,
    angle: int,
    frac: int,
) -> RegistryModel {
    let n = m.nodes[i];
    let off = branch_offset(n.size + 1, angle);
    let xc = n.x + off.0;
    let yc = n.y + off.1;
    if candidate_ok_model(m.nodes, snap, xc, yc) {
        let s1 = m.nodes.update(i, NodeModel { alive: false, energy: n.energy - 1, ..n });
        append_child_model(RegistryModel { nodes: s1, rng: m.rng }, i, xc, yc, 1, frac)
    } else {
        m
    }
}

/// A whole branch attempt by node `i`, drawing from the stream: one draw
/// for branch probability (one fifth); if it fires, one draw for the angle —
/// uniform for a root, or the parent-to-node direction plus the heavy-tailed
/// bias (a draw in `[-1, 1)` raised to the nineteenth power, times a half
/// turn) for a child. The color fraction records the angle over a half turn.
pub open spec fn branch_model(m: RegistryModel, snap: Seq<NodeModel>, i: int) -> RegistryModel {
    let u1 = rng_unit_of(m.rng);
    let r1 = rng_next_state(m.rng);
    if 5 * u1 < 65536 {
        let n = m.nodes[i];
        let u2 = rng_unit_of(r1);
        let r2 = rng_next_state(r1);
        let m2 = RegistryModel { nodes: m.nodes, rng: r2 };
        match n.parent {
            None => branch_at_model(m2, snap, i, u2, 2 * u2),
            Some(p) => {
                let base = atan2_brad(n.x - m.nodes[p].x, n.y - m.nodes[p].y);
                let d = 2 * u2 - 65536;
                let bias = pow19_fp(d);
                let off = if bias >= 0 {
                    bias / 2
                } else {
                    -((-bias) / 2)
                };
                let raw = base + off;
                let angle = if raw < 0 {
                    raw + 65536
                } else if raw >= 65536 {
                    raw - 65536
                } else {
                    raw
                };
                branch_at_model(m2, snap, i, angle, 2 * raw)
            },
        }
    } else {
        RegistryModel { nodes: m.nodes, rng: r1 }
    }
}

/// Propagation to the first `k` children of the list `ch`: each child that
/// already existed at step start gains three energy and its `grown` flag.
pub open spec fn propagate_children_model(
    s: Seq<NodeModel>,
    ch: Seq<int>,
    len0: int,
    k: int,
) -> Seq<NodeModel>
    decreases k,
{
    if k <= 0 {
        s
    } else {
        let s1 = propagate_children_model(s, ch, len0, k - 1);
        let c = ch[k - 1];
        if 0 <= c < len0 {
            s1.update(c, NodeModel { energy: sat_add_i64(s1[c].energy, 3), grown: true, ..s1[c] })
        } else {
            s1
        }
    }
}

/// Phase 2, second half, on node `i`: if it still has energy beyond the
/// threshold and any child, it spends one energy and signals every child
/// that existed at step start (never one created this phase).
pub open spec fn propagate_model(s: Seq<NodeModel>, len0: int, i: int) -> Seq<NodeModel> {
    let n = s[i];
    if n.energy > 10 && n.children.len() > 0 {
        let s1 = s.update(i, NodeModel { energy: n.energy - 1, ..n });
        propagate_children_model(s1, n.children, len0, n.children.len() as int)
    } else {
        s
    }
}

/// Phases 1 and 2 on node `i`: energize, then — while energy exceeds the
/// threshold — attempt a branch and propagate.
pub open spec fn step12_one(m: RegistryModel, snap: Seq<NodeModel>, t: int, i: int) -> RegistryModel {
    let s1 = energize_model(m.nodes, t, i);
    if s1[i].energy > 10 {
        let m2 = branch_model(RegistryModel { nodes: s1, rng: m.rng }, snap, i);
        RegistryModel { nodes: propagate_model(m2.nodes, snap.len() as int, i), rng: m2.rng }
    } else {
        RegistryModel { nodes: s1, rng: m.rng }
    }
}

/// Phases 1 and 2 over the first `i` identities of the step-start population.
pub open spec fn phase12_upto(m: RegistryModel, snap: Seq<NodeModel>, t: int, i: int) -> RegistryModel
    decreases i,
{
    if i <= 0 {
        m
    } else {
        step12_one(phase12_upto(m, snap, t, i - 1), snap, t, i - 1)
    }
}

/// Phase 3 collision for node `i`: some radius-60 candidate, neither the
/// node itself nor its parent, lies within the sum of both sizes plus one of
/// it, by true distance against the current store.
pub open spec fn hit_model(s: Seq<NodeModel>, snap: Seq<NodeModel>, i: int) -> bool {
    exists|id: int|
        #[trigger] in_query(snap, id, s[i].x, s[i].y, 3932160) && id != i && s[i].parent != Some(id)
            && dist_sq(s[id].x, s[id].y, s[i].x, s[i].y) < sq((s[i].size + s[id].size + 1) * 65536)
}

/// Where a grown child is re-anchored: at distance `d` (its new size plus
/// its parent's size, world units) from the parent along the current
/// parent-to-node direction, coordinates clamped to the representable
/// range. A node coinciding with its parent conventionally takes angle
/// zero, that is direction `(1, 0)`.
pub open spec fn reposition_model(px: int, py: int, x: int, y: int, d: int) -> (int, int) {
    let dx = x - px;
    let dy = y - py;
    let d2 = dx * dx + dy * dy;
    if d2 == 0 {
        (clamp_spec(px + d * 65536, -536870912, 536870912), clamp_spec(py, -536870912, 536870912))
    } else {
        let len = sqrt_floor(d2 as nat) as int;
        let ox = if dx >= 0 {
            iabs(dx) * d * 65536 / len
        } else {
            -(iabs(dx) * d * 65536 / len)
        };
        let oy = if dy >= 0 {
            iabs(dy) * d * 65536 / len
        } else {
            -(iabs(dy) * d * 65536 / len)
        };
        (clamp_spec(px + ox, -536870912, 536870912), clamp_spec(py + oy, -536870912, 536870912))
    }
}

/// Phase 3 on node `i`: only nodes flagged `grown` are touched. A collision
/// deactivates the node; a survivor past the growth ceiling is deactivated;
/// any other survivor grows by one unit and, if it has a parent, is
/// re-anchored radially.
pub open spec fn step3_one(s: Seq<NodeModel>, snap: Seq<NodeModel>, i: int) -> Seq<NodeModel> {
    let n0 = s[i];
    if !n0.grown {
        s
    } else {
        let s1 = if hit_model(s, snap, i) {
            s.update(i, NodeModel { alive: false, ..n0 })
        } else {
            s
        };
        let n1 = s1[i];
        if !n1.alive {
            s1
        } else if n1.size > 29 {
            s1.update(i, NodeModel { alive: false, ..n1 })
        } else {
            match n1.parent {
                None => s1.update(i, NodeModel { size: n1.size + 1, ..n1 }),
                Some(p) => {
                    let ns = n1.size + 1;
                    let pos = reposition_model(s1[p].x, s1[p].y, n1.x, n1.y, ns + s1[p].size);
                    s1.update(i, NodeModel { size: ns, x: pos.0, y: pos.1, ..n1 })
                },
            }
        }
    }
}

/// Phase 3 over the first `i` identities.
pub open spec fn phase3_upto(s: Seq<NodeModel>, snap: Seq<NodeModel>, i: int) -> Seq<NodeModel>
    decreases i,
{
    if i <= 0 {
        s
    } else {
        step3_one(phase3_upto(s, snap, i - 1), snap, i - 1)
    }
}

/// One whole simulation step as a pure function of the registry model and
/// the elapsed step count: reset, snapshot, phases 1 and 2 over the
/// step-start population, phase 3 over everything.
pub open spec fn step_model(m: RegistryModel, t: int) -> RegistryModel {
    let s0 = reset_model(m.nodes);
    let m1 = phase12_upto(RegistryModel { nodes: s0, rng: m.rng }, s0, t, s0.len() as int);
    let s2 = phase3_upto(m1.nodes, s0, m1.nodes.len() as int);
    RegistryModel { nodes: s2, rng: m1.rng }
}

/// Updating one node without touching its structure (parent, child list,
/// generation) keeps the store well formed, provided the new geometry is in
/// bounds.
pub proof fn lemma_wf_update_keep_structure(s: Seq<NodeModel>, i: int, n: NodeModel)
    requires
        wf_nodes(s),
        0 <= i < s.len(),
        n.parent == s[i].parent,
        n.children == s[i].children,
        n.generation == s[i].generation,
        -536870912 <= n.x <= 536870912,
        -536870912 <= n.y <= 536870912,
        1 <= n.size <= 10000,
    ensures
        wf_nodes(s.update(i, n)),
{
    let s2 = s.update(i, n);
    assert forall|j: int| 0 <= j < s2.len() implies #[trigger] node_ok(s2, j) by {
        assert(node_ok(s, j));
        assert(s2[j].parent == s[j].parent);
        assert(s2[j].children == s[j].children);
        assert(s2[j].generation == s[j].generation);
        match s[j].parent {
            Some(p) => {
                assert(s2[p].children == s[p].children);
                assert(s2[p].generation == s[p].generation);
            },
            None => {},
        }
        assert forall|k: int| 0 <= k < s2[j].children.len() implies
            j < #[trigger] s2[j].children[k] < s2.len() && s2[s2[j].children[k]].parent == Some(j) by {
            assert(s[j].children[k] == s2[j].children[k]);
            assert(j < s[j].children[k] < s.len());
            assert(s2[s[j].children[k]].parent == s[s[j].children[k]].parent);
        }
    }
}

/// Propagation touches only energy and `grown` flags: the store stays well
/// formed, its length and every node's structure, geometry and liveness are
/// unchanged.
pub proof fn lemma_propagate_children_wf(s: Seq<NodeModel>, ch: Seq<int>, len0: int, k: int)
    requires
        wf_nodes(s),
        0 <= k <= ch.len(),
        len0 <= s.len(),
    ensures
        wf_nodes(propagate_children_model(s, ch, len0, k)),
        propagate_children_model(s, ch, len0, k).len() == s.len(),
        forall|j: int| 0 <= j < s.len() ==> {
            let b = #[trigger] propagate_children_model(s, ch, len0, k)[j];
            b.parent == s[j].parent && b.children == s[j].children && b.generation == s[j].generation
                && b.x == s[j].x && b.y == s[j].y && b.size == s[j].size && b.alive == s[j].alive
                && b.frac == s[j].frac
        },
    decreases k,
{
    if k > 0 {
        lemma_propagate_children_wf(s, ch, len0, k - 1);
        let s1 = propagate_children_model(s, ch, len0, k - 1);
        let c = ch[k - 1];
        if 0 <= c < len0 {
            assert(node_ok(s1, c));
            lemma_wf_update_keep_structure(
                s1,
                c,
                NodeModel { energy: sat_add_i64(s1[c].energy, 3), grown: true, ..s1[c] },
            );
        }
    }
}

/// Whether current node `id` lies within its own size plus one of `(xc, yc)`.
pub open spec fn close_to(s: Seq<NodeModel>, id: int, xc: int, yc: int) -> bool {
    dist_sq(s[id].x, s[id].y, xc, yc) < sq((s[id].size + 1) * 65536)
}

/// Build the spatial index from the whole current registry population.
pub fn build_index(reg: &Registry) -> (idx: SpatialIndex)
    requires
        reg.wf(),
    ensures
        idx.wf(),
        index_matches(idx, reg@.nodes),
{
    let mut idx = SpatialIndex::new();
    let mut i: usize = 0;
    let n = reg.nodes.len();
    while i < n
        invariant
            idx.wf(),
            i <= n,
            n == reg@.nodes.len(),
            reg.wf(),
            forall|id: int, x: int, y: int|
                #[trigger] idx.has_entry(id, x, y) <==> (0 <= id < i && x == reg@.nodes[id].x && y
                    == reg@.nodes[id].y),
        decreases n - i,
    {
        let x = reg.nodes[i].x;
        let y = reg.nodes[i].y;
        idx.insert(i, x, y);
        i = i + 1;
    }
    idx
}

fn candidate_blocked_core(
    reg: &Registry,
    idx: &SpatialIndex,
    xc: i64,
    yc: i64,
    Ghost(snap): Ghost<Seq<NodeModel>>,
) -> (b: bool)
    requires
        reg.wf(),
        idx.wf(),
        index_matches(*idx, snap),
        snap.len() <= reg@.nodes.len(),
        -29491200 <= xc <= 29491200,
        -29491200 <= yc <= 29491200,
    ensures
        b == blocked_model(reg@.nodes, snap, xc as int, yc as int),
{
    let ghost s = reg@.nodes;
    let cands = idx.query_radius(xc, yc, BRANCH_RADIUS);
    let mut blocked = false;
    let mut k: usize = 0;
    while k < cands.len()
        invariant
            reg.wf(),
            idx.wf(),
            index_matches(*idx, snap),
            snap.len() <= reg@.nodes.len(),
            s == reg@.nodes,
            -29491200 <= xc <= 29491200,
            -29491200 <= yc <= 29491200,
            k <= cands@.len(),
            forall|j: int|
                0 <= j < cands@.len() ==> idx.id_in_range(
                    #[trigger] cands@[j] as int, xc as int, yc as int, 3276800),
            forall|id: int, x: int, y: int|
                #[trigger] idx.has_entry(id, x, y) && cell_in_range(x, y, xc as int, yc as int, 3276800)
                    ==> seq_has_id(cands@, id),
            blocked == exists|j: int| 0 <= j < k && close_to(s, #[trigger] cands@[j] as int, xc as int, yc as int),
        decreases cands@.len() - k,
    {
        let j = cands[k];
        proof {
            assert(idx.id_in_range(j as int, xc as int, yc as int, 3276800));
            let (ex, ey) = choose|ex: int, ey: int|
                idx.has_entry(j as int, ex, ey) && cell_in_range(ex, ey, xc as int, yc as int, 3276800);
            assert(0 <= j < snap.len());
            assert(node_ok(s, j as int));
        }
        let nx = reg.nodes[j].x;
        let ny = reg.nodes[j].y;
        let sz = reg.nodes[j].size;
        let d2 = dist_sq_x(nx, ny, xc, yc);
        let t = (sz + 1) * 65536;
        proof {
            assert(0 < t <= 655425536);
            assert(t * t <= 655425536i64 * 655425536i64) by (nonlinear_arith)
                requires 0 < t <= 655425536i64;
        }
        if d2 < t * t {
            blocked = true;
            proof {
                assert(close_to(s, cands@[k as int] as int, xc as int, yc as int));
            }
        }
        k = k + 1;
    }
    proof {
        if blocked {
            let j = choose|j: int| 0 <= j < cands@.len() && close_to(s, #[trigger] cands@[j] as int, xc as int, yc as int);
            let id = cands@[j] as int;
            let (ex, ey) = choose|ex: int, ey: int|
                idx.has_entry(id, ex, ey) && cell_in_range(ex, ey, xc as int, yc as int, 3276800);
            assert(ex == snap[id].x && ey == snap[id].y);
            assert(in_query(snap, id, xc as int, yc as int, 3276800));
            assert(blocked_model(s, snap, xc as int, yc as int));
        }
        if blocked_model(s, snap, xc as int, yc as int) {
            let id = choose|id: int|
                #[trigger] in_query(snap, id, xc as int, yc as int, 3276800) && dist_sq(
                    s[id].x, s[id].y, xc as int, yc as int) < sq((s[id].size + 1) * 65536);
            assert(idx.has_entry(id, snap[id].x, snap[id].y));
            assert(seq_has_id(cands@, id));
            let j = choose|j: int| 0 <= j < cands@.len() && #[trigger] cands@[j] == id;
            assert(close_to(s, cands@[j] as int, xc as int, yc as int));
            assert(blocked);
        }
    }
    blocked
}

/// The branch acceptance rule, checkable from outside: a candidate position
/// is allowed exactly when it lies inside the square growth domain and no
/// indexed neighbor within the radius-50 candidate set is closer to it than
/// that neighbor's size plus one. The index must have been built from this
/// registry (see [`build_index`]).
pub fn candidate_allowed(reg: &Registry, idx: &SpatialIndex, xc: i64, yc: i64) -> (ok: bool)
    requires
        reg.wf(),
        idx.wf(),
        index_matches(*idx, reg@.nodes),
    ensures
        ok == candidate_ok_model(reg@.nodes, reg@.nodes, xc as int, yc as int),
{
    if xc < -DOMAIN_BOUND || xc > DOMAIN_BOUND || yc < -DOMAIN_BOUND || yc > DOMAIN_BOUND {
        return false;
    }
    let b = candidate_blocked_core(reg, idx, xc, yc, Ghost(reg@.nodes));
    !b
}

fn clamp_coord(v: i64) -> (r: i64)
    ensures
        r == clamp_spec(v as int, -536870912, 536870912),
{
    if v < -536870912 {
        -536870912
    } else if v > 536870912 {
        536870912
    } else {
        v
    }
}

/// Executable twin of `branch_offset`, taking the already-computed sine and
/// cosine of the angle.
fn branch_offset_x(mag: i64, ca: i64, sa: i64, Ghost(angle): Ghost<int>) -> (r: (i64, i64))
    requires
        1 <= mag <= 10001,
        ca == cos_fp(angle),
        sa == sin_fp(angle),
        -65536 <= ca <= 65536,
        -65536 <= sa <= 65536,
    ensures
        (r.0 as int, r.1 as int) == branch_offset(mag as int, angle),
        -655425537 <= r.0 <= 655425537,
        -655425537 <= r.1 <= 655425537,
{
    proof {
        assert(ca * ca <= 65536 * 65536 && ca * ca >= 0) by (nonlinear_arith)
            requires -65536 <= ca <= 65536;
        assert(sa * sa <= 65536 * 65536 && sa * sa >= 0) by (nonlinear_arith)
            requires -65536 <= sa <= 65536;
    }
    let d2 = ca * ca + sa * sa;
    let norm = isqrt(d2 as u64);
    if norm == 0 {
        return (0, 0);
    }
    let aca = if ca >= 0 { ca } else { -ca };
    let asa = if sa >= 0 { sa } else { -sa };
    proof {
        assert(aca * aca == ca * ca) by (nonlinear_arith)
            requires aca == ca || aca == -ca;
        assert(asa * asa == sa * sa) by (nonlinear_arith)
            requires asa == sa || asa == -sa;
        assert(d2 <= 2 * 65536 * 65536);
        assert(norm <= 92681) by (nonlinear_arith)
            requires norm * norm <= (d2 as u64), (d2 as u64) <= 2 * 65536 * 65536, norm >= 0;
        assert(aca <= norm && asa <= norm) by (nonlinear_arith)
            requires
                aca >= 0, asa >= 0, norm >= 0,
                aca * aca <= d2, asa * asa <= d2,
                (d2 as u64) < (norm + 1) * (norm + 1),
                d2 >= 0;
        assert(0 <= aca * mag * 65536 <= norm * mag * 65536) by (nonlinear_arith)
            requires 0 <= aca <= norm, 1 <= mag;
        assert(0 <= asa * mag * 65536 <= norm * mag * 65536) by (nonlinear_arith)
            requires 0 <= asa <= norm, 1 <= mag;
        assert(norm * mag * 65536 <= 92681 * 10001 * 65536) by (nonlinear_arith)
            requires 1 <= norm <= 92681, 1 <= mag <= 10001;
    }
    let numx = aca * mag * 65536 + (norm - 1) as i64;
    let numy = asa * mag * 65536 + (norm - 1) as i64;
    let magx = (numx as u64 / norm) as i64;
    let magy = (numy as u64 / norm) as i64;
    proof {
        assert(magx == ceil_div(aca * mag * 65536, norm as int));
        assert(magy == ceil_div(asa * mag * 65536, norm as int));
        assert(0 <= magx <= mag * 65536 && 0 <= magy <= mag * 65536) by (nonlinear_arith)
            requires
                magx == (aca * mag * 65536 + (norm - 1)) / (norm as int),
                magy == (asa * mag * 65536 + (norm - 1)) / (norm as int),
                0 <= aca * mag * 65536 <= norm * mag * 65536,
                0 <= asa * mag * 65536 <= norm * mag * 65536,
                1 <= norm, 1 <= mag <= 10001;
        assert(mag * 65536 <= 655425536) by (nonlinear_arith)
            requires mag <= 10001;
    }
    let ox = if ca >= 0 { magx } else { -magx };
    let oy = if sa >= 0 { magy } else { -magy };
    (ox, oy)
}

fn branch_attempt(reg: &mut Registry, idx: &SpatialIndex, i: usize, Ghost(snap): Ghost<Seq<NodeModel>>)
    requires
        old(reg).wf(),
        idx.wf(),
        index_matches(*idx, snap),
        snap.len() <= old(reg)@.nodes.len(),
        i < old(reg)@.nodes.len(),
        old(reg)@.nodes[i as int].energy > 10,
    ensures
        final(reg)@ == branch_model(old(reg)@, snap, i as int),
        final(reg).wf(),
        old(reg)@.nodes.len() <= final(reg)@.nodes.len(),
{
    let ghost m0 = reg@;
    proof {
        assert(node_ok(m0.nodes, i as int));
    }
    let u1 = reg.rng.next_unit();
    if !(5 * u1 < 65536) {
        proof {
            assert(reg@ =~~= branch_model(m0, snap, i as int));
        }
        return;
    }
    let u2 = reg.rng.next_unit();
    let (angle, frac): (i64, i64) = match reg.nodes[i].parent {
        None => (u2, 2 * u2),
        Some(p) => {
            proof {
                assert(node_ok(m0.nodes, p as int));
            }
            let dx = reg.nodes[i].x - reg.nodes[p].x;
            let dy = reg.nodes[i].y - reg.nodes[p].y;
            let base = atan2_brad_x(dx, dy);
            let d = 2 * u2 - 65536;
            let bias = pow19_fp_x(d);
            let off = if bias >= 0 {
                ((bias as u64) / 2u64) as i64
            } else {
                -((((-bias) as u64) / 2u64) as i64)
            };
            let raw = base + off;
            let angle = if raw < 0 {
                raw + 65536
            } else if raw >= 65536 {
                raw - 65536
            } else {
                raw
            };
            (angle, 2 * raw)
        },
    };
    let ca = cos_fp_x(angle);
    let sa = sin_fp_x(angle);
    let sz = reg.nodes[i].size;
    let (ox, oy) = branch_offset_x(sz + 1, ca, sa, Ghost(angle as int));
    let xc = reg.nodes[i].x + ox;
    let yc = reg.nodes[i].y + oy;
    let ok = if -DOMAIN_BOUND <= xc && xc <= DOMAIN_BOUND && -DOMAIN_BOUND <= yc && yc <= DOMAIN_BOUND {
        !candidate_blocked_core(reg, idx, xc, yc, Ghost(snap))
    } else {
        false
    };
    proof {
        assert(ok == candidate_ok_model(reg@.nodes, snap, xc as int, yc as int));
    }
    if ok {
        let ghost s0 = reg@.nodes;
        let ghost r2 = reg@.rng;
        let e = reg.nodes[i].energy;
        let node = &mut reg.nodes[i];
        node.alive = false;
        node.energy = e - 1;
        proof {
            let n = s0[i as int];
            assert(reg@.nodes =~~= s0.update(i as int, NodeModel { alive: false, energy: n.energy - 1, ..n }));
            lemma_wf_update_keep_structure(s0, i as int, NodeModel { alive: false, energy: n.energy - 1, ..n });
        }
        let cid = reg.append_child(i, xc, yc, 1, frac);
        proof {
            assert(reg@ =~~= branch_model(m0, snap, i as int));
        }
    } else {
        proof {
            assert(reg@ =~~= branch_model(m0, snap, i as int));
        }
    }
}

fn propagate_exec(reg: &mut Registry, i: usize, len0: usize)
    requires
        old(reg).wf(),
        i < old(reg)@.nodes.len(),
        len0 <= old(reg)@.nodes.len(),
    ensures
        final(reg)@.nodes == propagate_model(old(reg)@.nodes, len0 as int, i as int),
        final(reg)@.rng == old(reg)@.rng,
        final(reg).wf(),
        final(reg)@.nodes.len() == old(reg)@.nodes.len(),
{
    let ghost s0 = reg@.nodes;
    let e = reg.nodes[i].energy;
    let nch = reg.nodes[i].children.len();
    if !(e > ENERGY_THRESHOLD && nch > 0) {
        proof {
            assert(reg@.nodes =~~= propagate_model(s0, len0 as int, i as int));
        }
        return;
    }
    {
        let node = &mut reg.nodes[i];
        node.energy = e - 1;
    }
    let ghost n = s0[i as int];
    let ghost s1 = s0.update(i as int, NodeModel { energy: n.energy - 1, ..n });
    let ghost ch = n.children;
    proof {
        assert(node_ok(s0, i as int));
        assert(reg@.nodes =~~= s1);
        lemma_wf_update_keep_structure(s0, i as int, NodeModel { energy: n.energy - 1, ..n });
    }
    let mut k: usize = 0;
    while k < nch
        invariant
            reg.wf(),
            i < reg@.nodes.len(),
            len0 <= reg@.nodes.len(),
            k <= nch,
            nch == ch.len(),
            wf_nodes(s1),
            s1.len() == reg@.nodes.len(),
            reg@.rng == old(reg)@.rng,
            reg@.nodes == propagate_children_model(s1, ch, len0 as int, k as int),
            reg@.nodes[i as int].children == ch,
            forall|kk: int| 0 <= kk < ch.len() ==> i < #[trigger] ch[kk] < s1.len(),
        decreases nch - k,
    {
        proof {
            lemma_propagate_children_wf(s1, ch, len0 as int, k as int);
            lemma_propagate_children_wf(s1, ch, len0 as int, k as int + 1);
        }
        let c = reg.nodes[i].children[k];
        if c < len0 {
            let ghost sk = reg@.nodes;
            let ce = reg.nodes[c].energy;
            let ne = if ce > 9223372036854775807 - CHILD_ENERGY {
                9223372036854775807
            } else {
                ce + CHILD_ENERGY
            };
            let node = &mut reg.nodes[c];
            node.energy = ne;
            node.grown = true;
            proof {
                assert(reg@.nodes =~~= sk.update(
                    c as int, NodeModel { energy: sat_add_i64(sk[c as int].energy, 3), grown: true, ..sk[c as int] }));
                assert(reg@.nodes =~~= propagate_children_model(s1, ch, len0 as int, k as int + 1));
            }
        } else {
            proof {
                assert(reg@.nodes =~~= propagate_children_model(s1, ch, len0 as int, k as int + 1));
            }
        }
        k = k + 1;
    }
    proof {
        assert(reg@.nodes =~~= propagate_model(s0, len0 as int, i as int));
    }
}

fn step12_exec(
    reg: &mut Registry,
    idx: &SpatialIndex,
    t: u64,
    i: usize,
    len0: usize,
    Ghost(snap): Ghost<Seq<NodeModel>>,
)
    requires
        old(reg).wf(),
        idx.wf(),
        index_matches(*idx, snap),
        snap.len() == len0,
        i < len0,
        len0 <= old(reg)@.nodes.len(),
    ensures
        final(reg)@ == step12_one(old(reg)@, snap, t as int, i as int),
        final(reg).wf(),
        old(reg)@.nodes.len() <= final(reg)@.nodes.len(),
{
    let ghost m0 = reg@;
    proof {
        assert(node_ok(m0.nodes, i as int));
    }
    let isroot = reg.nodes[i].parent.is_none();
    if isroot && t < ENERGY_HORIZON {
        let e = reg.nodes[i].energy;
        let alive = reg.nodes[i].alive;
        let ne = if e > 9223372036854775807 - ROOT_ENERGY {
            9223372036854775807
        } else {
            e + ROOT_ENERGY
        };
        let node = &mut reg.nodes[i];
        node.energy = ne;
        if alive {
            node.grown = true;
        }
        proof {
            let n = m0.nodes[i as int];
            lemma_wf_update_keep_structure(
                m0.nodes,
                i as int,
                NodeModel {
                    energy: sat_add_i64(n.energy, 10000),
                    grown: if n.alive { true } else { n.grown },
                    ..n
                },
            );
        }
    }
    proof {
        assert(reg@.nodes =~~= energize_model(m0.nodes, t as int, i as int));
        assert(reg.wf());
    }
    let e1 = reg.nodes[i].energy;
    if e1 > ENERGY_THRESHOLD {
        let ghost m1 = RegistryModel { nodes: energize_model(m0.nodes, t as int, i as int), rng: m0.rng };
        proof {
            assert(reg@ =~~= m1);
        }
        branch_attempt(reg, idx, i, Ghost(snap));
        propagate_exec(reg, i, len0);
        proof {
            assert(reg@ =~~= step12_one(m0, snap, t as int, i as int));
        }
    } else {
        proof {
            assert(reg@ =~~= step12_one(m0, snap, t as int, i as int));
        }
    }
}

fn step3_exec(reg: &mut Registry, idx: &SpatialIndex, i: usize, Ghost(snap): Ghost<Seq<NodeModel>>)
    requires
        old(reg).wf(),
        idx.wf(),
        index_matches(*idx, snap),
        snap.len() <= old(reg)@.nodes.len(),
        i < old(reg)@.nodes.len(),
    ensures
        final(reg)@.nodes == step3_one(old(reg)@.nodes, snap, i as int),
        final(reg)@.rng == old(reg)@.rng,
        final(reg).wf(),
        final(reg)@.nodes.len() == old(reg)@.nodes.len(),
{
    let ghost s = reg@.nodes;
    proof {
        assert(node_ok(s, i as int));
    }
    if !reg.nodes[i].grown {
        proof {
            assert(reg@.nodes =~~= step3_one(s, snap, i as int));
        }
        return;
    }
    let xi = reg.nodes[i].x;
    let yi = reg.nodes[i].y;
    let szi = reg.nodes[i].size;
    let par = reg.nodes[i].parent;
    let cands = idx.query_radius(xi, yi, GROWTH_RADIUS);
    let mut hit = false;
    let mut k: usize = 0;
    while k < cands.len()
        invariant
            reg.wf(),
            idx.wf(),
            index_matches(*idx, snap),
            snap.len() <= reg@.nodes.len(),
            s == reg@.nodes,
            i < reg@.nodes.len(),
            xi == s[i as int].x,
            yi == s[i as int].y,
            szi == s[i as int].size,
            par == reg.nodes@[i as int].parent,
            -536870912 <= xi <= 536870912,
            -536870912 <= yi <= 536870912,
            1 <= szi <= 10000,
            k <= cands@.len(),
            forall|j: int|
                0 <= j < cands@.len() ==> idx.id_in_range(
                    #[trigger] cands@[j] as int, xi as int, yi as int, 3932160),
            forall|id: int, x: int, y: int|
                #[trigger] idx.has_entry(id, x, y) && cell_in_range(x, y, xi as int, yi as int, 3932160)
                    ==> seq_has_id(cands@, id),
            hit == exists|j: int|
                0 <= j < k && {
                    let id = #[trigger] cands@[j] as int;
                    id != i && s[i as int].parent != Some(id) && dist_sq(s[id].x, s[id].y, xi as int, yi as int)
                        < sq((s[i as int].size + s[id].size + 1) * 65536)
                },
        decreases cands@.len() - k,
    {
        let j = cands[k];
        proof {
            assert(idx.id_in_range(j as int, xi as int, yi as int, 3932160));
            let (ex, ey) = choose|ex: int, ey: int|
                idx.has_entry(j as int, ex, ey) && cell_in_range(ex, ey, xi as int, yi as int, 3932160);
            assert(0 <= j < snap.len());
            assert(node_ok(s, j as int));
        }
        let skip = j == i || (match par {
            Some(p) => p == j,
            None => false,
        });
        if !skip {
            let d2 = dist_sq_x(reg.nodes[j].x, reg.nodes[j].y, xi, yi);
            let szj = reg.nodes[j].size;
            let t = (szi + szj + 1) * 65536;
            proof {
                assert(0 < t <= 1311178752);
                assert(t * t <= 1311178752i64 * 1311178752i64) by (nonlinear_arith)
                    requires 0 < t <= 1311178752i64;
            }
            if d2 < t * t {
                hit = true;
                proof {
                    let id = cands@[k as int] as int;
                    assert(id != i && s[i as int].parent != Some(id));
                    assert(dist_sq(s[id].x, s[id].y, xi as int, yi as int) < sq(
                        (s[i as int].size + s[id].size + 1) * 65536));
                }
            }
        }
        k = k + 1;
    }
    proof {
        if hit {
            let j = choose|j: int|
                0 <= j < cands@.len() && {
                    let id = #[trigger] cands@[j] as int;
                    id != i && s[i as int].parent != Some(id) && dist_sq(s[id].x, s[id].y, xi as int, yi as int)
                        < sq((s[i as int].size + s[id].size + 1) * 65536)
                };
            let id = cands@[j] as int;
            let (ex, ey) = choose|ex: int, ey: int|
                idx.has_entry(id, ex, ey) && cell_in_range(ex, ey, xi as int, yi as int, 3932160);
            assert(in_query(snap, id, xi as int, yi as int, 3932160));
            assert(hit_model(s, snap, i as int));
        }
        if hit_model(s, snap, i as int) {
            let id = choose|id: int|
                #[trigger] in_query(snap, id, s[i as int].x, s[i as int].y, 3932160) && id != i
                    && s[i as int].parent != Some(id) && dist_sq(
                    s[id].x, s[id].y, s[i as int].x, s[i as int].y) < sq(
                    (s[i as int].size + s[id].size + 1) * 65536);
            assert(idx.has_entry(id, snap[id].x, snap[id].y));
            assert(seq_has_id(cands@, id));
            let j = choose|j: int| 0 <= j < cands@.len() && #[trigger] cands@[j] == id;
            assert(hit);
        }
        assert(hit == hit_model(s, snap, i as int));
    }
    if hit {
        let node = &mut reg.nodes[i];
        node.alive = false;
        proof {
            let n0 = s[i as int];
            assert(reg@.nodes =~~= s.update(i as int, NodeModel { alive: false, ..n0 }));
            lemma_wf_update_keep_structure(s, i as int, NodeModel { alive: false, ..n0 });
        }
    }
    let ghost s1 = if hit_model(s, snap, i as int) {
        s.update(i as int, NodeModel { alive: false, ..s[i as int] })
    } else {
        s
    };
    proof {
        assert(reg@.nodes =~~= s1);
        assert(wf_nodes(s1));
        assert(s1[i as int].size == szi);
        assert(s1[i as int].parent == s[i as int].parent);
    }
    if !reg.nodes[i].alive {
        proof {
            assert(reg@.nodes =~~= step3_one(s, snap, i as int));
        }
        return;
    }
    if szi > GROWTH_CEILING {
        let node = &mut reg.nodes[i];
        node.alive = false;
        proof {
            let n1 = s1[i as int];
            assert(reg@.nodes =~~= s1.update(i as int, NodeModel { alive: false, ..n1 }));
            lemma_wf_update_keep_structure(s1, i as int, NodeModel { alive: false, ..n1 });
            assert(reg@.nodes =~~= step3_one(s, snap, i as int));
        }
        return;
    }
    let ns = szi + 1;
    match par {
        None => {
            let node = &mut reg.nodes[i];
            node.size = ns;
            proof {
                let n1 = s1[i as int];
                assert(reg@.nodes =~~= s1.update(i as int, NodeModel { size: n1.size + 1, ..n1 }));
                lemma_wf_update_keep_structure(s1, i as int, NodeModel { size: n1.size + 1, ..n1 });
                assert(reg@.nodes =~~= step3_one(s, snap, i as int));
            }
        },
        Some(p) => {
            proof {
                assert(node_ok(s1, i as int));
                assert(node_ok(s1, p as int));
            }
            let px = reg.nodes[p].x;
            let py = reg.nodes[p].y;
            let d = ns + reg.nodes[p].size;
            let d2 = dist_sq_x(xi, yi, px, py);
            let (nx, ny) = if d2 == 0 {
                (clamp_coord(px + d * 65536), clamp_coord(py))
            } else {
                proof {
                    assert(d2 == dist_sq(xi as int, yi as int, px as int, py as int));
                    assert(d2 <= 2305843009213693952) by (nonlinear_arith)
                        requires
                            d2 == (xi - px) * (xi - px) + (yi - py) * (yi - py),
                            -1073741824 <= xi - px <= 1073741824,
                            -1073741824 <= yi - py <= 1073741824;
                }
                let len = isqrt(d2 as u64);
                proof {
                    assert(d2 >= 1);
                    assert((d2 as u64) >= 1);
                    assert(len >= 1) by (nonlinear_arith)
                        requires
                            (d2 as u64) < (len + 1) * (len + 1),
                            (d2 as u64) >= 1;
                    assert(1 <= len < 2147483648);
                }
                let dx = xi - px;
                let dy = yi - py;
                let adx = if dx >= 0 { dx } else { -dx };
                let ady = if dy >= 0 { dy } else { -dy };
                proof {
                    assert(adx * adx <= d2 && ady * ady <= d2) by (nonlinear_arith)
                        requires
                            d2 == (xi - px) * (xi - px) + (yi - py) * (yi - py),
                            adx == iabs(xi - px),
                            ady == iabs(yi - py);
                    assert(adx <= len && ady <= len) by (nonlinear_arith)
                        requires
                            adx >= 0, ady >= 0, len >= 0,
                            adx * adx <= d2, ady * ady <= d2,
                            d2 < (len + 1) * (len + 1);
                    assert(0 <= adx * d * 65536 <= 1073741824i64 * 660537344) by (nonlinear_arith)
                        requires 0 <= adx <= 1073741824i64, 0 < d <= 10030;
                    assert(0 <= ady * d * 65536 <= 1073741824i64 * 660537344) by (nonlinear_arith)
                        requires 0 <= ady <= 1073741824i64, 0 < d <= 10030;
                }
                let magx = ((adx * d * 65536) as u64 / len as u64) as i64;
                let magy = ((ady * d * 65536) as u64 / len as u64) as i64;
                proof {
                    assert(magx == adx * d * 65536 / (len as int));
                    assert(magy == ady * d * 65536 / (len as int));
                    assert(0 <= magx <= d * 65536 && 0 <= magy <= d * 65536) by (nonlinear_arith)
                        requires
                            magx == adx * d * 65536 / (len as int),
                            magy == ady * d * 65536 / (len as int),
                            0 <= adx <= len, 0 <= ady <= len, 1 <= len, 0 < d;
                }
                let ox = if dx >= 0 { magx } else { -magx };
                let oy = if dy >= 0 { magy } else { -magy };
                (clamp_coord(px + ox), clamp_coord(py + oy))
            };
            let node = &mut reg.nodes[i];
            node.size = ns;
            node.x = nx;
            node.y = ny;
            proof {
                let n1 = s1[i as int];
                let pos = reposition_model(s1[p as int].x, s1[p as int].y, n1.x, n1.y, ns + s1[p as int].size);
                assert(nx == pos.0 && ny == pos.1);
                assert(reg@.nodes =~~= s1.update(i as int, NodeModel { size: ns as int, x: pos.0, y: pos.1, ..n1 }));
                lemma_wf_update_keep_structure(s1, i as int, NodeModel { size: ns as int, x: pos.0, y: pos.1, ..n1 });
                assert(reg@.nodes =~~= step3_one(s, snap, i as int));
            }
        },
    }
}

/// Create the initial registry: exactly one root node at the origin, unit
/// size, no energy, alive, generation zero, no parent; the deterministic
/// stream seeded from `seed`.
pub fn initialize(seed: u64) -> (r: Registry)
    ensures
        r.wf(),
        r@.nodes.len() == 1,
        r@.nodes[0] == root_node_model(),
        r@.rng == rng_seed_state(seed),
{
    let mut r = Registry::new(seed);
    let _root = r.create_root();
    r
}

/// One discrete simulation step, exactly the state transition of
/// [`step_model`]: reset and index rebuild, root energization below the
/// horizon, branching and propagation over the step-start population in
/// ascending identity order, then collision resolution and growth. The
/// registry only ever gains nodes, so identities stay valid forever.
pub fn step(reg: &mut Registry, t: u64)
    requires
        old(reg).wf(),
    ensures
        final(reg)@ == step_model(old(reg)@, t as int),
        final(reg).wf(),
        old(reg)@.nodes.len() <= final(reg)@.nodes.len(),
        preserves_nodes(old(reg)@.nodes, final(reg)@.nodes),
{
    let len0 = reg.nodes.len();
    let mut i: usize = 0;
    while i < len0
        invariant
            i <= len0,
            len0 == reg@.nodes.len(),
            len0 == old(reg)@.nodes.len(),
            reg@.rng == old(reg)@.rng,
            wf_nodes(reg@.nodes),
            forall|j: int| 0 <= j < i ==> reg@.nodes[j] == reset_model(old(reg)@.nodes)[j],
            forall|j: int| i <= j < len0 ==> reg@.nodes[j] == old(reg)@.nodes[j],
        decreases len0 - i,
    {
        let ghost sk = reg@.nodes;
        proof {
            assert(node_ok(sk, i as int));
        }
        let node = &mut reg.nodes[i];
        node.grown = false;
        proof {
            assert(reg@.nodes =~~= sk.update(i as int, NodeModel { grown: false, ..sk[i as int] }));
            lemma_wf_update_keep_structure(sk, i as int, NodeModel { grown: false, ..sk[i as int] });
            assert forall|j: int| 0 <= j < i + 1 implies reg@.nodes[j] == reset_model(
                old(reg)@.nodes)[j] by {
                lemma_reset_index(old(reg)@.nodes, j);
                if j < i {
                    assert(reg@.nodes[j] == sk[j]);
                } else {
                    assert(sk[i as int] == old(reg)@.nodes[i as int]);
                }
            }
        }
        i = i + 1;
    }
    proof {
        assert(reg@.nodes =~~= reset_model(old(reg)@.nodes));
    }
    let ghost snap = reg@.nodes;
    let idx = build_index(reg);
    let ghost m1base = reg@;
    i = 0;
    while i < len0
        invariant
            reg.wf(),
            idx.wf(),
            index_matches(idx, snap),
            snap.len() == len0,
            i <= len0,
            len0 <= reg@.nodes.len(),
            reg@ == phase12_upto(m1base, snap, t as int, i as int),
        decreases len0 - i,
    {
        step12_exec(reg, &idx, t, i, len0, Ghost(snap));
        i = i + 1;
    }
    let len1 = reg.nodes.len();
    let ghost s12 = reg@.nodes;
    let ghost rng12 = reg@.rng;
    i = 0;
    while i < len1
        invariant
            reg.wf(),
            idx.wf(),
            index_matches(idx, snap),
            snap.len() == len0,
            len0 <= len1,
            i <= len1,
            len1 == reg@.nodes.len(),
            reg@.nodes == phase3_upto(s12, snap, i as int),
            reg@.rng == rng12,
        decreases len1 - i,
    {
        step3_exec(reg, &idx, i, Ghost(snap));
        i = i + 1;
    }
    proof {
        assert(reg@ =~~= step_model(old(reg)@, t as int));
        lemma_step_preserves(old(reg)@, t as int);
    }
}

/// Whether `a` is a strict ancestor of `i` along the parent chain.
pub open spec fn is_ancestor(s: Seq<NodeModel>, a: int, i: int) -> bool
    decreases i,
{
    if 0 <= i < s.len() {
        match s[i].parent {
            Some(p) => p == a || (0 <= p < i && is_ancestor(s, a, p)),
            None => false,
        }
    } else {
        false
    }
}

/// Every ancestor of a node has a smaller identity: children are only ever
/// appended after their parent.
pub proof fn lemma_ancestor_below(s: Seq<NodeModel>, a: int, i: int)
    requires
        wf_nodes(s),
        0 <= i < s.len(),
        is_ancestor(s, a, i),
    ensures
        a < i,
    decreases i,
{
    assert(node_ok(s, i));
    match s[i].parent {
        Some(p) => {
            if p != a {
                lemma_ancestor_below(s, a, p);
            }
        },
        None => {},
    }
}

/// The parent/child relation over a well-formed registry is acyclic: no
/// node is its own ancestor, and each node has at most one parent by
/// construction. Together with the mutual parent/child consistency inside
/// `node_ok`, this is the forest shape of the registry.
pub proof fn lemma_forest_acyclic(s: Seq<NodeModel>, i: int)
    requires
        wf_nodes(s),
        0 <= i < s.len(),
    ensures
        !is_ancestor(s, i, i),
{
    if is_ancestor(s, i, i) {
        lemma_ancestor_below(s, i, i);
    }
}

/// Every non-root node sits exactly one generation below its parent; every
/// root sits at generation zero.
pub proof fn lemma_generation_depth(s: Seq<NodeModel>, i: int)
    requires
        wf_nodes(s),
        0 <= i < s.len(),
    ensures
        match s[i].parent {
            Some(p) => 0 <= p < i && s[i].generation == s[p].generation + 1,
            None => s[i].generation == 0,
        },
{
    assert(node_ok(s, i));
}

/// Every child in a node's child list was appended after the node and
/// points back at it as its parent.
pub proof fn lemma_children_point_back(s: Seq<NodeModel>, i: int, k: int)
    requires
        wf_nodes(s),
        0 <= i < s.len(),
        0 <= k < s[i].children.len(),
    ensures
        i < s[i].children[k] < s.len(),
        s[s[i].children[k]].parent == Some(i),
{
    assert(node_ok(s, i));
}

/// Every non-root node is listed in its parent's child list.
pub proof fn lemma_parent_lists_child(s: Seq<NodeModel>, i: int)
    requires
        wf_nodes(s),
        0 <= i < s.len(),
        s[i].parent is Some,
    ensures
        s[s[i].parent->Some_0].children.contains(i),
{
    assert(node_ok(s, i));
}

/// What a step never does to a pre-existing node: its identity keeps
/// pointing at it, its parent, generation and color fraction never change,
/// its child list only gains entries at the end, its size never shrinks (and
/// never changes at all once past the growth ceiling), and a dead node never
/// comes back to life.
pub open spec fn preserves_nodes(a: Seq<NodeModel>, b: Seq<NodeModel>) -> bool {
    &&& a.len() <= b.len()
    &&& forall|i: int|
        0 <= i < a.len() ==> {
            let x = #[trigger] b[i];
            &&& x.parent == a[i].parent
            &&& x.generation == a[i].generation
            &&& x.frac == a[i].frac
            &&& a[i].children.is_prefix_of(x.children)
            &&& x.size >= a[i].size
            &&& (a[i].size > 29 ==> x.size == a[i].size)
            &&& (!a[i].alive ==> !x.alive)
        }
}

/// `preserves_nodes` composes.
pub proof fn lemma_preserves_trans(a: Seq<NodeModel>, b: Seq<NodeModel>, c: Seq<NodeModel>)
    requires
        preserves_nodes(a, b),
        preserves_nodes(b, c),
    ensures
        preserves_nodes(a, c),
{
    assert forall|i: int| 0 <= i < a.len() implies {
        let x = #[trigger] c[i];
        &&& x.parent == a[i].parent
        &&& x.generation == a[i].generation
        &&& x.frac == a[i].frac
        &&& a[i].children.is_prefix_of(x.children)
        &&& x.size >= a[i].size
        &&& (a[i].size > 29 ==> x.size == a[i].size)
        &&& (!a[i].alive ==> !x.alive)
    } by {
        assert(b[i].parent == a[i].parent);
        assert(c[i].parent == b[i].parent);
        assert(a[i].children.is_prefix_of(b[i].children));
        assert(b[i].children.is_prefix_of(c[i].children));
        assert(a[i].children.is_prefix_of(c[i].children));
    }
}

proof fn lemma_preserves_refl(a: Seq<NodeModel>)
    ensures
        preserves_nodes(a, a),
{
    assert forall|i: int| 0 <= i < a.len() implies (#[trigger] a[i]).children.is_prefix_of(a[i].children) by {
        assert(a[i].children =~= a[i].children.subrange(0, a[i].children.len() as int));
    }
}

/// A single update that keeps structure, liveness-permanence, and the size
/// discipline preserves the store.
proof fn lemma_preserves_update(a: Seq<NodeModel>, i: int, n: NodeModel)
    requires
        0 <= i < a.len(),
        n.parent == a[i].parent,
        n.generation == a[i].generation,
        n.frac == a[i].frac,
        a[i].children.is_prefix_of(n.children),
        n.size >= a[i].size,
        a[i].size > 29 ==> n.size == a[i].size,
        !a[i].alive ==> !n.alive,
    ensures
        preserves_nodes(a, a.update(i, n)),
{
    lemma_preserves_refl(a);
    assert forall|j: int| 0 <= j < a.len() && j != i implies
        (#[trigger] a[j]).children.is_prefix_of(a.update(i, n)[j].children) by {
        assert(a.update(i, n)[j] == a[j]);
        assert(a[j].children.is_prefix_of(a[j].children));
    }
}

/// Phases 1 and 2 on one node keep the store well formed and preserve every
/// pre-existing node; they never shrink the store, and never touch any
/// node's position or size.
pub proof fn lemma_step12_one_props(m: RegistryModel, snap: Seq<NodeModel>, t: int, i: int)
    requires
        wf_nodes(m.nodes),
        0 <= i < snap.len(),
        snap.len() <= m.nodes.len(),
    ensures
        wf_nodes(step12_one(m, snap, t, i).nodes),
        preserves_nodes(m.nodes, step12_one(m, snap, t, i).nodes),
        m.nodes.len() <= step12_one(m, snap, t, i).nodes.len(),
        forall|j: int| 0 <= j < m.nodes.len() ==> {
            let x = #[trigger] step12_one(m, snap, t, i).nodes[j];
            x.x == m.nodes[j].x && x.y == m.nodes[j].y && x.size == m.nodes[j].size
        },
{
    let s0 = m.nodes;
    assert(node_ok(s0, i));
    let s1 = energize_model(s0, t, i);
    if s0[i].parent is None && t < 1000 {
        lemma_wf_update_keep_structure(
            s0,
            i,
            NodeModel {
                energy: sat_add_i64(s0[i].energy, 10000),
                grown: if s0[i].alive { true } else { s0[i].grown },
                ..s0[i]
            },
        );
        lemma_preserves_update(
            s0,
            i,
            NodeModel {
                energy: sat_add_i64(s0[i].energy, 10000),
                grown: if s0[i].alive { true } else { s0[i].grown },
                ..s0[i]
            },
        );
    } else {
        lemma_preserves_refl(s0);
    }
    assert(wf_nodes(s1));
    assert(preserves_nodes(s0, s1));
    if s1[i].energy > 10 {
        let m1 = RegistryModel { nodes: s1, rng: m.rng };
        let m2 = branch_model(m1, snap, i);
        lemma_branch_model_props(m1, snap, i);
        assert(preserves_nodes(s1, m2.nodes));
        let s3 = propagate_model(m2.nodes, snap.len() as int, i);
        lemma_propagate_model_props(m2.nodes, snap.len() as int, i);
        lemma_preserves_trans(s0, s1, m2.nodes);
        lemma_preserves_trans(s0, m2.nodes, s3);
    }
}

/// A branch attempt keeps the store well formed and preserves every
/// pre-existing node, never touching positions or sizes.
proof fn lemma_branch_model_props(m: RegistryModel, snap: Seq<NodeModel>, i: int)
    requires
        wf_nodes(m.nodes),
        0 <= i < m.nodes.len(),
    ensures
        wf_nodes(branch_model(m, snap, i).nodes),
        preserves_nodes(m.nodes, branch_model(m, snap, i).nodes),
        m.nodes.len() <= branch_model(m, snap, i).nodes.len(),
        forall|j: int| 0 <= j < m.nodes.len() ==> {
            let x = #[trigger] branch_model(m, snap, i).nodes[j];
            x.x == m.nodes[j].x && x.y == m.nodes[j].y && x.size == m.nodes[j].size
                && x.energy >= m.nodes[j].energy - 1
        },
{
    let u1 = rng_unit_of(m.rng);
    let r1 = rng_next_state(m.rng);
    if 5 * u1 < 65536 {
        let n = m.nodes[i];
        let u2 = rng_unit_of(r1);
        let r2 = rng_next_state(r1);
        let m2 = RegistryModel { nodes: m.nodes, rng: r2 };
        match n.parent {
            None => lemma_branch_at_props(m2, snap, i, u2, 2 * u2),
            Some(p) => {
                let base = atan2_brad(n.x - m.nodes[p].x, n.y - m.nodes[p].y);
                let d = 2 * u2 - 65536;
                let bias = pow19_fp(d);
                let off = if bias >= 0 { bias / 2 } else { -((-bias) / 2) };
                let raw = base + off;
                let angle = if raw < 0 { raw + 65536 } else if raw >= 65536 { raw - 65536 } else { raw };
                lemma_branch_at_props(m2, snap, i, angle, 2 * raw);
            },
        }
    } else {
        lemma_preserves_refl(m.nodes);
    }
}

proof fn lemma_branch_at_props(m: RegistryModel, snap: Seq<NodeModel>, i: int, angle: int, frac: int)
    requires
        wf_nodes(m.nodes),
        0 <= i < m.nodes.len(),
    ensures
        wf_nodes(branch_at_model(m, snap, i, angle, frac).nodes),
        preserves_nodes(m.nodes, branch_at_model(m, snap, i, angle, frac).nodes),
        m.nodes.len() <= branch_at_model(m, snap, i, angle, frac).nodes.len(),
        forall|j: int| 0 <= j < m.nodes.len() ==> {
            let x = #[trigger] branch_at_model(m, snap, i, angle, frac).nodes[j];
            x.x == m.nodes[j].x && x.y == m.nodes[j].y && x.size == m.nodes[j].size
                && x.energy >= m.nodes[j].energy - 1
        },
{
    let s = m.nodes;
    let n = s[i];
    assert(node_ok(s, i));
    let off = branch_offset(n.size + 1, angle);
    let xc = n.x + off.0;
    let yc = n.y + off.1;
    if candidate_ok_model(s, snap, xc, yc) {
        let retired = NodeModel { alive: false, energy: n.energy - 1, ..n };
        let s1 = s.update(i, retired);
        lemma_wf_update_keep_structure(s, i, retired);
        lemma_preserves_update(s, i, retired);
        let m1 = RegistryModel { nodes: s1, rng: m.rng };
        lemma_wf_append(m1, i, xc, yc, 1, frac);
        let s2 = append_child_model(m1, i, xc, yc, 1, frac).nodes;
        let id = s1.len() as int;
        let augmented = NodeModel { children: s1[i].children.push(id), ..s1[i] };
        assert(s2 == s1.update(i, augmented).push(
            NodeModel {
                x: xc,
                y: yc,
                size: 1,
                energy: 0,
                frac: frac,
                alive: true,
                grown: false,
                generation: s1[i].generation + 1,
                parent: Some(i),
                children: Seq::empty(),
            },
        ));
        assert forall|j: int| 0 <= j < s1.len() implies {
            let x = #[trigger] s2[j];
            &&& x.parent == s1[j].parent
            &&& x.generation == s1[j].generation
            &&& x.frac == s1[j].frac
            &&& s1[j].children.is_prefix_of(x.children)
            &&& x.size >= s1[j].size
            &&& (s1[j].size > 29 ==> x.size == s1[j].size)
            &&& (!s1[j].alive ==> !x.alive)
        } by {
            if j == i {
                assert(s2[j].children == s1[j].children.push(id));
                assert(s1[j].children.is_prefix_of(s1[j].children.push(id))) by {
                    assert(s1[j].children =~= s1[j].children.push(id).subrange(
                        0, s1[j].children.len() as int));
                }
            } else {
                assert(s2[j] == s1[j]);
                assert(s1[j].children =~= s1[j].children.subrange(0, s1[j].children.len() as int));
            }
        }
        assert(preserves_nodes(s1, s2));
        lemma_preserves_trans(s, s1, s2);
    } else {
        lemma_preserves_refl(s);
    }
}

proof fn lemma_propagate_model_props(s: Seq<NodeModel>, len0: int, i: int)
    requires
        wf_nodes(s),
        0 <= i < s.len(),
        len0 <= s.len(),
    ensures
        wf_nodes(propagate_model(s, len0, i)),
        preserves_nodes(s, propagate_model(s, len0, i)),
        propagate_model(s, len0, i).len() == s.len(),
        forall|j: int| 0 <= j < s.len() ==> {
            let x = #[trigger] propagate_model(s, len0, i)[j];
            x.x == s[j].x && x.y == s[j].y && x.size == s[j].size
        },
{
    let n = s[i];
    assert(node_ok(s, i));
    if n.energy > 10 && n.children.len() > 0 {
        let deducted = NodeModel { energy: n.energy - 1, ..n };
        let s1 = s.update(i, deducted);
        lemma_wf_update_keep_structure(s, i, deducted);
        lemma_preserves_update(s, i, deducted);
        lemma_propagate_children_wf(s1, n.children, len0, n.children.len() as int);
        let s2 = propagate_children_model(s1, n.children, len0, n.children.len() as int);
        assert forall|j: int| 0 <= j < s1.len() implies {
            let x = #[trigger] s2[j];
            &&& x.parent == s1[j].parent
            &&& x.generation == s1[j].generation
            &&& x.frac == s1[j].frac
            &&& s1[j].children.is_prefix_of(x.children)
            &&& x.size >= s1[j].size
            &&& (s1[j].size > 29 ==> x.size == s1[j].size)
            &&& (!s1[j].alive ==> !x.alive)
        } by {
            assert(s2[j].children == s1[j].children);
            assert(s1[j].children =~= s1[j].children.subrange(0, s1[j].children.len() as int));
        }
        lemma_preserves_trans(s, s1, s2);
    } else {
        lemma_preserves_refl(s);
    }
}

/// Phase 3 on one node keeps the store well formed, its length, and every
/// node's identity facts. In particular the growth ceiling: a grown node
/// whose size already exceeds the ceiling is deactivated and its size is
/// left exactly as it was.
pub proof fn lemma_step3_one_props(s: Seq<NodeModel>, snap: Seq<NodeModel>, i: int)
    requires
        wf_nodes(s),
        0 <= i < s.len(),
    ensures
        wf_nodes(step3_one(s, snap, i)),
        preserves_nodes(s, step3_one(s, snap, i)),
        step3_one(s, snap, i).len() == s.len(),
        s[i].grown && s[i].size > 29 ==> !step3_one(s, snap, i)[i].alive && step3_one(s, snap, i)[i].size
            == s[i].size,
{
    let n0 = s[i];
    assert(node_ok(s, i));
    if !n0.grown {
        lemma_preserves_refl(s);
    } else {
        let s1 = if hit_model(s, snap, i) {
            s.update(i, NodeModel { alive: false, ..n0 })
        } else {
            s
        };
        if hit_model(s, snap, i) {
            lemma_wf_update_keep_structure(s, i, NodeModel { alive: false, ..n0 });
            lemma_preserves_update(s, i, NodeModel { alive: false, ..n0 });
        } else {
            lemma_preserves_refl(s);
        }
        assert(wf_nodes(s1) && preserves_nodes(s, s1));
        let n1 = s1[i];
        assert(node_ok(s1, i));
        if !n1.alive {
            lemma_preserves_refl(s1);
            lemma_preserves_trans(s, s1, s1);
        } else if n1.size > 29 {
            lemma_wf_update_keep_structure(s1, i, NodeModel { alive: false, ..n1 });
            lemma_preserves_update(s1, i, NodeModel { alive: false, ..n1 });
            lemma_preserves_trans(s, s1, s1.update(i, NodeModel { alive: false, ..n1 }));
        } else {
            match n1.parent {
                None => {
                    lemma_wf_update_keep_structure(s1, i, NodeModel { size: n1.size + 1, ..n1 });
                    lemma_preserves_update(s1, i, NodeModel { size: n1.size + 1, ..n1 });
                    lemma_preserves_trans(s, s1, s1.update(i, NodeModel { size: n1.size + 1, ..n1 }));
                },
                Some(p) => {
                    let ns = n1.size + 1;
                    let pos = reposition_model(s1[p].x, s1[p].y, n1.x, n1.y, ns + s1[p].size);
                    let moved = NodeModel { size: ns, x: pos.0, y: pos.1, ..n1 };
                    lemma_wf_update_keep_structure(s1, i, moved);
                    lemma_preserves_update(s1, i, moved);
                    lemma_preserves_trans(s, s1, s1.update(i, moved));
                },
            }
        }
    }
}

proof fn lemma_phase12_props(m: RegistryModel, snap: Seq<NodeModel>, t: int, i: int)
    requires
        wf_nodes(m.nodes),
        0 <= i <= snap.len(),
        snap.len() <= m.nodes.len(),
    ensures
        wf_nodes(phase12_upto(m, snap, t, i).nodes),
        preserves_nodes(m.nodes, phase12_upto(m, snap, t, i).nodes),
        m.nodes.len() <= phase12_upto(m, snap, t, i).nodes.len(),
    decreases i,
{
    if i <= 0 {
        lemma_preserves_refl(m.nodes);
    } else {
        lemma_phase12_props(m, snap, t, i - 1);
        let m1 = phase12_upto(m, snap, t, i - 1);
        lemma_step12_one_props(m1, snap, t, i - 1);
        lemma_preserves_trans(m.nodes, m1.nodes, step12_one(m1, snap, t, i - 1).nodes);
    }
}

proof fn lemma_phase3_props(s: Seq<NodeModel>, snap: Seq<NodeModel>, i: int)
    requires
        wf_nodes(s),
        0 <= i <= s.len(),
    ensures
        wf_nodes(phase3_upto(s, snap, i)),
        preserves_nodes(s, phase3_upto(s, snap, i)),
        phase3_upto(s, snap, i).len() == s.len(),
    decreases i,
{
    if i <= 0 {
        lemma_preserves_refl(s);
    } else {
        lemma_phase3_props(s, snap, i - 1);
        let s1 = phase3_upto(s, snap, i - 1);
        lemma_step3_one_props(s1, snap, i - 1);
        lemma_preserves_trans(s, s1, step3_one(s1, snap, i - 1));
    }
}

/// Referential stability across a whole step: the registry only gains
/// nodes, and every pre-existing identity keeps its node, with its parent,
/// generation and color fraction intact, its child list only extended, its
/// size never smaller (and frozen once past the growth ceiling), and death
/// permanent. Identities are never reused or invalidated.
pub proof fn lemma_step_preserves(m: RegistryModel, t: int)
    requires
        wf_nodes(m.nodes),
    ensures
        wf_nodes(step_model(m, t).nodes),
        preserves_nodes(m.nodes, step_model(m, t).nodes),
        m.nodes.len() <= step_model(m, t).nodes.len(),
{
    let s0 = reset_model(m.nodes);
    assert forall|j: int| 0 <= j < m.nodes.len() implies {
        let x = #[trigger] s0[j];
        &&& x.parent == m.nodes[j].parent
        &&& x.generation == m.nodes[j].generation
        &&& x.frac == m.nodes[j].frac
        &&& m.nodes[j].children.is_prefix_of(x.children)
        &&& x.size >= m.nodes[j].size
        &&& (m.nodes[j].size > 29 ==> x.size == m.nodes[j].size)
        &&& (!m.nodes[j].alive ==> !x.alive)
        &&& x.x == m.nodes[j].x
        &&& x.y == m.nodes[j].y
        &&& x.size == m.nodes[j].size
        &&& x.energy == m.nodes[j].energy
        &&& x.alive == m.nodes[j].alive
    } by {
        lemma_reset_index(m.nodes, j);
        assert(m.nodes[j].children =~= m.nodes[j].children.subrange(
            0, m.nodes[j].children.len() as int));
    }
    assert(s0.len() == m.nodes.len());
    assert(wf_nodes(s0)) by {
        assert forall|j: int| 0 <= j < s0.len() implies #[trigger] node_ok(s0, j) by {
            assert(node_ok(m.nodes, j));
            lemma_reset_index(m.nodes, j);
            assert forall|k: int| 0 <= k < s0[j].children.len() implies
                j < #[trigger] s0[j].children[k] < s0.len() && s0[s0[j].children[k]].parent
                    == Some(j) by {
                assert(s0[j].children[k] == m.nodes[j].children[k]);
                lemma_reset_index(m.nodes, m.nodes[j].children[k]);
            }
            match m.nodes[j].parent {
                Some(p) => {
                    lemma_reset_index(m.nodes, p);
                },
                None => {},
            }
        }
    }
    let m1 = phase12_upto(RegistryModel { nodes: s0, rng: m.rng }, s0, t, s0.len() as int);
    lemma_phase12_props(RegistryModel { nodes: s0, rng: m.rng }, s0, t, s0.len() as int);
    lemma_phase3_props(m1.nodes, s0, m1.nodes.len() as int);
    lemma_preserves_trans(m.nodes, s0, m1.nodes);
    lemma_preserves_trans(m.nodes, m1.nodes, phase3_upto(m1.nodes, s0, m1.nodes.len() as int));
}

/// How many steps of `run_model` act on `m`: the fold of `step_model` over
/// a sequence of step counts.
pub open spec fn run_model(m: RegistryModel, ts: Seq<u64>) -> RegistryModel
    decreases ts.len(),
{
    if ts.len() == 0 {
        m
    } else {
        run_model(step_model(m, ts[0] as int), ts.drop_first())
    }
}

/// Determinism: a step is a pure function of the registry and the step
/// count (the `ensures` of [`step`]), so two runs from equal registries
/// under the same step sequence end in equal registries.
pub proof fn lemma_run_deterministic(a: RegistryModel, b: RegistryModel, ts: Seq<u64>)
    requires
        a == b,
    ensures
        run_model(a, ts) == run_model(b, ts),
{
}

} // verus!
