//! Systems and the scheduler.
//!
//! A system is a unit of logic declaring the component types it reads and
//! writes; a `Schedule` runs its systems in builder-declared order.  Two
//! systems whose declared sets conflict are never reordered; `conflicts`
//! is the declared-set analysis a scheduler may use to run disjoint systems
//! side by side.
//!
//! Pool-order visitors model a bounded worker pool: the order in which the
//! pool reaches the matching rows is a rotation parameter that no caller
//! may rely on.  The increment and zero visitors are safe there — their
//! contracts do not mention the rotation at all.  The shared-counter
//! visitor (`q_par_for_each_order`) is the documented foot-gun: its result
//! provably depends on the rotation, which is what makes order-dependent
//! logic inside a pool visitor a usage error.

use vstd::prelude::*;
use crate::{CompSet, Counter, SigSet};
use crate::command::Resources;
use crate::world::{Row, TableV, World, WorldV};
use crate::query::{Filter, filter_counter, matches_filter, sig_matches, spec_filter_counter, spec_matching};

verus! {

/// The number of matching rows in tables before table `ti`.
pub open spec fn match_before(tables: Seq<TableV>, f: Filter, ti: int) -> int {
    spec_matching(tables.take(ti), f).len() as int
}

/// `c + 1` in the wrap-around arithmetic of the increment visitor.
pub open spec fn wrap_inc(c: u64) -> u64 {
    if c == u64::MAX {
        0
    } else {
        (c + 1) as u64
    }
}

/// The row after storing counter value `v`, when the row has a counter.
pub open spec fn row_set_counter(r: Row, v: u64) -> Row {
    if r.comps.c_counter is Some {
        Row { entity: r.entity, comps: CompSet { c_counter: Some(Counter(v)), ..r.comps } }
    } else {
        r
    }
}

/// The row after incrementing its counter, when it has one.
pub open spec fn row_inc_counter(r: Row) -> Row {
    match r.comps.c_counter {
        Some(k) => row_set_counter(r, wrap_inc(k.0)),
        None => r,
    }
}

/// The value the shared-counter visitor leaves on the row visited in global
/// matching position `m`, when the pool of `n` matching rows is reached in
/// rotation `rot`: the position of `m` in that visit order.
pub open spec fn shared_value(m: int, n: int, rot: u64) -> u64 {
    if n <= 0 {
        0
    } else {
        let r = (rot as int) % n;
        (if m >= r {
            m - r
        } else {
            m + n - r
        }) as u64
    }
}

/// Rows of one table after the zero visitor.
pub open spec fn zero_rows(t: TableV, f: Filter) -> Seq<Row> {
    if sig_matches(t.sig, f) {
        Seq::new(t.rows.len(), |ri: int| row_set_counter(t.rows[ri], 0))
    } else {
        t.rows
    }
}

/// Rows of one table after the increment visitor.
pub open spec fn inc_rows(t: TableV, f: Filter) -> Seq<Row> {
    if sig_matches(t.sig, f) {
        Seq::new(t.rows.len(), |ri: int| row_inc_counter(t.rows[ri]))
    } else {
        t.rows
    }
}

/// Transition of the zero visitor: every matching counter becomes 0,
/// whatever order the pool visits in.
pub open spec fn spec_run_zero(tables: Seq<TableV>, f: Filter) -> Seq<TableV> {
    Seq::new(tables.len(), |ti: int| TableV { sig: tables[ti].sig, rows: zero_rows(tables[ti], f) })
}

/// Transition of the increment visitor: every matching counter is bumped,
/// whatever order the pool visits in.
pub open spec fn spec_run_inc(tables: Seq<TableV>, f: Filter) -> Seq<TableV> {
    Seq::new(tables.len(), |ti: int| TableV { sig: tables[ti].sig, rows: inc_rows(tables[ti], f) })
}

/// Transition of the shared-counter visitor under rotation `rot`: the row
/// in global matching position `m` receives the position at which the pool
/// reached it.  Rotation 0 is exactly the sequential order-establishing
/// visitor: position `m` receives value `m`.
pub open spec fn spec_run_shared(tables: Seq<TableV>, f: Filter, rot: u64) -> Seq<TableV> {
    let n = spec_matching(tables, f).len() as int;
    Seq::new(
        tables.len(),
        |ti: int| TableV {
            sig: tables[ti].sig,
            rows: if sig_matches(tables[ti].sig, f) {
                Seq::new(
                    tables[ti].rows.len(),
                    |ri: int| row_set_counter(
                        tables[ti].rows[ri],
                        shared_value(match_before(tables, f, ti) + ri, n, rot),
                    ),
                )
            } else {
                tables[ti].rows
            },
        },
    )
}

/// One step of the matching count: table `ti` contributes its row count
/// exactly when its signature matches.
pub proof fn lemma_mb_step(tables: Seq<TableV>, f: Filter, ti: int)
    requires
        0 <= ti < tables.len(),
    ensures
        match_before(tables, f, ti + 1) == match_before(tables, f, ti) + (if sig_matches(
            tables[ti].sig,
            f,
        ) {
            tables[ti].rows.len() as int
        } else {
            0
        }),
{
    assert(tables.take(ti + 1).drop_last() =~= tables.take(ti));
    assert(tables.take(ti + 1).last() == tables[ti]);
}

/// The matching count is monotone in the table prefix.
pub proof fn lemma_mb_mono(tables: Seq<TableV>, f: Filter, a: int, b: int)
    requires
        0 <= a <= b <= tables.len(),
    ensures
        match_before(tables, f, a) <= match_before(tables, f, b),
    decreases b - a,
{
    if a < b {
        lemma_mb_step(tables, f, a);
        lemma_mb_mono(tables, f, a + 1, b);
    }
}

/// Every matching coordinate's global position lies below the total count.
pub proof fn lemma_mb_bound(tables: Seq<TableV>, f: Filter, ti: int, ri: int)
    requires
        0 <= ti < tables.len(),
        sig_matches(tables[ti].sig, f),
        0 <= ri < tables[ti].rows.len(),
    ensures
        0 <= match_before(tables, f, ti) + ri < spec_matching(tables, f).len(),
{
    lemma_mb_mono(tables, f, 0, ti);
    lemma_mb_step(tables, f, ti);
    lemma_mb_mono(tables, f, ti + 1, tables.len() as int);
    assert(tables.take(tables.len() as int) =~= tables);
}

/// Distinct matching coordinates have distinct global positions.
pub proof fn lemma_coord_inj(tables: Seq<TableV>, f: Filter, ti: int, ri: int, tj: int, rj: int)
    requires
        0 <= ti < tables.len(),
        sig_matches(tables[ti].sig, f),
        0 <= ri < tables[ti].rows.len(),
        0 <= tj < tables.len(),
        sig_matches(tables[tj].sig, f),
        0 <= rj < tables[tj].rows.len(),
        !(ti == tj && ri == rj),
    ensures
        match_before(tables, f, ti) + ri != match_before(tables, f, tj) + rj,
{
    if ti < tj {
        lemma_mb_step(tables, f, ti);
        lemma_mb_mono(tables, f, ti + 1, tj);
    } else if tj < ti {
        lemma_mb_step(tables, f, tj);
        lemma_mb_mono(tables, f, tj + 1, ti);
    }
}

/// Distinct global positions receive distinct visit positions under any one
/// rotation: the shared-counter value is injective over the pool.
pub proof fn lemma_shared_value_inj(x: int, y: int, n: int, rot: u64)
    requires
        0 < n <= u64::MAX,
        0 <= x < n,
        0 <= y < n,
        x != y,
    ensures
        shared_value(x, n, rot) != shared_value(y, n, rot),
{
    let r = (rot as int) % n;
    assert(0 <= r < n) by (nonlinear_arith)
        requires
            n > 0,
            r == (rot as int) % n,
            rot >= 0,
    ;
    let vx = if x >= r { x - r } else { x + n - r };
    let vy = if y >= r { y - r } else { y + n - r };
    assert(0 <= vx < n);
    assert(0 <= vy < n);
    assert(vx != vy);
    assert(shared_value(x, n, rot) == vx as u64);
    assert(shared_value(y, n, rot) == vy as u64);
}

/// A coordinate as collected: its table, row, and that its global matching
/// position is `m`.
pub open spec fn coord_ok(tables: Seq<TableV>, f: Filter, c: (usize, usize), m: int) -> bool {
    &&& (c.0 as int) < tables.len()
    &&& sig_matches(tables[c.0 as int].sig, f)
    &&& (c.1 as int) < tables[c.0 as int].rows.len()
    &&& match_before(tables, f, c.0 as int) + c.1 == m
}

/// Collect the coordinates of all matching rows, in storage order: the m-th
/// element is the coordinate whose global matching position is m.
fn collect_matching_coords(world: &World, f: Filter) -> (coords: Vec<(usize, usize)>)
    ensures
        coords@.len() == spec_matching(world@.tables, f).len(),
        forall|m: int|
            0 <= m < coords@.len() ==> coord_ok(world@.tables, f, #[trigger] coords@[m], m),
{
    let ghost v = world@;
    let nt = world.tables.len();
    let mut coords: Vec<(usize, usize)> = Vec::new();
    let mut ti: usize = 0;
    while ti < nt
        invariant
            0 <= ti <= nt == world.tables@.len(),
            v == world@,
            coords@.len() == match_before(v.tables, f, ti as int),
            forall|m: int|
                0 <= m < coords@.len() ==> coord_ok(v.tables, f, #[trigger] coords@[m], m),
        decreases nt - ti,
    {
        proof {
            lemma_mb_step(v.tables, f, ti as int);
        }
        let sg = world.tables[ti].sig;
        if matches_filter(sg, f) {
            let nr = world.tables[ti].rows.len();
            let mut ri: usize = 0;
            while ri < nr
                invariant
                    0 <= ri <= nr,
                    v == world@,
                    0 <= ti < v.tables.len(),
                    nr == world.tables@[ti as int].rows@.len(),
                    nr as int == v.tables[ti as int].rows.len(),
                    sig_matches(v.tables[ti as int].sig, f),
                    coords@.len() == match_before(v.tables, f, ti as int) + ri,
                    forall|m: int|
                        0 <= m < coords@.len() ==> coord_ok(v.tables, f, #[trigger] coords@[m], m),
                decreases nr - ri,
            {
                coords.push((ti, ri));
                ri = ri + 1;
            }
        }
        ti = ti + 1;
    }
    proof {
        assert(v.tables.take(nt as int) =~= v.tables);
    }
    coords
}

/// Run the shared-counter pool visitor over the rows matching `f`: the pool
/// reaches the matching rows in the rotation `rot` and writes into each
/// visited counter the number of rows visited before it.  The result
/// provably depends on `rot` — see `laws::lemma_parallel_order_hazard` —
/// which is why visitor logic must never read cross-invocation shared
/// state under pool iteration.  Rotation 0 gives sequential storage order.
pub fn run_shared_assign(world: &mut World, f: Filter, rot: u64)
    ensures
        final(world)@.slots == old(world)@.slots,
        final(world)@.tables == spec_run_shared(old(world)@.tables, f, rot),
{
    let ghost t0 = world@.tables;
    let ghost s0 = world@.slots;
    let ghost n_spec = spec_matching(t0, f).len() as int;
    let coords = collect_matching_coords(world, f);
    let n = coords.len();
    if n == 0 {
        proof {
            assert forall|ti: int|
                0 <= ti < t0.len() && sig_matches((#[trigger] t0[ti]).sig, f) implies t0[
                ti
            ].rows.len() == 0 by {
                if t0[ti].rows.len() > 0 {
                    lemma_mb_bound(t0, f, ti, 0);
                }
            }
            assert(world@.tables =~~= spec_run_shared(t0, f, rot));
        }
        return ;
    }
    let r: usize = (rot % (n as u64)) as usize;
    let mut j: usize = 0;
    while j < n
        invariant
            0 <= j <= n,
            n == n_spec,
            n_spec == spec_matching(t0, f).len(),
            0 <= r < n,
            r as int == (rot as int) % n_spec,
            coords@.len() == n,
            forall|m: int| 0 <= m < n ==> coord_ok(t0, f, #[trigger] coords@[m], m),
            world@.slots == s0,
            world@.tables.len() == t0.len(),
            forall|k: int|
                0 <= k < t0.len() ==> (#[trigger] world@.tables[k]).sig == t0[k].sig,
            forall|k: int|
                0 <= k < t0.len() ==> (#[trigger] world@.tables[k]).rows.len()
                    == t0[k].rows.len(),
            forall|k: int, r2: int|
                0 <= k < t0.len() && 0 <= r2 < t0[k].rows.len() ==> #[trigger] world@.tables[k].rows[r2]
                    == (if sig_matches(t0[k].sig, f) && shared_value(
                    match_before(t0, f, k) + r2,
                    n_spec,
                    rot,
                ) < j {
                    row_set_counter(t0[k].rows[r2], shared_value(match_before(t0, f, k) + r2, n_spec, rot))
                } else {
                    t0[k].rows[r2]
                }),
        decreases n - j,
    {
        let m_idx: usize = if j >= n - r {
            j - (n - r)
        } else {
            j + r
        };
        let c = coords[m_idx];
        let ti = c.0;
        let ri = c.1;
        proof {
            assert(coord_ok(t0, f, coords@[m_idx as int], m_idx as int));
            assert(shared_value(m_idx as int, n_spec, rot) == j);
            assert((ti as int) < world@.tables.len());
            assert(world@.tables[ti as int].rows.len() == t0[ti as int].rows.len());
            assert(world.tables@[ti as int].rows@ == world@.tables[ti as int].rows);
        }
        let ghost tpre = world@.tables;
        let old_row = world.tables[ti].rows[ri];
        if old_row.comps.c_counter.is_some() {
            world.tables[ti].rows[ri] = Row {
                entity: old_row.entity,
                comps: CompSet { c_counter: Some(Counter(j as u64)), ..old_row.comps },
            };
        }
        proof {
            assert(world@.tables.len() == tpre.len());
            assert forall|k: int| 0 <= k < tpre.len() && k != ti as int implies #[trigger] world@.tables[k]
                == tpre[k] by {}
            assert forall|r2: int|
                0 <= r2 < tpre[ti as int].rows.len() && r2 != ri as int implies #[trigger] world@.tables[
                ti as int
            ].rows[r2] == tpre[ti as int].rows[r2] by {}
            let m = match_before(t0, f, ti as int) + ri;
            assert(m == m_idx as int);
            assert(shared_value(m, n_spec, rot) == j);
            assert(old_row == t0[ti as int].rows[ri as int]);
            assert(world@.tables[ti as int].rows[ri as int] == row_set_counter(
                t0[ti as int].rows[ri as int],
                j as u64,
            ));
            assert forall|k: int, r2: int|
                0 <= k < t0.len() && 0 <= r2 < t0[k].rows.len() implies world@.tables[k].rows[r2]
                == (if sig_matches(t0[k].sig, f) && shared_value(
                match_before(t0, f, k) + r2,
                n_spec,
                rot,
            ) < j + 1 {
                row_set_counter(t0[k].rows[r2], shared_value(match_before(t0, f, k) + r2, n_spec, rot))
            } else {
                t0[k].rows[r2]
            }) by {
                if k == ti as int && r2 == ri as int {
                } else {
                    assert(world@.tables[k].rows[r2] == tpre[k].rows[r2]);
                    if sig_matches(t0[k].sig, f) && shared_value(
                        match_before(t0, f, k) + r2,
                        n_spec,
                        rot,
                    ) == j {
                        let x = match_before(t0, f, k) + r2;
                        let mm = match_before(t0, f, ti as int) + ri as int;
                        lemma_mb_bound(t0, f, k, r2);
                        lemma_coord_inj(t0, f, k, r2, ti as int, ri as int);
                        assert(x != mm);
                        assert(0 <= mm < n_spec);
                        assert(n_spec <= u64::MAX);
                        assert(0 <= x);
                        assert(x < n_spec);
                        lemma_shared_value_inj(x, mm, n_spec, rot);
                        assert(false);
                    }
                }
            }
        }
        j = j + 1;
    }
    proof {
        assert forall|k: int, r2: int|
            0 <= k < t0.len() && sig_matches(t0[k].sig, f) && 0 <= r2
                < t0[k].rows.len() implies #[trigger] shared_value(
                match_before(t0, f, k) + r2,
                n_spec,
                rot,
            ) < n by {
            lemma_mb_bound(t0, f, k, r2);
        }
        assert(world@.tables =~~= spec_run_shared(t0, f, rot));
    }
}

/// Run the zero visitor: every matching counter becomes 0.  Safe under pool
/// iteration: the result does not depend on visit order.
pub fn run_zero(world: &mut World, f: Filter)
    ensures
        final(world)@.slots == old(world)@.slots,
        final(world)@.tables == spec_run_zero(old(world)@.tables, f),
{
    let ghost t0 = world@.tables;
    let ghost s0 = world@.slots;
    let nt = world.tables.len();
    let mut ti: usize = 0;
    while ti < nt
        invariant
            0 <= ti <= nt,
            world@.slots == s0,
            world@.tables.len() == t0.len() == nt,
            nt == world.tables@.len(),
            forall|k: int|
                0 <= k < t0.len() ==> (#[trigger] world@.tables[k]).sig == t0[k].sig,
            forall|k: int|
                ti <= k < t0.len() ==> (#[trigger] world@.tables[k]).rows == t0[k].rows,
            forall|k: int|
                0 <= k < ti ==> (#[trigger] world@.tables[k]).rows == zero_rows(t0[k], f),
        decreases nt - ti,
    {
        let sg = world.tables[ti].sig;
        if matches_filter(sg, f) {
            let nr = world.tables[ti].rows.len();
            let mut ri: usize = 0;
            while ri < nr
                invariant
                    0 <= ri <= nr,
                    0 <= ti < t0.len(),
                    world@.slots == s0,
                    world@.tables.len() == t0.len(),
                    nr == world.tables@[ti as int].rows@.len(),
                    nr as int == t0[ti as int].rows.len(),
                    sig_matches(t0[ti as int].sig, f),
                    forall|k: int|
                        0 <= k < t0.len() ==> (#[trigger] world@.tables[k]).sig == t0[k].sig,
                    forall|k: int|
                        ti < k < t0.len() ==> (#[trigger] world@.tables[k]).rows == t0[k].rows,
                    forall|k: int|
                        0 <= k < ti ==> (#[trigger] world@.tables[k]).rows == zero_rows(t0[k], f),
                    world@.tables[ti as int].rows.len() == t0[ti as int].rows.len(),
                    forall|r2: int|
                        0 <= r2 < ri ==> #[trigger] world@.tables[ti as int].rows[r2]
                            == row_set_counter(t0[ti as int].rows[r2], 0),
                    forall|r2: int|
                        ri <= r2 < t0[ti as int].rows.len() ==> #[trigger] world@.tables[
                            ti as int
                        ].rows[r2] == t0[ti as int].rows[r2],
                decreases nr - ri,
            {
                let ghost tpre = world@.tables;
                let old_row = world.tables[ti].rows[ri];
                if old_row.comps.c_counter.is_some() {
                    world.tables[ti].rows[ri] = Row {
                        entity: old_row.entity,
                        comps: CompSet { c_counter: Some(Counter(0)), ..old_row.comps },
                    };
                }
                proof {
                    assert(world@.tables.len() == tpre.len());
                    assert forall|k: int|
                        0 <= k < tpre.len() && k != ti as int implies #[trigger] world@.tables[k]
                        == tpre[k] by {}
                    assert forall|r2: int|
                        0 <= r2 < tpre[ti as int].rows.len() && r2 != ri as int implies #[trigger] world@.tables[
                        ti as int
                    ].rows[r2] == tpre[ti as int].rows[r2] by {}
                    assert(world@.tables[ti as int].rows[ri as int] == row_set_counter(
                        t0[ti as int].rows[ri as int],
                        0,
                    ));
                }
                ri = ri + 1;
            }
            proof {
                assert(world@.tables[ti as int].rows =~= zero_rows(t0[ti as int], f));
            }
        }
        ti = ti + 1;
    }
    proof {
        assert(world@.tables =~~= spec_run_zero(t0, f));
    }
}

/// Run the increment visitor: every matching counter is bumped by one, in
/// the wrap-around arithmetic of `wrap_inc`.  Safe under pool iteration:
/// the result does not depend on visit order.
pub fn run_increment(world: &mut World, f: Filter)
    ensures
        final(world)@.slots == old(world)@.slots,
        final(world)@.tables == spec_run_inc(old(world)@.tables, f),
{
    let ghost t0 = world@.tables;
    let ghost s0 = world@.slots;
    let nt = world.tables.len();
    let mut ti: usize = 0;
    while ti < nt
        invariant
            0 <= ti <= nt,
            world@.slots == s0,
            world@.tables.len() == t0.len() == nt,
            nt == world.tables@.len(),
            forall|k: int|
                0 <= k < t0.len() ==> (#[trigger] world@.tables[k]).sig == t0[k].sig,
            forall|k: int|
                ti <= k < t0.len() ==> (#[trigger] world@.tables[k]).rows == t0[k].rows,
            forall|k: int|
                0 <= k < ti ==> (#[trigger] world@.tables[k]).rows == inc_rows(t0[k], f),
        decreases nt - ti,
    {
        let sg = world.tables[ti].sig;
        if matches_filter(sg, f) {
            let nr = world.tables[ti].rows.len();
            let mut ri: usize = 0;
            while ri < nr
                invariant
                    0 <= ri <= nr,
                    0 <= ti < t0.len(),
                    world@.slots == s0,
                    world@.tables.len() == t0.len(),
                    nr == world.tables@[ti as int].rows@.len(),
                    nr as int == t0[ti as int].rows.len(),
                    sig_matches(t0[ti as int].sig, f),
                    forall|k: int|
                        0 <= k < t0.len() ==> (#[trigger] world@.tables[k]).sig == t0[k].sig,
                    forall|k: int|
                        ti < k < t0.len() ==> (#[trigger] world@.tables[k]).rows == t0[k].rows,
                    forall|k: int|
                        0 <= k < ti ==> (#[trigger] world@.tables[k]).rows == inc_rows(t0[k], f),
                    world@.tables[ti as int].rows.len() == t0[ti as int].rows.len(),
                    forall|r2: int|
                        0 <= r2 < ri ==> #[trigger] world@.tables[ti as int].rows[r2]
                            == row_inc_counter(t0[ti as int].rows[r2]),
                    forall|r2: int|
                        ri <= r2 < t0[ti as int].rows.len() ==> #[trigger] world@.tables[
                            ti as int
                        ].rows[r2] == t0[ti as int].rows[r2],
                decreases nr - ri,
            {
                let ghost tpre = world@.tables;
                let old_row = world.tables[ti].rows[ri];
                match old_row.comps.c_counter {
                    Some(k) => {
                        let bumped: u64 = if k.0 == u64::MAX {
                            0
                        } else {
                            k.0 + 1
                        };
                        world.tables[ti].rows[ri] = Row {
                            entity: old_row.entity,
                            comps: CompSet { c_counter: Some(Counter(bumped)), ..old_row.comps },
                        };
                    },
                    None => {},
                }
                proof {
                    assert(world@.tables.len() == tpre.len());
                    assert forall|k: int|
                        0 <= k < tpre.len() && k != ti as int implies #[trigger] world@.tables[k]
                        == tpre[k] by {}
                    assert forall|r2: int|
                        0 <= r2 < tpre[ti as int].rows.len() && r2 != ri as int implies #[trigger] world@.tables[
                        ti as int
                    ].rows[r2] == tpre[ti as int].rows[r2] by {}
                    assert(world@.tables[ti as int].rows[ri as int] == row_inc_counter(
                        t0[ti as int].rows[ri as int],
                    ));
                }
                ri = ri + 1;
            }
            proof {
                assert(world@.tables[ti as int].rows =~= inc_rows(t0[ti as int], f));
            }
        }
        ti = ti + 1;
    }
    proof {
        assert(world@.tables =~~= spec_run_inc(t0, f));
    }
}

/// The kinds of system this schedule can carry.
#[derive(Clone, Copy, PartialEq, Eq, Structural, Debug)]
pub enum SystemKind {
    /// Sequential order-establishing visitor: the m-th matching row, in
    /// storage order, receives counter value m.
    AssignIndex,
    /// Pool visitor bumping every matching counter; order-independent.
    IncrementAll,
    /// Pool visitor zeroing every matching counter; order-independent.
    ZeroAll,
}

/// One schedulable unit: a visitor kind and its capability filter.
#[derive(Clone, Copy, PartialEq, Eq, Structural, Debug)]
pub struct System {
    pub kind: SystemKind,
    pub filter: Filter,
}

/// The component types a system writes: all carried systems write the
/// counter component of the rows matching their filter.
pub open spec fn spec_writes(s: System) -> SigSet {
    SigSet { has_bool: false, has_counter: true, has_f32: false, has_f64: false, has_u64: false }
}

/// The component types a system reads.
pub open spec fn spec_reads(s: System) -> SigSet {
    SigSet { has_bool: false, has_counter: true, has_f32: false, has_f64: false, has_u64: false }
}

/// Whether two signatures share a component type.
pub open spec fn sig_overlap(a: SigSet, b: SigSet) -> bool {
    ||| (a.has_bool && b.has_bool)
    ||| (a.has_counter && b.has_counter)
    ||| (a.has_f32 && b.has_f32)
    ||| (a.has_f64 && b.has_f64)
    ||| (a.has_u64 && b.has_u64)
}

/// The scheduler's conflict analysis: two systems conflict when one writes
/// a component type the other reads or writes.  Conflicting systems are
/// never run side by side; they execute in builder-declared order.
pub open spec fn spec_conflicts(a: System, b: System) -> bool {
    ||| sig_overlap(spec_writes(a), spec_reads(b))
    ||| sig_overlap(spec_writes(a), spec_writes(b))
    ||| sig_overlap(spec_writes(b), spec_reads(a))
}

/// The declared write set of a system.
pub fn writes_of(s: System) -> (r: SigSet)
    ensures
        r == spec_writes(s),
{
    SigSet { has_bool: false, has_counter: true, has_f32: false, has_f64: false, has_u64: false }
}

/// The declared read set of a system.
pub fn reads_of(s: System) -> (r: SigSet)
    ensures
        r == spec_reads(s),
{
    SigSet { has_bool: false, has_counter: true, has_f32: false, has_f64: false, has_u64: false }
}

fn overlaps(a: SigSet, b: SigSet) -> (r: bool)
    ensures
        r == sig_overlap(a, b),
{
    (a.has_bool && b.has_bool) || (a.has_counter && b.has_counter) || (a.has_f32 && b.has_f32)
        || (a.has_f64 && b.has_f64) || (a.has_u64 && b.has_u64)
}

pub fn conflicts(a: System, b: System) -> (r: bool)
    ensures
        r == spec_conflicts(a, b),
{
    let wa = writes_of(a);
    let wb = writes_of(b);
    overlaps(wa, reads_of(b)) || overlaps(wa, wb) || overlaps(wb, reads_of(a))
}

/// Transition of one system run.
pub open spec fn spec_run_system(v: WorldV, s: System) -> WorldV {
    WorldV {
        slots: v.slots,
        tables: match s.kind {
            SystemKind::AssignIndex => spec_run_shared(v.tables, s.filter, 0),
            SystemKind::IncrementAll => spec_run_inc(v.tables, s.filter),
            SystemKind::ZeroAll => spec_run_zero(v.tables, s.filter),
        },
    }
}

/// Transition of a whole pass: the systems applied in declared order.
pub open spec fn spec_execute(v: WorldV, ss: Seq<System>) -> WorldV
    decreases ss.len(),
{
    if ss.len() == 0 {
        v
    } else {
        spec_execute(spec_run_system(v, ss[0]), ss.drop_first())
    }
}

/// An ordered, dependency-aware plan: the systems run in the order the
/// builder added them.
pub struct Schedule {
    pub systems: Vec<System>,
}

impl View for Schedule {
    type V = Seq<System>;

    open spec fn view(&self) -> Seq<System> {
        self.systems@
    }
}

impl Schedule {
    /// An empty plan.
    pub fn new() -> (s: Schedule)
        ensures
            s@.len() == 0,
    {
        Schedule { systems: Vec::new() }
    }

    /// Append one system; it runs after everything already added.
    pub fn add_system(&mut self, s: System)
        ensures
            final(self)@ == old(self)@.push(s),
    {
        self.systems.push(s);
    }

    /// Run the pass: every system, in declared order, against `world` and
    /// the shared `resources` bag (which the carried systems leave
    /// untouched).  All carried systems conflict on the counter type, so
    /// none are run side by side.
    pub fn execute(&self, world: &mut World, resources: &mut Resources)
        ensures
            final(world)@ == spec_execute(old(world)@, self@),
            final(resources)@ == old(resources)@,
    {
        let ghost v0 = world@;
        let ghost ss = self@;
        proof {
            assert(ss.skip(0) =~= ss);
        }
        let n = self.systems.len();
        let mut i: usize = 0;
        while i < n
            invariant
                0 <= i <= n == self.systems@.len(),
                ss == self.systems@,
                spec_execute(v0, ss) == spec_execute(world@, ss.skip(i as int)),
            decreases n - i,
        {
            proof {
                assert(ss.skip(i as int)[0] == ss[i as int]);
                assert(ss.skip(i as int).drop_first() =~= ss.skip(i as int + 1));
            }
            let s = self.systems[i];
            match s.kind {
                SystemKind::AssignIndex => run_shared_assign(world, s.filter, 0),
                SystemKind::IncrementAll => run_increment(world, s.filter),
                SystemKind::ZeroAll => run_zero(world, s.filter),
            }
            i = i + 1;
        }
        proof {
            assert(ss.skip(n as int) =~= Seq::<System>::empty());
        }
    }
}

/// The sequential, iteration-order-dependent visitor over counters: the
/// m-th matching row in storage order receives counter value m.  Valid
/// only under sequential iteration; its fixed order is what re-establishes
/// determinism after any order-independent pool pass.
pub fn q_for_each_order(world: &mut World)
    ensures
        final(world)@.slots == old(world)@.slots,
        final(world)@.tables == spec_run_shared(old(world)@.tables, spec_filter_counter(), 0),
{
    let f = filter_counter();
    run_shared_assign(world, f, 0);
}

/// The order-independent pool visitor over counters: every matching
/// counter becomes 0, whatever order the pool reaches the rows in.
pub fn q_par_for_each(world: &mut World)
    ensures
        final(world)@.slots == old(world)@.slots,
        final(world)@.tables == spec_run_zero(old(world)@.tables, spec_filter_counter()),
{
    let f = filter_counter();
    run_zero(world, f);
}

/// The order-independent pool visitor bumping every counter.
pub fn s_par_for_each(world: &mut World)
    ensures
        final(world)@.slots == old(world)@.slots,
        final(world)@.tables == spec_run_inc(old(world)@.tables, spec_filter_counter()),
{
    let f = filter_counter();
    run_increment(world, f);
}

/// The deliberate misuse: a pool visitor whose written value is a shared
/// counter read in visitation order.  The result depends on the pool's
/// rotation `rot`, so two passes that drew different rotations disagree —
/// see `laws::lemma_parallel_order_hazard`.
pub fn q_par_for_each_order(world: &mut World, rot: u64)
    ensures
        final(world)@.slots == old(world)@.slots,
        final(world)@.tables == spec_run_shared(old(world)@.tables, spec_filter_counter(), rot),
{
    let f = filter_counter();
    run_shared_assign(world, f, rot);
}

} // verus!
