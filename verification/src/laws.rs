//! The library's general guarantees, stated and proved once over the spec
//! functions that the executable contracts use.

use vstd::prelude::*;
use crate::executor::{
    sim_execute, sim_phase1, sim_stage_a, sim_stage_b, temps_ok, ErrV, ExecOk, Phase1Ok, StageOk,
};
use crate::fs_model::map_move;
use crate::rules::{derive_view, RenameV};

verus! {

/// The positions at which the two listings differ, in increasing order.
pub open spec fn diff_indices(old: Seq<Seq<char>>, new: Seq<Seq<char>>) -> Seq<int>
    decreases old.len(),
{
    if old.len() == 0 || new.len() == 0 {
        Seq::empty()
    } else {
        let rest = diff_indices(old.skip(1), new.skip(1)).map_values(|k: int| k + 1);
        if old[0] == new[0] {
            rest
        } else {
            seq![0int] + rest
        }
    }
}

/// Rule derivation on line-aligned listings is exact: one rule for each
/// differing position, none for an equal position, in the original line
/// order.
pub proof fn lemma_derive_exact(old: Seq<Seq<char>>, new: Seq<Seq<char>>)
    requires
        old.len() == new.len(),
    ensures
        derive_view(old, new).len() == diff_indices(old, new).len(),
        forall|k: int|
            0 <= k < diff_indices(old, new).len() ==> {
                let i = #[trigger] diff_indices(old, new)[k];
                0 <= i < old.len() && old[i] != new[i] && derive_view(old, new)[k] == (RenameV {
                    source: old[i],
                    dest: new[i],
                })
            },
        forall|k1: int, k2: int|
            0 <= k1 < k2 < diff_indices(old, new).len() ==> diff_indices(old, new)[k1]
                < diff_indices(old, new)[k2],
        forall|i: int| 0 <= i < old.len() && old[i] != new[i] ==> diff_indices(old, new).contains(i),
    decreases old.len(),
{
    if old.len() != 0 {
        let o1 = old.skip(1);
        let n1 = new.skip(1);
        lemma_derive_exact(o1, n1);
        let d1 = diff_indices(o1, n1);
        let r1 = derive_view(o1, n1);
        let rest = d1.map_values(|k: int| k + 1);
        let d = diff_indices(old, new);
        let r = derive_view(old, new);
        assert forall|j: int| 0 <= j < o1.len() implies #[trigger] o1[j] == old[j + 1] && n1[j]
            == new[j + 1] by {}
        if old[0] == new[0] {
            assert(d == rest);
            assert(r == r1);
            assert forall|k: int| 0 <= k < d.len() implies {
                let i = #[trigger] d[k];
                0 <= i < old.len() && old[i] != new[i] && r[k] == (RenameV {
                    source: old[i],
                    dest: new[i],
                })
            } by {
                assert(d[k] == d1[k] + 1);
                assert(0 <= d1[k] < o1.len() && o1[d1[k]] != n1[d1[k]] && r1[k] == (RenameV {
                    source: o1[d1[k]],
                    dest: n1[d1[k]],
                }));
            }
            assert forall|k1: int, k2: int| 0 <= k1 < k2 < d.len() implies d[k1] < d[k2] by {
                assert(d[k1] == d1[k1] + 1 && d[k2] == d1[k2] + 1);
            }
            assert forall|i: int| 0 <= i < old.len() && old[i] != new[i] implies d.contains(i) by {
                assert(i != 0);
                assert(o1[i - 1] != n1[i - 1]);
                assert(d1.contains(i - 1));
                let k = choose|k: int| 0 <= k < d1.len() && d1[k] == i - 1;
                assert(d[k] == d1[k] + 1);
                assert(d[k] == i);
            }
        } else {
            assert(d == seq![0int] + rest);
            assert(r == seq![(RenameV { source: old[0], dest: new[0] })] + r1);
            assert forall|k: int| 0 <= k < d.len() implies {
                let i = #[trigger] d[k];
                0 <= i < old.len() && old[i] != new[i] && r[k] == (RenameV {
                    source: old[i],
                    dest: new[i],
                })
            } by {
                if k == 0 {
                    assert(d[0] == 0);
                    assert(r[0] == (RenameV { source: old[0], dest: new[0] }));
                } else {
                    assert(d[k] == rest[k - 1]);
                    assert(rest[k - 1] == d1[k - 1] + 1);
                    assert(r[k] == r1[k - 1]);
                    assert(0 <= d1[k - 1] < o1.len() && o1[d1[k - 1]] != n1[d1[k - 1]] && r1[k
                        - 1] == (RenameV { source: o1[d1[k - 1]], dest: n1[d1[k - 1]] }));
                }
            }
            assert forall|k1: int, k2: int| 0 <= k1 < k2 < d.len() implies d[k1] < d[k2] by {
                if k1 == 0 {
                    assert(d[k2] == d1[k2 - 1] + 1);
                } else {
                    assert(d[k1] == d1[k1 - 1] + 1 && d[k2] == d1[k2 - 1] + 1);
                }
            }
            assert forall|i: int| 0 <= i < old.len() && old[i] != new[i] implies d.contains(i) by {
                if i == 0 {
                    assert(d[0] == 0);
                } else {
                    assert(o1[i - 1] != n1[i - 1]);
                    assert(d1.contains(i - 1));
                    let k = choose|k: int| 0 <= k < d1.len() && d1[k] == i - 1;
                    assert(d[k + 1] == rest[k]);
                    assert(d[k + 1] == i);
                }
            }
        }
    }
}

/// A swap batch (two rules exchanging two existing files) succeeds, exchanges
/// the two files' contents, and leaves no staging path behind: the final
/// namespace is the old one with the entries at the two paths exchanged.
pub proof fn lemma_swap_executes(
    a: Seq<char>,
    b: Seq<char>,
    t1: Seq<char>,
    t2: Seq<char>,
    fs: Map<Seq<char>, u64>,
)
    requires
        a != b,
        fs.dom().contains(a),
        fs.dom().contains(b),
        t1 != t2,
        !fs.dom().contains(t1),
        !fs.dom().contains(t2),
        t1 != a,
        t1 != b,
        t2 != a,
        t2 != b,
    ensures
        ({
            let r1 = RenameV { source: a, dest: b };
            let r2 = RenameV { source: b, dest: a };
            sim_execute(seq![r1, r2], seq![t1, t2], fs) == Ok::<ExecOk, ErrV>(
                (ExecOk {
                    moves: seq![
                        (RenameV { source: a, dest: t1 }),
                        (RenameV { source: b, dest: t2 }),
                        (RenameV { source: t1, dest: b }),
                        (RenameV { source: t2, dest: a }),
                    ],
                    fs: fs.insert(a, fs[b]).insert(b, fs[a]),
                }),
            )
        }),
{
    reveal_with_fuel(sim_phase1, 4);
    reveal_with_fuel(sim_stage_a, 4);
    reveal_with_fuel(sim_stage_b, 4);
    let r1 = RenameV { source: a, dest: b };
    let r2 = RenameV { source: b, dest: a };
    let rules = seq![r1, r2];
    let temps = seq![t1, t2];
    let pending = Seq::<RenameV>::empty().push(r1).push(r2);
    assert(rules.skip(1) =~= seq![r2]);
    assert(seq![r2].skip(1) =~= Seq::<RenameV>::empty());
    assert(temps.skip(1) =~= seq![t2]);
    assert(seq![t2].skip(1) =~= Seq::<Seq<char>>::empty());
    assert(pending.skip(1) =~= seq![r2]);
    assert(sim_phase1(rules, fs, Seq::empty(), Seq::empty()) == Ok::<Phase1Ok, ErrV>(
        (Phase1Ok { moves: Seq::empty(), pending, fs }),
    ));
    assert(pending =~= rules);
    assert(temps_ok(temps, rules, fs)) by {
        assert(temps[0] == t1 && temps[1] == t2);
        assert(rules[0] == r1 && rules[1] == r2);
        assert forall|i: int, j: int| 0 <= i < 2 && 0 <= j < 2 implies temps[i] != rules[j].dest
            && temps[i] != rules[j].source by {
            assert(temps[i] == t1 || temps[i] == t2);
            assert(rules[j].dest == a || rules[j].dest == b);
            assert(rules[j].source == a || rules[j].source == b);
        }
        assert forall|i: int| 0 <= i < 2 implies !fs.dom().contains(
            #[trigger] temps[i],
        ) by {
            assert(temps[i] == t1 || temps[i] == t2);
        }
        assert forall|i: int, j: int| 0 <= i < j < 2 implies temps[i] != temps[j] by {}
    }
    let fs_a1 = map_move(fs, a, t1);
    let fs_a2 = map_move(fs_a1, b, t2);
    let m1 = RenameV { source: a, dest: t1 };
    let m2 = RenameV { source: b, dest: t2 };
    let m3 = RenameV { source: t1, dest: b };
    let m4 = RenameV { source: t2, dest: a };
    assert(fs_a1.dom().contains(b));
    assert(sim_stage_a(rules, temps, fs, Seq::empty()) == sim_stage_a(
        seq![r2],
        seq![t2],
        fs_a1,
        Seq::<RenameV>::empty().push(m1),
    ));
    assert(sim_stage_a(rules, temps, fs, Seq::empty()) == Ok::<StageOk, ErrV>(
        (StageOk { moves: Seq::<RenameV>::empty().push(m1).push(m2), fs: fs_a2 }),
    ));
    assert(!fs_a2.dom().contains(b));
    let fs_b1 = map_move(fs_a2, t1, b);
    assert(!fs_b1.dom().contains(a));
    let fs_b2 = map_move(fs_b1, t2, a);
    let moves_a = Seq::<RenameV>::empty().push(m1).push(m2);
    assert(sim_stage_b(rules, temps, fs_a2, moves_a) == sim_stage_b(
        seq![r2],
        seq![t2],
        fs_b1,
        moves_a.push(m3),
    ));
    assert(sim_stage_b(rules, temps, fs_a2, moves_a) == Ok::<StageOk, ErrV>(
        (StageOk { moves: moves_a.push(m3).push(m4), fs: fs_b2 }),
    ));
    assert(fs_a1[b] == fs[b]);
    assert(fs_a2[t1] == fs[a]);
    assert(fs_b1[t2] == fs[b]);
    assert(fs_b2 =~= fs.insert(a, fs[b]).insert(b, fs[a]));
    assert(moves_a.push(m3).push(m4) =~= seq![m1, m2, m3, m4]);
}

/// When every rule's destination already exists, the direct pass defers every
/// rule: nothing is moved and everything is pending.
proof fn lemma_phase1_all_pending(
    rules: Seq<RenameV>,
    fs: Map<Seq<char>, u64>,
    moves: Seq<RenameV>,
    pending: Seq<RenameV>,
)
    requires
        forall|k: int| 0 <= k < rules.len() ==> fs.dom().contains(#[trigger] rules[k].dest),
    ensures
        sim_phase1(rules, fs, moves, pending) == Ok::<Phase1Ok, ErrV>(
            (Phase1Ok { moves, pending: pending + rules, fs }),
        ),
    decreases rules.len(),
{
    if rules.len() == 0 {
        assert(pending + rules =~= pending);
    } else {
        assert(fs.dom().contains(rules[0].dest));
        assert forall|k: int| 0 <= k < rules.skip(1).len() implies fs.dom().contains(
            #[trigger] rules.skip(1)[k].dest,
        ) by {
            assert(rules.skip(1)[k] == rules[k + 1]);
        }
        lemma_phase1_all_pending(rules.skip(1), fs, moves, pending.push(rules[0]));
        assert(pending.push(rules[0]) + rules.skip(1) =~= pending + rules);
    }
}

/// Running a batch a second time, after its renames have all been applied
/// (every source gone, every destination present), fails cleanly instead of
/// silently doing nothing.
pub proof fn lemma_rerun_fails(rules: Seq<RenameV>, temps: Seq<Seq<char>>, fs: Map<Seq<char>, u64>)
    requires
        rules.len() > 0,
        forall|k: int| 0 <= k < rules.len() ==> !fs.dom().contains(#[trigger] rules[k].source),
        forall|k: int| 0 <= k < rules.len() ==> fs.dom().contains(#[trigger] rules[k].dest),
    ensures
        sim_execute(rules, temps, fs) is Err,
{
    lemma_phase1_all_pending(rules, fs, Seq::empty(), Seq::empty());
    assert(Seq::<RenameV>::empty() + rules =~= rules);
    if temps_ok(temps, rules, fs) {
        assert(!fs.dom().contains(rules[0].source));
        assert(sim_stage_a(rules, temps, fs, Seq::empty()) == Err::<StageOk, ErrV>(
            (ErrV::Io { rule: rules[0] }),
        ));
    }
}

/// Some rule in `rules` names `p` as its source or destination.
pub open spec fn touches(rules: Seq<RenameV>, p: Seq<char>) -> bool {
    exists|k: int| 0 <= k < rules.len() && (rules[k].source == p || rules[k].dest == p)
}

/// Whatever the direct pass leaves pending was among its rules or already
/// pending.
proof fn lemma_phase1_pending_from(
    rules: Seq<RenameV>,
    fs: Map<Seq<char>, u64>,
    moves: Seq<RenameV>,
    pending: Seq<RenameV>,
)
    ensures
        sim_phase1(rules, fs, moves, pending) matches Ok(r) ==> forall|x: RenameV|
            r.pending.contains(x) ==> pending.contains(x) || rules.contains(x),
    decreases rules.len(),
{
    if rules.len() > 0 {
        let r0 = rules[0];
        if fs.dom().contains(r0.dest) {
            lemma_phase1_pending_from(rules.skip(1), fs, moves, pending.push(r0));
            match sim_phase1(rules, fs, moves, pending) {
                Ok(r) => {
                    assert forall|x: RenameV| r.pending.contains(x) implies pending.contains(x)
                        || rules.contains(x) by {
                        if pending.push(r0).contains(x) {
                            let k = choose|k: int|
                                0 <= k < pending.push(r0).len() && pending.push(r0)[k] == x;
                            if k < pending.len() {
                                assert(pending[k] == x);
                            } else {
                                assert(rules[0] == x);
                            }
                        } else {
                            let k = choose|k: int|
                                0 <= k < rules.skip(1).len() && rules.skip(1)[k] == x;
                            assert(rules[k + 1] == x);
                        }
                    }
                },
                Err(_) => {},
            }
        } else if fs.dom().contains(r0.source) {
            lemma_phase1_pending_from(
                rules.skip(1),
                map_move(fs, r0.source, r0.dest),
                moves.push(r0),
                pending,
            );
            match sim_phase1(rules, fs, moves, pending) {
                Ok(r) => {
                    assert forall|x: RenameV| r.pending.contains(x) implies pending.contains(x)
                        || rules.contains(x) by {
                        if !pending.contains(x) {
                            let k = choose|k: int|
                                0 <= k < rules.skip(1).len() && rules.skip(1)[k] == x;
                            assert(rules[k + 1] == x);
                        }
                    }
                },
                Err(_) => {},
            }
        }
    }
}

/// The direct pass does not create, remove or change a path that no rule
/// names.
proof fn lemma_phase1_untouched(
    rules: Seq<RenameV>,
    fs: Map<Seq<char>, u64>,
    moves: Seq<RenameV>,
    pending: Seq<RenameV>,
    p: Seq<char>,
)
    requires
        !touches(rules, p),
    ensures
        sim_phase1(rules, fs, moves, pending) matches Ok(r) ==> r.fs.dom().contains(p)
            == fs.dom().contains(p) && (fs.dom().contains(p) ==> r.fs[p] == fs[p]),
    decreases rules.len(),
{
    if rules.len() > 0 {
        let r0 = rules[0];
        assert(rules.contains(rules[0]));
        assert(r0.source != p && r0.dest != p);
        assert(!touches(rules.skip(1), p)) by {
            if touches(rules.skip(1), p) {
                let k = choose|k: int|
                    0 <= k < rules.skip(1).len() && (rules.skip(1)[k].source == p || rules.skip(
                        1,
                    )[k].dest == p);
                assert(rules[k + 1].source == p || rules[k + 1].dest == p);
            }
        }
        if fs.dom().contains(r0.dest) {
            lemma_phase1_untouched(rules.skip(1), fs, moves, pending.push(r0), p);
        } else if fs.dom().contains(r0.source) {
            lemma_phase1_untouched(
                rules.skip(1),
                map_move(fs, r0.source, r0.dest),
                moves.push(r0),
                pending,
                p,
            );
        }
    }
}

/// The first staging sweep does not create, remove or change a path that is
/// neither a pending source nor a staging path.
proof fn lemma_stage_a_untouched(
    pending: Seq<RenameV>,
    temps: Seq<Seq<char>>,
    fs: Map<Seq<char>, u64>,
    moves: Seq<RenameV>,
    p: Seq<char>,
)
    requires
        temps.len() == pending.len(),
        forall|k: int| 0 <= k < pending.len() ==> (#[trigger] pending[k]).source != p,
        forall|k: int| 0 <= k < temps.len() ==> temps[k] != p,
    ensures
        sim_stage_a(pending, temps, fs, moves) matches Ok(r) ==> r.fs.dom().contains(p)
            == fs.dom().contains(p) && (fs.dom().contains(p) ==> r.fs[p] == fs[p]),
    decreases pending.len(),
{
    if pending.len() > 0 && fs.dom().contains(pending[0].source) {
        assert(pending[0].source != p);
        assert forall|k: int| 0 <= k < pending.skip(1).len() implies (#[trigger] pending.skip(
            1,
        )[k]).source != p by {
            assert(pending.skip(1)[k] == pending[k + 1]);
        }
        assert forall|k: int| 0 <= k < temps.skip(1).len() implies temps.skip(1)[k] != p by {
            assert(temps.skip(1)[k] == temps[k + 1]);
        }
        if temps.len() > 0 {
            assert(temps[0] != p);
        }
        lemma_stage_a_untouched(
            pending.skip(1),
            temps.skip(1),
            map_move(fs, pending[0].source, temps[0]),
            moves.push(RenameV { source: pending[0].source, dest: temps[0] }),
            p,
        );
    }
}

/// The second staging sweep does not create, remove or change a path that is
/// neither a pending destination nor a staging path.
proof fn lemma_stage_b_untouched(
    pending: Seq<RenameV>,
    temps: Seq<Seq<char>>,
    fs: Map<Seq<char>, u64>,
    moves: Seq<RenameV>,
    p: Seq<char>,
)
    requires
        temps.len() == pending.len(),
        forall|k: int| 0 <= k < pending.len() ==> (#[trigger] pending[k]).dest != p,
        forall|k: int| 0 <= k < temps.len() ==> temps[k] != p,
    ensures
        sim_stage_b(pending, temps, fs, moves) matches Ok(r) ==> r.fs.dom().contains(p)
            == fs.dom().contains(p) && (fs.dom().contains(p) ==> r.fs[p] == fs[p]),
    decreases pending.len(),
{
    if pending.len() > 0 && !fs.dom().contains(pending[0].dest) {
        assert(pending[0].dest != p);
        assert forall|k: int| 0 <= k < pending.skip(1).len() implies (#[trigger] pending.skip(
            1,
        )[k]).dest != p by {
            assert(pending.skip(1)[k] == pending[k + 1]);
        }
        assert forall|k: int| 0 <= k < temps.skip(1).len() implies temps.skip(1)[k] != p by {
            assert(temps.skip(1)[k] == temps[k + 1]);
        }
        if temps.len() > 0 {
            assert(temps[0] != p);
        }
        lemma_stage_b_untouched(
            pending.skip(1),
            temps.skip(1),
            map_move(fs, temps[0], pending[0].dest),
            moves.push(RenameV { source: temps[0], dest: pending[0].dest }),
            p,
        );
    }
}

/// A batch that completes never touches an unrelated file: a path that no
/// rule names and that is no staging path exists afterwards exactly when it
/// existed before, with the same file.
pub proof fn lemma_untouched_path(
    rules: Seq<RenameV>,
    temps: Seq<Seq<char>>,
    fs: Map<Seq<char>, u64>,
    p: Seq<char>,
)
    requires
        !touches(rules, p),
        forall|k: int| 0 <= k < temps.len() ==> temps[k] != p,
    ensures
        sim_execute(rules, temps, fs) matches Ok(r) ==> r.fs.dom().contains(p) == fs.dom().contains(
            p,
        ) && (fs.dom().contains(p) ==> r.fs[p] == fs[p]),
{
    lemma_phase1_untouched(rules, fs, Seq::empty(), Seq::empty(), p);
    lemma_phase1_pending_from(rules, fs, Seq::empty(), Seq::empty());
    match sim_phase1(rules, fs, Seq::empty(), Seq::empty()) {
        Ok(p1) => {
            if p1.pending.len() > 0 && temps_ok(temps, p1.pending, p1.fs) {
                assert forall|k: int|
                    0 <= k < p1.pending.len() implies (#[trigger] p1.pending[k]).source != p
                    && p1.pending[k].dest != p by {
                    assert(p1.pending.contains(p1.pending[k]));
                    assert(rules.contains(p1.pending[k])) by {
                        assert(!Seq::<RenameV>::empty().contains(p1.pending[k]));
                    }
                    let j = choose|j: int| 0 <= j < rules.len() && rules[j] == p1.pending[k];
                    assert(!(rules[j].source == p || rules[j].dest == p));
                }
                lemma_stage_a_untouched(p1.pending, temps, p1.fs, p1.moves, p);
                match sim_stage_a(p1.pending, temps, p1.fs, p1.moves) {
                    Ok(sa) => {
                        lemma_stage_b_untouched(p1.pending, temps, sa.fs, sa.moves, p);
                    },
                    Err(_) => {},
                }
            }
        },
        Err(_) => {},
    }
}

/// What the direct pass guarantees of a consistent batch whose sources all
/// exist: a deferred rule's source still holds its original file, an applied
/// rule's destination holds the file its source held, deferred rules keep
/// pairwise distinct sources and destinations, and no deferred source sits on
/// an applied destination.
proof fn lemma_phase1_outcomes(
    rules: Seq<RenameV>,
    fs: Map<Seq<char>, u64>,
    moves: Seq<RenameV>,
    pending: Seq<RenameV>,
)
    requires
        forall|k: int| 0 <= k < rules.len() ==> fs.dom().contains((#[trigger] rules[k]).source),
        forall|k: int| 0 <= k < rules.len() ==> (#[trigger] rules[k]).source != rules[k].dest,
        forall|k1: int, k2: int|
            0 <= k1 < k2 < rules.len() ==> rules[k1].source != rules[k2].source,
        forall|k1: int, k2: int| 0 <= k1 < k2 < rules.len() ==> rules[k1].dest != rules[k2].dest,
        forall|x: RenameV| #[trigger] pending.contains(x) ==> fs.dom().contains(x.source),
        forall|x: RenameV, k: int|
            #[trigger] pending.contains(x) && 0 <= k < rules.len() ==> x.source != (
            #[trigger] rules[k]).source && x.dest != rules[k].dest,
        forall|x1: int, x2: int|
            0 <= x1 < x2 < pending.len() ==> pending[x1].source != pending[x2].source,
        forall|x1: int, x2: int|
            0 <= x1 < x2 < pending.len() ==> pending[x1].dest != pending[x2].dest,
    ensures
        sim_phase1(rules, fs, moves, pending) matches Ok(r) ==> ({
            &&& (forall|x: RenameV|
                #[trigger] r.pending.contains(x) ==> r.fs.dom().contains(x.source) && r.fs[x.source]
                    == fs[x.source])
            &&& (forall|k: int|
                0 <= k < rules.len() && !r.pending.contains(#[trigger] rules[k])
                    ==> r.fs.dom().contains(rules[k].dest) && r.fs[rules[k].dest]
                    == fs[rules[k].source])
            &&& (forall|x: RenameV, k: int|
                #[trigger] r.pending.contains(x) && 0 <= k < rules.len() && !r.pending.contains(
                    #[trigger] rules[k],
                ) ==> x.source != rules[k].dest)
            &&& (forall|x1: int, x2: int|
                0 <= x1 < x2 < r.pending.len() ==> r.pending[x1].source != r.pending[x2].source)
            &&& (forall|x1: int, x2: int|
                0 <= x1 < x2 < r.pending.len() ==> r.pending[x1].dest != r.pending[x2].dest)
            &&& (forall|x: RenameV| #[trigger] pending.contains(x) ==> r.pending.contains(x))
        }),
    decreases rules.len(),
{
    lemma_phase1_pending_from(rules, fs, moves, pending);
    if rules.len() == 0 {
    } else {
        let r0 = rules[0];
        let rest = rules.skip(1);
        assert(rules.contains(r0));
        assert forall|k: int| 0 <= k < rest.len() implies #[trigger] rest[k] == rules[k + 1] by {}
        if fs.dom().contains(r0.dest) {
            let pending2 = pending.push(r0);
            assert forall|x: RenameV| #[trigger] pending2.contains(x) implies fs.dom().contains(
                x.source,
            ) && (forall|k: int|
                0 <= k < rest.len() ==> x.source != (#[trigger] rest[k]).source && x.dest
                    != rest[k].dest) by {
                let xi = choose|xi: int| 0 <= xi < pending2.len() && pending2[xi] == x;
                if xi < pending.len() {
                    assert(pending.contains(x));
                } else {
                    assert(x == r0);
                }
            }
            assert forall|x1: int, x2: int| 0 <= x1 < x2 < pending2.len() implies pending2[x1].source
                != pending2[x2].source && pending2[x1].dest != pending2[x2].dest by {
                if x2 == pending.len() as int {
                    assert(pending.contains(pending[x1]));
                    assert(pending2[x2] == r0);
                }
            }
            lemma_phase1_outcomes(rest, fs, moves, pending2);
            match sim_phase1(rules, fs, moves, pending) {
                Ok(r) => {
                    assert(pending2[pending.len() as int] == r0);
                    assert(pending2.contains(r0));
                    assert(r.pending.contains(r0));
                    assert forall|x: RenameV| #[trigger] pending.contains(x) implies
                        r.pending.contains(x) by {
                        let i = choose|i: int| 0 <= i < pending.len() && pending[i] == x;
                        assert(pending2[i] == x);
                        assert(pending2.contains(x));
                    }
                    assert forall|k: int|
                        0 <= k < rules.len() && !r.pending.contains(#[trigger] rules[k]) implies
                        r.fs.dom().contains(rules[k].dest) && r.fs[rules[k].dest] == fs[rules[k
                        ].source] by {
                        assert(k != 0);
                        assert(rest[k - 1] == rules[k]);
                    }
                    assert forall|x: RenameV, k: int|
                        #[trigger] r.pending.contains(x) && 0 <= k < rules.len()
                            && !r.pending.contains(#[trigger] rules[k]) implies x.source != rules[
                        k].dest by {
                        assert(k != 0);
                        assert(rest[k - 1] == rules[k]);
                    }
                },
                Err(_) => {},
            }
        } else if fs.dom().contains(r0.source) {
            let fs2 = map_move(fs, r0.source, r0.dest);
            assert forall|k: int| 0 <= k < rest.len() implies fs2.dom().contains(
                (#[trigger] rest[k]).source,
            ) by {
                assert(fs.dom().contains(rules[k + 1].source));
                assert(rules[k + 1].source != r0.source);
                assert(rules[k + 1].source != r0.dest);
            }
            assert forall|x: RenameV| #[trigger] pending.contains(x) implies fs2.dom().contains(
                x.source,
            ) && fs2[x.source] == fs[x.source] by {
                assert(x.source != r0.source);
                assert(x.source != r0.dest) by {
                    assert(fs.dom().contains(x.source));
                }
            }
            lemma_phase1_outcomes(rest, fs2, moves.push(r0), pending);
            lemma_phase1_pending_from(rest, fs2, moves.push(r0), pending);
            assert(!touches(rest, r0.dest)) by {
                if touches(rest, r0.dest) {
                    let k = choose|k: int|
                        0 <= k < rest.len() && (rest[k].source == r0.dest || rest[k].dest
                            == r0.dest);
                    assert(rules[k + 1].source != r0.dest) by {
                        assert(fs.dom().contains(rules[k + 1].source));
                    }
                    assert(rules[k + 1].dest != r0.dest);
                }
            }
            lemma_phase1_untouched(rest, fs2, moves.push(r0), pending, r0.dest);
            match sim_phase1(rules, fs, moves, pending) {
                Ok(r) => {
                    assert(!r.pending.contains(r0)) by {
                        if r.pending.contains(r0) {
                            if pending.contains(r0) {
                                assert(r0.source != rules[0].source);
                            } else {
                                let k = choose|k: int| 0 <= k < rest.len() && rest[k] == r0;
                                assert(rules[k + 1].source == rules[0].source);
                            }
                        }
                    }
                    assert forall|x: RenameV| #[trigger] r.pending.contains(x) implies
                        r.fs.dom().contains(x.source) && r.fs[x.source] == fs[x.source] by {
                        assert(r.fs[x.source] == fs2[x.source]);
                        if pending.contains(x) {
                        } else {
                            let k = choose|k: int| 0 <= k < rest.len() && rest[k] == x;
                            assert(x.source == rules[k + 1].source);
                            assert(fs.dom().contains(x.source));
                            assert(x.source != r0.source && x.source != r0.dest);
                        }
                    }
                    assert forall|k: int|
                        0 <= k < rules.len() && !r.pending.contains(#[trigger] rules[k]) implies
                        r.fs.dom().contains(rules[k].dest) && r.fs[rules[k].dest] == fs[rules[k
                        ].source] by {
                        if k == 0 {
                            assert(fs2.dom().contains(r0.dest) && fs2[r0.dest] == fs[r0.source]);
                            assert(r.fs.dom().contains(r0.dest) && r.fs[r0.dest] == fs2[r0.dest]);
                        } else {
                            assert(rest[k - 1] == rules[k]);
                            assert(fs2[rules[k].source] == fs[rules[k].source]) by {
                                assert(rules[k].source != r0.source);
                                assert(fs.dom().contains(rules[k].source));
                            }
                        }
                    }
                    assert forall|x: RenameV, k: int|
                        #[trigger] r.pending.contains(x) && 0 <= k < rules.len()
                            && !r.pending.contains(#[trigger] rules[k]) implies x.source != rules[
                        k].dest by {
                        assert(fs.dom().contains(x.source)) by {
                            if !pending.contains(x) {
                                let xk = choose|xk: int| 0 <= xk < rest.len() && rest[xk] == x;
                                assert(x.source == rules[xk + 1].source);
                            }
                        }
                        if k == 0 {
                            assert(x.source != r0.dest);
                        } else {
                            assert(rest[k - 1] == rules[k]);
                        }
                    }
                },
                Err(_) => {},
            }
        }
    }
}

/// After the first staging sweep, each staging path holds the file its rule's
/// source held.
proof fn lemma_stage_a_moves(
    pending: Seq<RenameV>,
    temps: Seq<Seq<char>>,
    fs: Map<Seq<char>, u64>,
    moves: Seq<RenameV>,
)
    requires
        temps.len() == pending.len(),
        forall|k: int| 0 <= k < pending.len() ==> fs.dom().contains((#[trigger] pending[k]).source),
        forall|k1: int, k2: int|
            0 <= k1 < k2 < pending.len() ==> pending[k1].source != pending[k2].source,
        forall|i: int, j: int| 0 <= i < j < temps.len() ==> temps[i] != temps[j],
        forall|i: int| 0 <= i < temps.len() ==> !fs.dom().contains(#[trigger] temps[i]),
        forall|i: int, k: int|
            0 <= i < temps.len() && 0 <= k < pending.len() ==> temps[i] != pending[k].source,
    ensures
        sim_stage_a(pending, temps, fs, moves) matches Ok(r) ==> (forall|k: int|
            0 <= k < pending.len() ==> r.fs.dom().contains(#[trigger] temps[k]) && r.fs[temps[k]]
                == fs[pending[k].source]),
    decreases pending.len(),
{
    if pending.len() > 0 && fs.dom().contains(pending[0].source) {
        let s0 = pending[0].source;
        let t0 = temps[0];
        let fs2 = map_move(fs, s0, t0);
        let prest = pending.skip(1);
        let trest = temps.skip(1);
        assert forall|k: int| 0 <= k < prest.len() implies #[trigger] prest[k] == pending[k + 1]
            && trest[k] == temps[k + 1] by {}
        assert forall|k: int| 0 <= k < prest.len() implies fs2.dom().contains(
            (#[trigger] prest[k]).source,
        ) && fs2[prest[k].source] == fs[prest[k].source] by {
            assert(pending[k + 1].source != s0);
            assert(temps[0] != pending[k + 1].source);
        }
        assert forall|i: int| 0 <= i < trest.len() implies !fs2.dom().contains(
            #[trigger] trest[i],
        ) by {
            assert(temps[i + 1] != t0);
            assert(!fs.dom().contains(temps[i + 1]));
        }
        lemma_stage_a_moves(
            prest,
            trest,
            fs2,
            moves.push(RenameV { source: s0, dest: t0 }),
        );
        assert forall|k: int| 0 <= k < prest.len() implies (#[trigger] prest[k]).source != t0
            && trest[k] != t0 by {
            assert(!fs.dom().contains(t0));
            assert(fs.dom().contains(pending[k + 1].source));
        }
        lemma_stage_a_untouched(
            prest,
            trest,
            fs2,
            moves.push(RenameV { source: s0, dest: t0 }),
            t0,
        );
        match sim_stage_a(pending, temps, fs, moves) {
            Ok(r) => {
                assert forall|k: int| 0 <= k < pending.len() implies r.fs.dom().contains(
                    #[trigger] temps[k],
                ) && r.fs[temps[k]] == fs[pending[k].source] by {
                    if k == 0 {
                        assert(fs2.dom().contains(t0) && fs2[t0] == fs[s0]);
                    } else {
                        assert(prest[k - 1] == pending[k] && trest[k - 1] == temps[k]);
                        assert(fs2[pending[k].source] == fs[pending[k].source]);
                    }
                }
            },
            Err(_) => {},
        }
    }
}

/// After the second staging sweep, each rule's destination holds the file its
/// staging path held.
proof fn lemma_stage_b_moves(
    pending: Seq<RenameV>,
    temps: Seq<Seq<char>>,
    fs: Map<Seq<char>, u64>,
    moves: Seq<RenameV>,
)
    requires
        temps.len() == pending.len(),
        forall|k: int| 0 <= k < temps.len() ==> fs.dom().contains(#[trigger] temps[k]),
        forall|k1: int, k2: int|
            0 <= k1 < k2 < pending.len() ==> pending[k1].dest != pending[k2].dest,
        forall|i: int, j: int| 0 <= i < j < temps.len() ==> temps[i] != temps[j],
        forall|i: int, k: int|
            0 <= i < temps.len() && 0 <= k < pending.len() ==> temps[i] != pending[k].dest,
    ensures
        sim_stage_b(pending, temps, fs, moves) matches Ok(r) ==> (forall|k: int|
            0 <= k < pending.len() ==> r.fs.dom().contains((#[trigger] pending[k]).dest)
                && r.fs[pending[k].dest] == fs[temps[k]]),
    decreases pending.len(),
{
    if pending.len() > 0 && !fs.dom().contains(pending[0].dest) {
        let d0 = pending[0].dest;
        let t0 = temps[0];
        let fs2 = map_move(fs, t0, d0);
        let prest = pending.skip(1);
        let trest = temps.skip(1);
        assert forall|k: int| 0 <= k < prest.len() implies #[trigger] prest[k] == pending[k + 1]
            && trest[k] == temps[k + 1] by {}
        assert forall|k: int| 0 <= k < trest.len() implies fs2.dom().contains(
            #[trigger] trest[k],
        ) && fs2[trest[k]] == fs[trest[k]] by {
            assert(temps[k + 1] != t0);
            assert(temps[k + 1] != d0) by {
                assert(fs.dom().contains(temps[k + 1]));
            }
        }
        lemma_stage_b_moves(
            prest,
            trest,
            fs2,
            moves.push(RenameV { source: t0, dest: d0 }),
        );
        assert forall|k: int| 0 <= k < prest.len() implies (#[trigger] prest[k]).dest != d0
            && trest[k] != d0 by {
            assert(pending[k + 1].dest != d0);
            assert(fs.dom().contains(temps[k + 1]));
        }
        lemma_stage_b_untouched(
            prest,
            trest,
            fs2,
            moves.push(RenameV { source: t0, dest: d0 }),
            d0,
        );
        match sim_stage_b(pending, temps, fs, moves) {
            Ok(r) => {
                assert forall|k: int| 0 <= k < pending.len() implies r.fs.dom().contains(
                    (#[trigger] pending[k]).dest,
                ) && r.fs[pending[k].dest] == fs[temps[k]] by {
                    if k == 0 {
                        assert(fs2.dom().contains(d0) && fs2[d0] == fs[t0]);
                    } else {
                        assert(prest[k - 1] == pending[k] && trest[k - 1] == temps[k]);
                        assert(fs2[temps[k]] == fs[temps[k]]);
                    }
                }
            },
            Err(_) => {},
        }
    }
}

/// The second staging sweep leaves no staging path occupied.
proof fn lemma_stage_b_clears_temps(
    pending: Seq<RenameV>,
    temps: Seq<Seq<char>>,
    fs: Map<Seq<char>, u64>,
    moves: Seq<RenameV>,
)
    requires
        temps.len() == pending.len(),
        forall|i: int, j: int| 0 <= i < j < temps.len() ==> temps[i] != temps[j],
        forall|i: int, k: int|
            0 <= i < temps.len() && 0 <= k < pending.len() ==> temps[i] != pending[k].dest,
    ensures
        sim_stage_b(pending, temps, fs, moves) matches Ok(r) ==> (forall|i: int|
            0 <= i < temps.len() ==> !r.fs.dom().contains(#[trigger] temps[i])),
    decreases pending.len(),
{
    if pending.len() > 0 && !fs.dom().contains(pending[0].dest) {
        let d0 = pending[0].dest;
        let t0 = temps[0];
        let fs2 = map_move(fs, t0, d0);
        let prest = pending.skip(1);
        let trest = temps.skip(1);
        assert forall|k: int| 0 <= k < prest.len() implies #[trigger] prest[k] == pending[k + 1]
            && trest[k] == temps[k + 1] by {}
        lemma_stage_b_clears_temps(
            prest,
            trest,
            fs2,
            moves.push(RenameV { source: t0, dest: d0 }),
        );
        assert forall|k: int| 0 <= k < prest.len() implies (#[trigger] prest[k]).dest != t0
            && trest[k] != t0 by {
            assert(temps[0] != pending[k + 1].dest);
            assert(temps[0] != temps[k + 1]);
        }
        lemma_stage_b_untouched(
            prest,
            trest,
            fs2,
            moves.push(RenameV { source: t0, dest: d0 }),
            t0,
        );
        match sim_stage_b(pending, temps, fs, moves) {
            Ok(r) => {
                assert forall|i: int| 0 <= i < temps.len() implies !r.fs.dom().contains(
                    #[trigger] temps[i],
                ) by {
                    if i == 0 {
                        assert(!fs2.dom().contains(t0));
                    } else {
                        assert(trest[i - 1] == temps[i]);
                    }
                }
            },
            Err(_) => {},
        }
    }
}

/// A batch that completes leaves no file under a staging path: every staging
/// name that was fresh and outside the batch is unoccupied afterwards.
pub proof fn lemma_no_leftover_staging(
    rules: Seq<RenameV>,
    temps: Seq<Seq<char>>,
    fs: Map<Seq<char>, u64>,
)
    requires
        forall|i: int| 0 <= i < temps.len() ==> !fs.dom().contains(#[trigger] temps[i]),
        forall|i: int| 0 <= i < temps.len() ==> !touches(rules, #[trigger] temps[i]),
        forall|i: int, j: int| 0 <= i < j < temps.len() ==> temps[i] != temps[j],
    ensures
        sim_execute(rules, temps, fs) matches Ok(r) ==> (forall|i: int|
            0 <= i < temps.len() ==> !r.fs.dom().contains(#[trigger] temps[i])),
{
    lemma_phase1_pending_from(rules, fs, Seq::empty(), Seq::empty());
    match sim_phase1(rules, fs, Seq::empty(), Seq::empty()) {
        Ok(p1) => {
            if p1.pending.len() == 0 {
                assert forall|i: int| 0 <= i < temps.len() implies !p1.fs.dom().contains(
                    #[trigger] temps[i],
                ) by {
                    lemma_phase1_untouched(rules, fs, Seq::empty(), Seq::empty(), temps[i]);
                }
            } else if temps_ok(temps, p1.pending, p1.fs) {
                match sim_stage_a(p1.pending, temps, p1.fs, p1.moves) {
                    Ok(sa) => {
                        assert forall|i: int, k: int|
                            0 <= i < temps.len() && 0 <= k < p1.pending.len() implies #[trigger] temps[i]
                            != #[trigger] p1.pending[k].dest by {}
                        lemma_stage_b_clears_temps(p1.pending, temps, sa.fs, sa.moves);
                    },
                    Err(_) => {},
                }
            }
        },
        Err(_) => {},
    }
}

/// The batch guarantee: when a consistent batch whose sources all exist
/// completes, the file that was at each rule's source is afterwards at that
/// rule's destination — nothing is lost, whether the rule was applied
/// directly or went through the staged sweeps.
pub proof fn lemma_batch_places_files(
    rules: Seq<RenameV>,
    temps: Seq<Seq<char>>,
    fs: Map<Seq<char>, u64>,
)
    requires
        forall|k: int| 0 <= k < rules.len() ==> fs.dom().contains((#[trigger] rules[k]).source),
        forall|k: int| 0 <= k < rules.len() ==> (#[trigger] rules[k]).source != rules[k].dest,
        forall|k1: int, k2: int|
            0 <= k1 < k2 < rules.len() ==> rules[k1].source != rules[k2].source,
        forall|k1: int, k2: int| 0 <= k1 < k2 < rules.len() ==> rules[k1].dest != rules[k2].dest,
    ensures
        sim_execute(rules, temps, fs) matches Ok(r) ==> (forall|k: int|
            0 <= k < rules.len() ==> r.fs.dom().contains((#[trigger] rules[k]).dest)
                && r.fs[rules[k].dest] == fs[rules[k].source]),
{
    lemma_phase1_outcomes(rules, fs, Seq::empty(), Seq::empty());
    lemma_phase1_pending_from(rules, fs, Seq::empty(), Seq::empty());
    match sim_phase1(rules, fs, Seq::empty(), Seq::empty()) {
        Ok(p1) => {
            if p1.pending.len() == 0 {
                assert forall|k: int| 0 <= k < rules.len() implies !p1.pending.contains(
                    #[trigger] rules[k],
                ) by {}
            } else if temps_ok(temps, p1.pending, p1.fs) {
                assert forall|k: int| 0 <= k < p1.pending.len() implies rules.contains(
                    #[trigger] p1.pending[k],
                ) by {
                    assert(p1.pending.contains(p1.pending[k]));
                    assert(!Seq::<RenameV>::empty().contains(p1.pending[k]));
                }
                assert forall|k: int| 0 <= k < p1.pending.len() implies p1.fs.dom().contains(
                    (#[trigger] p1.pending[k]).source,
                ) && p1.fs[p1.pending[k].source] == fs[p1.pending[k].source] by {
                    assert(p1.pending.contains(p1.pending[k]));
                }
                lemma_stage_a_moves(p1.pending, temps, p1.fs, p1.moves);
                match sim_stage_a(p1.pending, temps, p1.fs, p1.moves) {
                    Ok(sa) => {
                        assert forall|k: int| 0 <= k < temps.len() implies sa.fs.dom().contains(
                            #[trigger] temps[k],
                        ) by {}
                        lemma_stage_b_moves(p1.pending, temps, sa.fs, sa.moves);
                        match sim_stage_b(p1.pending, temps, sa.fs, sa.moves) {
                            Ok(sb) => {
                                assert forall|k: int|
                                    0 <= k < rules.len() implies sb.fs.dom().contains(
                                    (#[trigger] rules[k]).dest,
                                ) && sb.fs[rules[k].dest] == fs[rules[k].source] by {
                                    if p1.pending.contains(rules[k]) {
                                        let i = choose|i: int|
                                            0 <= i < p1.pending.len() && p1.pending[i] == rules[k];
                                        assert(sb.fs[p1.pending[i].dest] == sa.fs[temps[i]]);
                                        assert(sa.fs[temps[i]] == p1.fs[p1.pending[i].source]);
                                        assert(p1.fs[p1.pending[i].source] == fs[p1.pending[
                                        i].source]);
                                    } else {
                                        let dk = rules[k].dest;
                                        assert(p1.fs.dom().contains(dk) && p1.fs[dk] == fs[rules[
                                        k].source]);
                                        assert forall|j: int|
                                            0 <= j < p1.pending.len() implies (
                                            #[trigger] p1.pending[j]).source != dk && p1.pending[
                                        j].dest != dk && temps[j] != dk by {
                                            assert(p1.pending.contains(p1.pending[j]));
                                            let rj = choose|rj: int|
                                                0 <= rj < rules.len() && rules[rj] == p1.pending[j];
                                            assert(rj != k);
                                            assert(rules[rj].dest != dk);
                                            assert(!p1.fs.dom().contains(temps[j]));
                                        }
                                        lemma_stage_a_untouched(
                                            p1.pending,
                                            temps,
                                            p1.fs,
                                            p1.moves,
                                            dk,
                                        );
                                        lemma_stage_b_untouched(
                                            p1.pending,
                                            temps,
                                            sa.fs,
                                            sa.moves,
                                            dk,
                                        );
                                    }
                                }
                            },
                            Err(_) => {},
                        }
                    },
                    Err(_) => {},
                }
            }
        },
        Err(_) => {},
    }
}

/// Where a path can exist after the direct pass: it existed before, or it is
/// an applied rule's destination; and an applied rule's source is gone unless
/// another applied rule moved a file onto it.
proof fn lemma_phase1_dom(
    rules: Seq<RenameV>,
    fs: Map<Seq<char>, u64>,
    moves: Seq<RenameV>,
    pending: Seq<RenameV>,
)
    requires
        forall|k: int| 0 <= k < rules.len() ==> fs.dom().contains((#[trigger] rules[k]).source),
        forall|k: int| 0 <= k < rules.len() ==> (#[trigger] rules[k]).source != rules[k].dest,
        forall|k1: int, k2: int|
            0 <= k1 < k2 < rules.len() ==> rules[k1].source != rules[k2].source,
        forall|x: RenameV| #[trigger] pending.contains(x) ==> fs.dom().contains(x.source),
        forall|x: RenameV, k: int|
            #[trigger] pending.contains(x) && 0 <= k < rules.len() ==> x.source != (
            #[trigger] rules[k]).source,
    ensures
        sim_phase1(rules, fs, moves, pending) matches Ok(r) ==> ({
            &&& (forall|p: Seq<char>|
                #[trigger] r.fs.dom().contains(p) ==> fs.dom().contains(p) || exists|k: int|
                    0 <= k < rules.len() && !r.pending.contains(#[trigger] rules[k]) && rules[
                    k].dest == p)
            &&& (forall|k: int|
                0 <= k < rules.len() && !r.pending.contains(#[trigger] rules[k])
                    ==> !r.fs.dom().contains(rules[k].source) || exists|m: int|
                    0 <= m < rules.len() && !r.pending.contains(#[trigger] rules[m]) && rules[
                    m].dest == rules[k].source)
        }),
    decreases rules.len(),
{
    if rules.len() == 0 {
    } else {
        let r0 = rules[0];
        let rest = rules.skip(1);
        assert(rules.contains(r0));
        assert forall|k: int| 0 <= k < rest.len() implies #[trigger] rest[k] == rules[k + 1] by {}
        if fs.dom().contains(r0.dest) {
            let pending2 = pending.push(r0);
            assert forall|x: RenameV| #[trigger] pending2.contains(x) implies fs.dom().contains(
                x.source,
            ) && (forall|k: int|
                0 <= k < rest.len() ==> x.source != (#[trigger] rest[k]).source) by {
                let xi = choose|xi: int| 0 <= xi < pending2.len() && pending2[xi] == x;
                if xi < pending.len() {
                    assert(pending.contains(x));
                } else {
                    assert(x == r0);
                }
            }
            lemma_phase1_dom(rest, fs, moves, pending2);
            lemma_phase1_pending_from(rest, fs, moves, pending2);
            match sim_phase1(rules, fs, moves, pending) {
                Ok(r) => {
                    assert(pending2[pending.len() as int] == r0);
                    assert(pending2.contains(r0));
                    assert(r.pending.contains(r0)) by {
                        lemma_phase1_keeps_pending(rest, fs, moves, pending2);
                    }
                    assert forall|p: Seq<char>| #[trigger] r.fs.dom().contains(p) implies
                        fs.dom().contains(p) || exists|k: int|
                        0 <= k < rules.len() && !r.pending.contains(#[trigger] rules[k]) && rules[
                        k].dest == p by {
                        if !fs.dom().contains(p) {
                            let k = choose|k: int|
                                0 <= k < rest.len() && !r.pending.contains(rest[k]) && rest[k].dest
                                    == p;
                            assert(rules[k + 1] == rest[k]);
                            assert(!r.pending.contains(rules[k + 1]) && rules[k + 1].dest == p);
                        }
                    }
                    assert forall|k: int|
                        0 <= k < rules.len() && !r.pending.contains(#[trigger] rules[k]) implies
                        !r.fs.dom().contains(rules[k].source) || exists|m: int|
                        0 <= m < rules.len() && !r.pending.contains(#[trigger] rules[m]) && rules[
                        m].dest == rules[k].source by {
                        assert(k != 0);
                        assert(rest[k - 1] == rules[k]);
                        if r.fs.dom().contains(rules[k].source) {
                            let m = choose|m: int|
                                0 <= m < rest.len() && !r.pending.contains(rest[m]) && rest[m].dest
                                    == rest[k - 1].source;
                            assert(rules[m + 1] == rest[m]);
                            assert(!r.pending.contains(rules[m + 1]) && rules[m + 1].dest == rules[
                            k].source);
                        }
                    }
                },
                Err(_) => {},
            }
        } else if fs.dom().contains(r0.source) {
            let fs2 = map_move(fs, r0.source, r0.dest);
            assert forall|k: int| 0 <= k < rest.len() implies fs2.dom().contains(
                (#[trigger] rest[k]).source,
            ) by {
                assert(fs.dom().contains(rules[k + 1].source));
                assert(rules[k + 1].source != r0.source);
            }
            assert forall|x: RenameV| #[trigger] pending.contains(x) implies fs2.dom().contains(
                x.source,
            ) by {
                assert(x.source != r0.source);
                assert(fs.dom().contains(x.source));
            }
            lemma_phase1_dom(rest, fs2, moves.push(r0), pending);
            lemma_phase1_pending_from(rest, fs2, moves.push(r0), pending);
            match sim_phase1(rules, fs, moves, pending) {
                Ok(r) => {
                    assert(!r.pending.contains(r0)) by {
                        if r.pending.contains(r0) {
                            if pending.contains(r0) {
                                assert(r0.source != rules[0].source);
                            } else {
                                let k = choose|k: int| 0 <= k < rest.len() && rest[k] == r0;
                                assert(rules[k + 1].source == rules[0].source);
                            }
                        }
                    }
                    assert forall|p: Seq<char>| #[trigger] r.fs.dom().contains(p) implies
                        fs.dom().contains(p) || exists|k: int|
                        0 <= k < rules.len() && !r.pending.contains(#[trigger] rules[k]) && rules[
                        k].dest == p by {
                        if !fs.dom().contains(p) {
                            if fs2.dom().contains(p) {
                                assert(p == r0.dest);
                                assert(!r.pending.contains(rules[0]) && rules[0].dest == p);
                            } else {
                                let k = choose|k: int|
                                    0 <= k < rest.len() && !r.pending.contains(rest[k]) && rest[
                                    k].dest == p;
                                assert(rules[k + 1] == rest[k]);
                                assert(!r.pending.contains(rules[k + 1]) && rules[k + 1].dest == p);
                            }
                        }
                    }
                    assert forall|k: int|
                        0 <= k < rules.len() && !r.pending.contains(#[trigger] rules[k]) implies
                        !r.fs.dom().contains(rules[k].source) || exists|m: int|
                        0 <= m < rules.len() && !r.pending.contains(#[trigger] rules[m]) && rules[
                        m].dest == rules[k].source by {
                        if r.fs.dom().contains(rules[k].source) {
                            if k == 0 {
                                // the head rule's source was vacated; if it is occupied
                                // again, an applied rule moved a file onto it
                                assert(!fs2.dom().contains(r0.source));
                                let m = choose|m: int|
                                    0 <= m < rest.len() && !r.pending.contains(rest[m]) && rest[
                                    m].dest == r0.source;
                                assert(rules[m + 1] == rest[m]);
                                assert(!r.pending.contains(rules[m + 1]) && rules[m + 1].dest
                                    == rules[0].source);
                            } else {
                                assert(rest[k - 1] == rules[k]);
                                if !fs2.dom().contains(rules[k].source) {
                                    assert(fs.dom().contains(rules[k].source));
                                    assert(rules[k].source == r0.source);
                                    assert(false);
                                } else {
                                    let m = choose|m: int|
                                        0 <= m < rest.len() && !r.pending.contains(rest[m]) && rest[
                                        m].dest == rest[k - 1].source;
                                    assert(rules[m + 1] == rest[m]);
                                    assert(!r.pending.contains(rules[m + 1]) && rules[m + 1].dest
                                        == rules[k].source);
                                }
                            }
                        }
                    }
                },
                Err(_) => {},
            }
        }
    }
}

/// Rules already pending stay pending through the direct pass.
proof fn lemma_phase1_keeps_pending(
    rules: Seq<RenameV>,
    fs: Map<Seq<char>, u64>,
    moves: Seq<RenameV>,
    pending: Seq<RenameV>,
)
    ensures
        sim_phase1(rules, fs, moves, pending) matches Ok(r) ==> forall|x: RenameV|
            #[trigger] pending.contains(x) ==> r.pending.contains(x),
    decreases rules.len(),
{
    if rules.len() > 0 {
        let r0 = rules[0];
        if fs.dom().contains(r0.dest) {
            lemma_phase1_keeps_pending(rules.skip(1), fs, moves, pending.push(r0));
            match sim_phase1(rules, fs, moves, pending) {
                Ok(r) => {
                    assert forall|x: RenameV| #[trigger] pending.contains(x) implies
                        r.pending.contains(x) by {
                        let i = choose|i: int| 0 <= i < pending.len() && pending[i] == x;
                        assert(pending.push(r0)[i] == x);
                        assert(pending.push(r0).contains(x));
                    }
                },
                Err(_) => {},
            }
        } else if fs.dom().contains(r0.source) {
            lemma_phase1_keeps_pending(
                rules.skip(1),
                map_move(fs, r0.source, r0.dest),
                moves.push(r0),
                pending,
            );
        }
    }
}

/// The direct pass cannot fail when every rule's source exists.
proof fn lemma_phase1_total(
    rules: Seq<RenameV>,
    fs: Map<Seq<char>, u64>,
    moves: Seq<RenameV>,
    pending: Seq<RenameV>,
)
    requires
        forall|k: int| 0 <= k < rules.len() ==> fs.dom().contains((#[trigger] rules[k]).source),
        forall|k1: int, k2: int|
            0 <= k1 < k2 < rules.len() ==> rules[k1].source != rules[k2].source,
    ensures
        sim_phase1(rules, fs, moves, pending) is Ok,
    decreases rules.len(),
{
    if rules.len() > 0 {
        let r0 = rules[0];
        let rest = rules.skip(1);
        assert forall|k: int| 0 <= k < rest.len() implies #[trigger] rest[k] == rules[k + 1] by {}
        if fs.dom().contains(r0.dest) {
            lemma_phase1_total(rest, fs, moves, pending.push(r0));
        } else {
            assert(fs.dom().contains(r0.source));
            let fs2 = map_move(fs, r0.source, r0.dest);
            assert forall|k: int| 0 <= k < rest.len() implies fs2.dom().contains(
                (#[trigger] rest[k]).source,
            ) by {
                assert(fs.dom().contains(rules[k + 1].source));
                assert(rules[k + 1].source != r0.source);
            }
            lemma_phase1_total(rest, fs2, moves.push(r0), pending);
        }
    }
}

/// The first staging sweep cannot fail when every pending source exists and
/// the staging paths are apart from the sources.
proof fn lemma_stage_a_total(
    pending: Seq<RenameV>,
    temps: Seq<Seq<char>>,
    fs: Map<Seq<char>, u64>,
    moves: Seq<RenameV>,
)
    requires
        temps.len() == pending.len(),
        forall|k: int| 0 <= k < pending.len() ==> fs.dom().contains((#[trigger] pending[k]).source),
        forall|k1: int, k2: int|
            0 <= k1 < k2 < pending.len() ==> pending[k1].source != pending[k2].source,
        forall|i: int, k: int|
            0 <= i < temps.len() && 0 <= k < pending.len() ==> temps[i] != pending[k].source,
    ensures
        sim_stage_a(pending, temps, fs, moves) is Ok,
    decreases pending.len(),
{
    if pending.len() > 0 {
        assert(fs.dom().contains(pending[0].source));
        let fs2 = map_move(fs, pending[0].source, temps[0]);
        let prest = pending.skip(1);
        let trest = temps.skip(1);
        assert forall|k: int| 0 <= k < prest.len() implies #[trigger] prest[k] == pending[k + 1]
            && trest[k] == temps[k + 1] by {}
        assert forall|k: int| 0 <= k < prest.len() implies fs2.dom().contains(
            (#[trigger] prest[k]).source,
        ) by {
            assert(fs.dom().contains(pending[k + 1].source));
            assert(pending[k + 1].source != pending[0].source);
        }
        lemma_stage_a_total(
            prest,
            trest,
            fs2,
            moves.push(RenameV { source: pending[0].source, dest: temps[0] }),
        );
    }
}

/// The second staging sweep cannot fail when no pending destination is
/// occupied when the sweep starts.
proof fn lemma_stage_b_total(
    pending: Seq<RenameV>,
    temps: Seq<Seq<char>>,
    fs: Map<Seq<char>, u64>,
    moves: Seq<RenameV>,
)
    requires
        temps.len() == pending.len(),
        forall|k: int| 0 <= k < pending.len() ==> !fs.dom().contains((#[trigger] pending[k]).dest),
        forall|k1: int, k2: int|
            0 <= k1 < k2 < pending.len() ==> pending[k1].dest != pending[k2].dest,
    ensures
        sim_stage_b(pending, temps, fs, moves) is Ok,
    decreases pending.len(),
{
    if pending.len() > 0 {
        assert(!fs.dom().contains(pending[0].dest));
        let fs2 = map_move(fs, temps[0], pending[0].dest);
        let prest = pending.skip(1);
        let trest = temps.skip(1);
        assert forall|k: int| 0 <= k < prest.len() implies #[trigger] prest[k] == pending[k + 1]
            && trest[k] == temps[k + 1] by {}
        assert forall|k: int| 0 <= k < prest.len() implies !fs2.dom().contains(
            (#[trigger] prest[k]).dest,
        ) by {
            assert(!fs.dom().contains(pending[k + 1].dest));
            assert(pending[k + 1].dest != pending[0].dest);
        }
        lemma_stage_b_total(
            prest,
            trest,
            fs2,
            moves.push(RenameV { source: temps[0], dest: pending[0].dest }),
        );
    }
}

/// When success is owed: a consistent batch whose sources all exist, in which
/// every occupied destination is vacated by the batch itself (it is some
/// rule's source), and which is given usable staging paths for whatever the
/// direct pass defers, always completes.
pub proof fn lemma_success_owed(
    rules: Seq<RenameV>,
    temps: Seq<Seq<char>>,
    fs: Map<Seq<char>, u64>,
)
    requires
        forall|k: int| 0 <= k < rules.len() ==> fs.dom().contains((#[trigger] rules[k]).source),
        forall|k: int| 0 <= k < rules.len() ==> (#[trigger] rules[k]).source != rules[k].dest,
        forall|k1: int, k2: int|
            0 <= k1 < k2 < rules.len() ==> rules[k1].source != rules[k2].source,
        forall|k1: int, k2: int| 0 <= k1 < k2 < rules.len() ==> rules[k1].dest != rules[k2].dest,
        forall|k: int|
            0 <= k < rules.len() && fs.dom().contains((#[trigger] rules[k]).dest) ==> exists|m: int|
                0 <= m < rules.len() && (#[trigger] rules[m]).source == rules[k].dest,
        sim_phase1(rules, fs, Seq::empty(), Seq::empty()) matches Ok(p) ==> (p.pending.len() == 0
            || temps_ok(temps, p.pending, p.fs)),
    ensures
        sim_execute(rules, temps, fs) is Ok,
{
    lemma_phase1_total(rules, fs, Seq::empty(), Seq::empty());
    lemma_phase1_outcomes(rules, fs, Seq::empty(), Seq::empty());
    lemma_phase1_dom(rules, fs, Seq::empty(), Seq::empty());
    lemma_phase1_pending_from(rules, fs, Seq::empty(), Seq::empty());
    match sim_phase1(rules, fs, Seq::empty(), Seq::empty()) {
        Ok(p1) => {
            if p1.pending.len() > 0 {
                assert forall|k: int| 0 <= k < p1.pending.len() implies rules.contains(
                    #[trigger] p1.pending[k],
                ) by {
                    assert(p1.pending.contains(p1.pending[k]));
                    assert(!Seq::<RenameV>::empty().contains(p1.pending[k]));
                }
                assert forall|k: int| 0 <= k < p1.pending.len() implies p1.fs.dom().contains(
                    (#[trigger] p1.pending[k]).source,
                ) by {
                    assert(p1.pending.contains(p1.pending[k]));
                }
                lemma_stage_a_total(p1.pending, temps, p1.fs, p1.moves);
                match sim_stage_a(p1.pending, temps, p1.fs, p1.moves) {
                    Ok(sa) => {
                        // no pending destination is occupied once every pending
                        // source has moved to its staging path
                        assert forall|k: int|
                            0 <= k < p1.pending.len() implies !sa.fs.dom().contains(
                            (#[trigger] p1.pending[k]).dest,
                        ) by {
                            let x = p1.pending[k];
                            assert(p1.pending.contains(x));
                            let xj = choose|xj: int|
                                0 <= xj < rules.len() && rules[xj] == p1.pending[k];
                            if sa.fs.dom().contains(x.dest) {
                                lemma_stage_a_only_adds_temps(
                                    p1.pending,
                                    temps,
                                    p1.fs,
                                    p1.moves,
                                    x.dest,
                                );
                                // the destination is no staging path
                                assert(forall|i: int|
                                    0 <= i < temps.len() ==> temps[i] != x.dest);
                                assert(p1.fs.dom().contains(x.dest));
                                // so it was occupied after the direct pass; then it
                                // was occupied from the start, since applied
                                // destinations are distinct from it
                                assert(fs.dom().contains(x.dest)) by {
                                    if !fs.dom().contains(x.dest) {
                                        let ak = choose|ak: int|
                                            0 <= ak < rules.len() && !p1.pending.contains(
                                                rules[ak],
                                            ) && rules[ak].dest == x.dest;
                                        assert(rules[ak] != rules[xj]);
                                        assert(ak != xj);
                                        assert(rules[ak].dest != rules[xj].dest);
                                    }
                                }
                                // an occupied destination is some rule's source
                                let m = choose|m: int|
                                    0 <= m < rules.len() && rules[m].source == rules[xj].dest;
                                // that rule cannot have been applied: its source
                                // would be gone or covered by an applied destination
                                assert(p1.pending.contains(rules[m])) by {
                                    if !p1.pending.contains(rules[m]) {
                                        if !p1.fs.dom().contains(rules[m].source) {
                                            assert(false);
                                        } else {
                                            let m2 = choose|m2: int|
                                                0 <= m2 < rules.len() && !p1.pending.contains(
                                                    rules[m2],
                                                ) && rules[m2].dest == rules[m].source;
                                            assert(rules[m2] != rules[xj]);
                                            assert(m2 != xj);
                                            assert(rules[m2].dest != rules[xj].dest);
                                            assert(false);
                                        }
                                    }
                                }
                                // a pending source was moved away by the sweep
                                let mi = choose|mi: int|
                                    0 <= mi < p1.pending.len() && p1.pending[mi] == rules[m];
                                lemma_stage_a_clears_sources(
                                    p1.pending,
                                    temps,
                                    p1.fs,
                                    p1.moves,
                                );
                                assert(!sa.fs.dom().contains(p1.pending[mi].source));
                                assert(false);
                            }
                        }
                        lemma_stage_b_total(p1.pending, temps, sa.fs, sa.moves);
                    },
                    Err(_) => {
                        assert(false);
                    },
                }
            }
        },
        Err(_) => {
            assert(false);
        },
    }
}

/// After the first staging sweep, every path present was present before or is
/// a staging path.
proof fn lemma_stage_a_only_adds_temps(
    pending: Seq<RenameV>,
    temps: Seq<Seq<char>>,
    fs: Map<Seq<char>, u64>,
    moves: Seq<RenameV>,
    p: Seq<char>,
)
    requires
        temps.len() == pending.len(),
        forall|i: int| 0 <= i < temps.len() ==> temps[i] != p,
    ensures
        sim_stage_a(pending, temps, fs, moves) matches Ok(r) ==> (r.fs.dom().contains(p)
            ==> fs.dom().contains(p)),
    decreases pending.len(),
{
    if pending.len() > 0 && fs.dom().contains(pending[0].source) {
        let trest = temps.skip(1);
        assert forall|k: int| 0 <= k < trest.len() implies #[trigger] trest[k] == temps[k + 1] by {}
        assert forall|k: int| 0 <= k < trest.len() implies trest[k] != p by {
            assert(temps[k + 1] != p);
        }
        lemma_stage_a_only_adds_temps(
            pending.skip(1),
            trest,
            map_move(fs, pending[0].source, temps[0]),
            moves.push(RenameV { source: pending[0].source, dest: temps[0] }),
            p,
        );
        assert(temps[0] != p);
    }
}

/// After the first staging sweep, no pending source is occupied: every one
/// was moved to its staging path, and staging paths sit apart from sources.
proof fn lemma_stage_a_clears_sources(
    pending: Seq<RenameV>,
    temps: Seq<Seq<char>>,
    fs: Map<Seq<char>, u64>,
    moves: Seq<RenameV>,
)
    requires
        temps.len() == pending.len(),
        forall|k1: int, k2: int|
            0 <= k1 < k2 < pending.len() ==> pending[k1].source != pending[k2].source,
        forall|i: int, k: int|
            0 <= i < temps.len() && 0 <= k < pending.len() ==> temps[i] != pending[k].source,
    ensures
        sim_stage_a(pending, temps, fs, moves) matches Ok(r) ==> (forall|k: int|
            0 <= k < pending.len() ==> !r.fs.dom().contains((#[trigger] pending[k]).source)),
    decreases pending.len(),
{
    if pending.len() > 0 && fs.dom().contains(pending[0].source) {
        let s0 = pending[0].source;
        let t0 = temps[0];
        let fs2 = map_move(fs, s0, t0);
        let prest = pending.skip(1);
        let trest = temps.skip(1);
        assert forall|k: int| 0 <= k < prest.len() implies #[trigger] prest[k] == pending[k + 1]
            && trest[k] == temps[k + 1] by {}
        lemma_stage_a_clears_sources(
            prest,
            trest,
            fs2,
            moves.push(RenameV { source: s0, dest: t0 }),
        );
        assert forall|k: int| 0 <= k < prest.len() implies (#[trigger] prest[k]).source != s0
            && trest[k] != s0 by {
            assert(pending[k + 1].source != s0);
            assert(temps[k + 1] != pending[0].source);
        }
        lemma_stage_a_untouched(
            prest,
            trest,
            fs2,
            moves.push(RenameV { source: s0, dest: t0 }),
            s0,
        );
        match sim_stage_a(pending, temps, fs, moves) {
            Ok(r) => {
                assert forall|k: int| 0 <= k < pending.len() implies !r.fs.dom().contains(
                    (#[trigger] pending[k]).source,
                ) by {
                    if k == 0 {
                        assert(!fs2.dom().contains(s0));
                    } else {
                        assert(prest[k - 1] == pending[k]);
                    }
                }
            },
            Err(_) => {},
        }
    }
}

/// A pending rule whose destination is never vacated by the batch is a fatal
/// unresolved conflict: the file at the destination is not overwritten.
pub proof fn lemma_conflict_unresolved(
    a: Seq<char>,
    c: Seq<char>,
    t: Seq<char>,
    fs: Map<Seq<char>, u64>,
)
    requires
        a != c,
        fs.dom().contains(a),
        fs.dom().contains(c),
        !fs.dom().contains(t),
        t != a,
        t != c,
    ensures
        ({
            let rule = RenameV { source: a, dest: c };
            sim_execute(seq![rule], seq![t], fs) == Err::<ExecOk, ErrV>(
                (ErrV::Conflict { rule: (RenameV { source: a, dest: c }) }),
            )
        }),
{
    reveal_with_fuel(sim_phase1, 3);
    reveal_with_fuel(sim_stage_a, 3);
    reveal_with_fuel(sim_stage_b, 3);
    let rule = RenameV { source: a, dest: c };
    let rules = seq![rule];
    let temps = seq![t];
    assert(rules.skip(1) =~= Seq::<RenameV>::empty());
    assert(temps.skip(1) =~= Seq::<Seq<char>>::empty());
    assert(sim_phase1(rules, fs, Seq::empty(), Seq::empty()) == Ok::<Phase1Ok, ErrV>(
        (Phase1Ok { moves: Seq::empty(), pending: Seq::<RenameV>::empty().push(rule), fs }),
    ));
    assert(Seq::<RenameV>::empty().push(rule) =~= rules);
    assert(temps_ok(temps, rules, fs)) by {
        assert forall|i: int, j: int| 0 <= i < 1 && 0 <= j < 1 implies temps[i] != rules[j].dest
            && temps[i] != rules[j].source by {
            assert(temps[i] == t && rules[j] == rule);
        }
        assert forall|i: int| 0 <= i < 1 implies !fs.dom().contains(#[trigger] temps[i]) by {
            assert(temps[i] == t);
        }
    }
    let fs_a = map_move(fs, a, t);
    assert(sim_stage_a(rules, temps, fs, Seq::empty()) == Ok::<StageOk, ErrV>(
        (StageOk { moves: Seq::<RenameV>::empty().push((RenameV { source: a, dest: t })), fs: fs_a }),
    ));
    assert(fs_a.dom().contains(c));
    assert(sim_stage_b(
        rules,
        temps,
        fs_a,
        Seq::<RenameV>::empty().push((RenameV { source: a, dest: t })),
    ) == Err::<StageOk, ErrV>((ErrV::Conflict { rule })));
}

} // verus!
