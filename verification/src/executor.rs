//! The conflict-safe rename executor. A batch is applied in a direct pass
//! (rules whose destination is free are moved at once) followed, for the
//! rules left pending, by a two-phase staged pass: every pending source is
//! first moved to a fresh staging path, which vacates every destination that
//! is itself a pending source and so breaks rename cycles; only then is each
//! staging path moved to its final destination. The executor computes the
//! whole plan over a namespace model, so the moves it hands out never
//! overwrite a file.

use vstd::prelude::*;
use crate::fs_model::{FsModel, map_move};
use crate::rules::{Rename, RenameV, rules_view};
use crate::validate::{ValidationError, distinct_dests, distinct_sources, validate};

verus! {

/// Why a batch cannot be applied.
#[derive(Debug)]
pub enum ExecutionError {
    /// A move's origin does not exist in the namespace: the batch aborts.
    Io { source: String, dest: String },
    /// A pending rule's destination is never vacated by the batch, so
    /// applying the rule would overwrite a file: the batch aborts rather
    /// than overwrite.
    ConflictUnresolved { source: String, dest: String },
    /// The staging paths handed in are unusable: wrong count, repeated, or
    /// colliding with an existing file or with a path the batch touches.
    TempAllocation,
}

/// Mathematical image of an [`ExecutionError`].
pub ghost enum ErrV {
    Io { rule: RenameV },
    Conflict { rule: RenameV },
    TempAlloc,
}

impl View for ExecutionError {
    type V = ErrV;

    open spec fn view(&self) -> ErrV {
        match self {
            ExecutionError::Io { source, dest } => ErrV::Io {
                rule: RenameV { source: source@, dest: dest@ },
            },
            ExecutionError::ConflictUnresolved { source, dest } => ErrV::Conflict {
                rule: RenameV { source: source@, dest: dest@ },
            },
            ExecutionError::TempAllocation => ErrV::TempAlloc,
        }
    }
}

/// What the direct pass leaves behind: moves performed so far, rules still
/// pending, and the namespace after the moves.
pub ghost struct Phase1Ok {
    pub moves: Seq<RenameV>,
    pub pending: Seq<RenameV>,
    pub fs: Map<Seq<char>, u64>,
}

/// Moves accumulated by a staging sweep and the namespace after them.
pub ghost struct StageOk {
    pub moves: Seq<RenameV>,
    pub fs: Map<Seq<char>, u64>,
}

/// A completed plan: every move in order, and the final namespace.
pub ghost struct ExecOk {
    pub moves: Seq<RenameV>,
    pub fs: Map<Seq<char>, u64>,
}

/// The views of a sequence of staging paths.
pub open spec fn temps_view(ts: Seq<String>) -> Seq<Seq<char>> {
    ts.map_values(|t: String| t@)
}

/// The direct pass over `rules`, in order: a rule whose destination exists is
/// deferred as pending; otherwise its source must exist and is moved.
pub open spec fn sim_phase1(
    rules: Seq<RenameV>,
    fs: Map<Seq<char>, u64>,
    moves: Seq<RenameV>,
    pending: Seq<RenameV>,
) -> Result<Phase1Ok, ErrV>
    decreases rules.len(),
{
    if rules.len() == 0 {
        Ok(Phase1Ok { moves, pending, fs })
    } else {
        let r = rules[0];
        if fs.dom().contains(r.dest) {
            sim_phase1(rules.skip(1), fs, moves, pending.push(r))
        } else if fs.dom().contains(r.source) {
            sim_phase1(rules.skip(1), map_move(fs, r.source, r.dest), moves.push(r), pending)
        } else {
            Err(ErrV::Io { rule: r })
        }
    }
}

/// The staging paths are usable for the pending rules: one per rule, pairwise
/// distinct, not existing files, and apart from every path the batch touches.
pub open spec fn temps_ok(
    temps: Seq<Seq<char>>,
    pending: Seq<RenameV>,
    fs: Map<Seq<char>, u64>,
) -> bool {
    &&& temps.len() == pending.len()
    &&& (forall|i: int, j: int| 0 <= i < j < temps.len() ==> temps[i] != temps[j])
    &&& (forall|i: int| 0 <= i < temps.len() ==> !fs.dom().contains(#[trigger] temps[i]))
    &&& (forall|i: int, j: int|
        0 <= i < temps.len() && 0 <= j < pending.len() ==> temps[i] != pending[j].dest && temps[i]
            != pending[j].source)
}

/// The first staging sweep: move every pending source to its staging path.
pub open spec fn sim_stage_a(
    pending: Seq<RenameV>,
    temps: Seq<Seq<char>>,
    fs: Map<Seq<char>, u64>,
    moves: Seq<RenameV>,
) -> Result<StageOk, ErrV>
    decreases pending.len(),
{
    if pending.len() == 0 {
        Ok(StageOk { moves, fs })
    } else {
        let r = pending[0];
        if !fs.dom().contains(r.source) {
            Err(ErrV::Io { rule: r })
        } else {
            sim_stage_a(
                pending.skip(1),
                temps.skip(1),
                map_move(fs, r.source, temps[0]),
                moves.push(RenameV { source: r.source, dest: temps[0] }),
            )
        }
    }
}

/// The second staging sweep: move every staging path to its rule's
/// destination, refusing to overwrite a destination that was never vacated.
pub open spec fn sim_stage_b(
    pending: Seq<RenameV>,
    temps: Seq<Seq<char>>,
    fs: Map<Seq<char>, u64>,
    moves: Seq<RenameV>,
) -> Result<StageOk, ErrV>
    decreases pending.len(),
{
    if pending.len() == 0 {
        Ok(StageOk { moves, fs })
    } else {
        let r = pending[0];
        if fs.dom().contains(r.dest) {
            Err(ErrV::Conflict { rule: r })
        } else {
            sim_stage_b(
                pending.skip(1),
                temps.skip(1),
                map_move(fs, temps[0], r.dest),
                moves.push(RenameV { source: temps[0], dest: r.dest }),
            )
        }
    }
}

/// The whole protocol on the namespace `fs`: direct pass, then, if anything
/// is pending, the two staging sweeps using the staging paths `temps`.
pub open spec fn sim_execute(
    rules: Seq<RenameV>,
    temps: Seq<Seq<char>>,
    fs: Map<Seq<char>, u64>,
) -> Result<ExecOk, ErrV> {
    match sim_phase1(rules, fs, Seq::empty(), Seq::empty()) {
        Err(e) => Err(e),
        Ok(p1) => if p1.pending.len() == 0 {
            Ok(ExecOk { moves: p1.moves, fs: p1.fs })
        } else if !temps_ok(temps, p1.pending, p1.fs) {
            Err(ErrV::TempAlloc)
        } else {
            match sim_stage_a(p1.pending, temps, p1.fs, p1.moves) {
                Err(e) => Err(e),
                Ok(sa) => match sim_stage_b(p1.pending, temps, sa.fs, sa.moves) {
                    Err(e) => Err(e),
                    Ok(sb) => Ok(ExecOk { moves: sb.moves, fs: sb.fs }),
                },
            }
        },
    }
}

/// An owned copy of a rule.
fn copy_rule(r: &Rename) -> (c: Rename)
    ensures
        c@ == r@,
{
    Rename { source: r.source.clone(), dest: r.dest.clone() }
}

/// The outcome of the direct pass: the moves it performs, the rules left
/// pending, and the namespace after the moves.
pub struct DirectPlan {
    pub moves: Vec<Rename>,
    pub pending: Vec<Rename>,
    pub fs: FsModel,
}

/// A full plan for a batch: every move in order (direct pass, then the two
/// staging sweeps) and the namespace after all of them.
pub struct ExecutionReport {
    pub moves: Vec<Rename>,
    pub fs: FsModel,
}

/// Run the direct pass over the namespace model, exactly as `sim_phase1`
/// describes it.
pub fn direct_pass(rules: &Vec<Rename>, fs: &FsModel) -> (r: Result<DirectPlan, ExecutionError>)
    requires
        fs.wf(),
    ensures
        match r {
            Ok(p) => p.fs.wf() && sim_phase1(rules_view(rules@), fs@, Seq::empty(), Seq::empty())
                == Ok::<Phase1Ok, ErrV>(
                (Phase1Ok {
                    moves: rules_view(p.moves@),
                    pending: rules_view(p.pending@),
                    fs: p.fs@,
                }),
            ),
            Err(e) => sim_phase1(rules_view(rules@), fs@, Seq::empty(), Seq::empty())
                == Err::<Phase1Ok, ErrV>(e@),
        },
{
    let ghost rv = rules_view(rules@);
    let mut fs_cur = fs.duplicate();
    let mut moves: Vec<Rename> = Vec::new();
    let mut pending: Vec<Rename> = Vec::new();
    let n = rules.len();
    let mut i: usize = 0;
    proof {
        assert(rv.skip(0) =~= rv);
        assert(rules_view(moves@) =~= Seq::<RenameV>::empty());
        assert(rules_view(pending@) =~= Seq::<RenameV>::empty());
    }
    while i < n
        invariant
            i <= n,
            n == rules@.len(),
            rv == rules_view(rules@),
            fs_cur.wf(),
            sim_phase1(rv, fs@, Seq::empty(), Seq::empty()) == sim_phase1(
                rv.skip(i as int),
                fs_cur@,
                rules_view(moves@),
                rules_view(pending@),
            ),
        decreases n - i,
    {
        let ghost rest = rv.skip(i as int);
        proof {
            assert(rest[0] == rv[i as int]);
            assert(rest.skip(1) =~= rv.skip(i as int + 1));
            assert(rv[i as int] == rules@[i as int]@);
        }
        if fs_cur.contains_path(rules[i].dest.as_str()) {
            let ghost pv0 = rules_view(pending@);
            pending.push(copy_rule(&rules[i]));
            proof {
                assert(rules_view(pending@) =~= pv0.push(rv[i as int]));
            }
        } else if fs_cur.contains_path(rules[i].source.as_str()) {
            let ghost mv0 = rules_view(moves@);
            fs_cur.apply_move(&rules[i].source, &rules[i].dest);
            moves.push(copy_rule(&rules[i]));
            proof {
                assert(rules_view(moves@) =~= mv0.push(rv[i as int]));
            }
        } else {
            let e = ExecutionError::Io {
                source: rules[i].source.clone(),
                dest: rules[i].dest.clone(),
            };
            proof {
                assert(e@ == (ErrV::Io { rule: rv[i as int] }));
                assert(sim_phase1(rest, fs_cur@, rules_view(moves@), rules_view(pending@))
                    == Err::<Phase1Ok, ErrV>(ErrV::Io { rule: rest[0] }));
            }
            return Err(e);
        }
        i = i + 1;
    }
    proof {
        assert(rv.skip(n as int) =~= Seq::<RenameV>::empty());
    }
    Ok(DirectPlan { moves, pending, fs: fs_cur })
}

/// Check that the staging paths are usable, exactly as `temps_ok` says.
fn check_temps(temps: &Vec<String>, pending: &Vec<Rename>, fs: &FsModel) -> (b: bool)
    ensures
        b == temps_ok(temps_view(temps@), rules_view(pending@), fs@),
{
    let ghost tv = temps_view(temps@);
    let ghost pv = rules_view(pending@);
    if temps.len() != pending.len() {
        return false;
    }
    let n = temps.len();
    let mut j: usize = 0;
    while j < n
        invariant
            j <= n,
            n == temps@.len() == pending@.len(),
            tv == temps_view(temps@),
            pv == rules_view(pending@),
            forall|x: int, y: int| 0 <= x < y < j ==> tv[x] != tv[y],
        decreases n - j,
    {
        let mut i: usize = 0;
        while i < j
            invariant
                i <= j < n,
                n == temps@.len(),
                tv == temps_view(temps@),
                forall|x: int| 0 <= x < i ==> tv[x] != tv[j as int],
            decreases j - i,
        {
            if temps[i] == temps[j] {
                proof {
                    assert(tv[i as int] == tv[j as int]);
                }
                return false;
            }
            i = i + 1;
        }
        j = j + 1;
    }
    let mut i: usize = 0;
    while i < n
        invariant
            i <= n,
            n == temps@.len(),
            tv == temps_view(temps@),
            forall|x: int| 0 <= x < i ==> !fs@.dom().contains(#[trigger] tv[x]),
        decreases n - i,
    {
        if fs.contains_path(temps[i].as_str()) {
            proof {
                assert(fs@.dom().contains(tv[i as int]));
            }
            return false;
        }
        i = i + 1;
    }
    let mut i: usize = 0;
    while i < n
        invariant
            i <= n,
            n == temps@.len() == pending@.len(),
            tv == temps_view(temps@),
            pv == rules_view(pending@),
            forall|x: int, y: int|
                0 <= x < i && 0 <= y < n ==> tv[x] != pv[y].dest && tv[x] != pv[y].source,
        decreases n - i,
    {
        let mut j2: usize = 0;
        while j2 < n
            invariant
                i < n,
                j2 <= n,
                n == temps@.len() == pending@.len(),
                tv == temps_view(temps@),
                pv == rules_view(pending@),
                forall|y: int|
                    0 <= y < j2 ==> tv[i as int] != pv[y].dest && tv[i as int] != pv[y].source,
            decreases n - j2,
        {
            if temps[i] == pending[j2].dest || temps[i] == pending[j2].source {
                proof {
                    assert(tv[i as int] == pv[j2 as int].dest || tv[i as int] == pv[
                        j2 as int
                    ].source);
                    assert(!temps_ok(tv, pv, fs@));
                }
                return false;
            }
            proof {
                assert(tv[i as int] != pv[j2 as int].dest && tv[i as int] != pv[
                    j2 as int
                ].source);
            }
            j2 = j2 + 1;
        }
        proof {
            assert forall|x: int, y: int|
                0 <= x < i + 1 && 0 <= y < n implies tv[x] != pv[y].dest && tv[x]
                    != pv[y].source by {
                if x == i as int {
                    assert(tv[i as int] != pv[y].dest && tv[i as int] != pv[y].source);
                }
            }
        }
        i = i + 1;
    }
    true
}

/// Apply a validated batch to the namespace model: the direct pass, then the
/// two staged sweeps for whatever it left pending. Returns the full ordered
/// move list and the final namespace, or the first error the protocol meets,
/// exactly as `sim_execute` describes.
pub fn execute(rules: &Vec<Rename>, temps: &Vec<String>, fs: &FsModel) -> (r: Result<
    ExecutionReport,
    ExecutionError,
>)
    requires
        fs.wf(),
        distinct_sources(rules_view(rules@)),
        distinct_dests(rules_view(rules@)),
    ensures
        match r {
            Ok(rep) => rep.fs.wf() && sim_execute(rules_view(rules@), temps_view(temps@), fs@)
                == Ok::<ExecOk, ErrV>((ExecOk { moves: rules_view(rep.moves@), fs: rep.fs@ })),
            Err(e) => sim_execute(rules_view(rules@), temps_view(temps@), fs@) == Err::<
                ExecOk,
                ErrV,
            >(e@),
        },
{
    let ghost rv = rules_view(rules@);
    let ghost tv = temps_view(temps@);
    let d = match direct_pass(rules, fs) {
        Ok(d) => d,
        Err(e) => {
            return Err(e);
        },
    };
    let DirectPlan { moves: mut moves, pending: pending, fs: mut fs_cur } = d;
    if pending.len() == 0 {
        proof {
            assert(rules_view(pending@).len() == 0);
        }
        return Ok(ExecutionReport { moves, fs: fs_cur });
    }
    if !check_temps(temps, &pending, &fs_cur) {
        return Err(ExecutionError::TempAllocation);
    }
    let ghost pv = rules_view(pending@);
    let ghost fs1 = fs_cur@;
    let ghost mv1 = rules_view(moves@);
    let n = pending.len();
    let mut i: usize = 0;
    proof {
        assert(pv.skip(0) =~= pv);
        assert(tv.skip(0) =~= tv);
    }
    while i < n
        invariant
            i <= n,
            n == pending@.len() == temps@.len(),
            pv == rules_view(pending@),
            tv == temps_view(temps@),
            pv.len() > 0,
            rv == rules_view(rules@),
            sim_phase1(rv, fs@, Seq::empty(), Seq::empty()) == Ok::<Phase1Ok, ErrV>(
                (Phase1Ok { moves: mv1, pending: pv, fs: fs1 }),
            ),
            temps_ok(tv, pv, fs1),
            fs_cur.wf(),
            forall|j: int| i <= j < n ==> !fs_cur@.dom().contains(#[trigger] tv[j]),
            forall|j: int| 0 <= j < i ==> fs_cur@.dom().contains(#[trigger] tv[j]),
            sim_stage_a(pv, tv, fs1, mv1) == sim_stage_a(
                pv.skip(i as int),
                tv.skip(i as int),
                fs_cur@,
                rules_view(moves@),
            ),
        decreases n - i,
    {
        let ghost prest = pv.skip(i as int);
        let ghost trest = tv.skip(i as int);
        proof {
            assert(prest[0] == pv[i as int]);
            assert(trest[0] == tv[i as int]);
            assert(prest.skip(1) =~= pv.skip(i as int + 1));
            assert(trest.skip(1) =~= tv.skip(i as int + 1));
            assert(pv[i as int] == pending@[i as int]@);
            assert(tv[i as int] == temps@[i as int]@);
        }
        if !fs_cur.contains_path(pending[i].source.as_str()) {
            let e = ExecutionError::Io {
                source: pending[i].source.clone(),
                dest: pending[i].dest.clone(),
            };
            proof {
                assert(e@ == (ErrV::Io { rule: pv[i as int] }));
                assert(sim_stage_a(prest, trest, fs_cur@, rules_view(moves@)) == Err::<
                    StageOk,
                    ErrV,
                >(ErrV::Io { rule: prest[0] }));
            }
            return Err(e);
        }
        let ghost mv0 = rules_view(moves@);
        let ghost fsa = fs_cur@;
        fs_cur.apply_move(&pending[i].source, &temps[i]);
        let mv = Rename { source: pending[i].source.clone(), dest: temps[i].clone() };
        proof {
            assert(mv@ == (RenameV { source: pv[i as int].source, dest: tv[i as int] }));
        }
        moves.push(mv);
        proof {
            assert(rules_view(moves@) =~= mv0.push(
                RenameV { source: pv[i as int].source, dest: tv[i as int] },
            ));
            assert(fs_cur@ == map_move(fsa, pv[i as int].source, tv[i as int]));
            assert forall|j: int| i + 1 <= j < n implies !fs_cur@.dom().contains(
                #[trigger] tv[j],
            ) by {
                assert(tv[i as int] != tv[j]);
            }
            assert forall|j: int| 0 <= j < i + 1 implies fs_cur@.dom().contains(
                #[trigger] tv[j],
            ) by {
                if j < i as int {
                    assert(tv[j] != pv[i as int].dest && tv[j] != pv[i as int].source);
                }
            }
        }
        i = i + 1;
    }
    proof {
        assert(pv.skip(n as int) =~= Seq::<RenameV>::empty());
        assert(tv.skip(n as int) =~= Seq::<Seq<char>>::empty());
    }
    let ghost fs2 = fs_cur@;
    let ghost mv2 = rules_view(moves@);
    let mut i: usize = 0;
    proof {
        assert(pv.skip(0) =~= pv);
        assert(tv.skip(0) =~= tv);
    }
    while i < n
        invariant
            i <= n,
            n == pending@.len() == temps@.len(),
            pv == rules_view(pending@),
            tv == temps_view(temps@),
            pv.len() > 0,
            rv == rules_view(rules@),
            sim_phase1(rv, fs@, Seq::empty(), Seq::empty()) == Ok::<Phase1Ok, ErrV>(
                (Phase1Ok { moves: mv1, pending: pv, fs: fs1 }),
            ),
            temps_ok(tv, pv, fs1),
            sim_stage_a(pv, tv, fs1, mv1) == Ok::<StageOk, ErrV>(
                (StageOk { moves: mv2, fs: fs2 }),
            ),
            fs_cur.wf(),
            forall|j: int| i <= j < n ==> fs_cur@.dom().contains(#[trigger] tv[j]),
            sim_stage_b(pv, tv, fs2, mv2) == sim_stage_b(
                pv.skip(i as int),
                tv.skip(i as int),
                fs_cur@,
                rules_view(moves@),
            ),
        decreases n - i,
    {
        let ghost prest = pv.skip(i as int);
        let ghost trest = tv.skip(i as int);
        proof {
            assert(prest[0] == pv[i as int]);
            assert(trest[0] == tv[i as int]);
            assert(prest.skip(1) =~= pv.skip(i as int + 1));
            assert(trest.skip(1) =~= tv.skip(i as int + 1));
            assert(pv[i as int] == pending@[i as int]@);
            assert(tv[i as int] == temps@[i as int]@);
        }
        if fs_cur.contains_path(pending[i].dest.as_str()) {
            let e = ExecutionError::ConflictUnresolved {
                source: pending[i].source.clone(),
                dest: pending[i].dest.clone(),
            };
            proof {
                assert(e@ == (ErrV::Conflict { rule: pv[i as int] }));
                assert(sim_stage_b(prest, trest, fs_cur@, rules_view(moves@)) == Err::<
                    StageOk,
                    ErrV,
                >(ErrV::Conflict { rule: prest[0] }));
            }
            return Err(e);
        }
        let ghost mv0 = rules_view(moves@);
        let ghost fsb = fs_cur@;
        fs_cur.apply_move(&temps[i], &pending[i].dest);
        let mv = Rename { source: temps[i].clone(), dest: pending[i].dest.clone() };
        proof {
            assert(mv@ == (RenameV { source: tv[i as int], dest: pv[i as int].dest }));
        }
        moves.push(mv);
        proof {
            assert(rules_view(moves@) =~= mv0.push(
                RenameV { source: tv[i as int], dest: pv[i as int].dest },
            ));
            assert(fs_cur@ == map_move(fsb, tv[i as int], pv[i as int].dest));
            assert forall|j: int| i + 1 <= j < n implies fs_cur@.dom().contains(
                #[trigger] tv[j],
            ) by {
                assert(tv[i as int] != tv[j]);
            }
        }
        i = i + 1;
    }
    proof {
        assert(pv.skip(n as int) =~= Seq::<RenameV>::empty());
        assert(tv.skip(n as int) =~= Seq::<Seq<char>>::empty());
    }
    Ok(ExecutionReport { moves, fs: fs_cur })
}

/// Why a whole batch was refused: its rule set was inconsistent, or the
/// protocol could not apply it.
#[derive(Debug)]
pub enum BatchError {
    Validation(ValidationError),
    Execution(ExecutionError),
}

/// Validate a rule set and, when it is consistent, plan its application:
/// the whole pipeline from rule set to move list.
pub fn apply_file_renaming_rules(rules: &Vec<Rename>, temps: &Vec<String>, fs: &FsModel) -> (r:
    Result<ExecutionReport, BatchError>)
    requires
        fs.wf(),
    ensures
        match r {
            Ok(rep) => distinct_sources(rules_view(rules@)) && distinct_dests(rules_view(rules@))
                && rep.fs.wf() && sim_execute(rules_view(rules@), temps_view(temps@), fs@)
                == Ok::<ExecOk, ErrV>((ExecOk { moves: rules_view(rep.moves@), fs: rep.fs@ })),
            Err(BatchError::Validation(ValidationError::DuplicateSource { path })) =>
                !distinct_sources(rules_view(rules@)) && exists|i: int, j: int|
                    0 <= i < j < rules@.len() && rules@[i].source@ == path@ && rules@[j].source@
                        == path@,
            Err(BatchError::Validation(ValidationError::DuplicateDest { path })) =>
                distinct_sources(rules_view(rules@)) && !distinct_dests(rules_view(rules@))
                && exists|i: int, j: int|
                    0 <= i < j < rules@.len() && rules@[i].dest@ == path@ && rules@[j].dest@
                        == path@,
            Err(BatchError::Execution(e)) => distinct_sources(rules_view(rules@))
                && distinct_dests(rules_view(rules@)) && sim_execute(
                rules_view(rules@),
                temps_view(temps@),
                fs@,
            ) == Err::<ExecOk, ErrV>(e@),
        },
{
    match validate(rules) {
        Err(e) => Err(BatchError::Validation(e)),
        Ok(()) => match execute(rules, temps, fs) {
            Ok(rep) => Ok(rep),
            Err(e) => Err(BatchError::Execution(e)),
        },
    }
}

} // verus!
